use vstd::prelude::*;
use crate::ranges::{addr_set_boundaries, addr_set_contents, addr_set_difference, addr_set_empty, addr_set_from_range, addr_set_is_superset, addr_set_union_with, range_set, AddrSet};
use crate::records::{copy_text, InlineLine, InlineRange, InlineSiteRecord, SymbolRecord};
use crate::search::sorted_by_key;
use crate::sorting::sort_by_key;

verus! {

pub open spec fn covers(r: InlineRange, x: u32) -> bool {
    r.start_offset <= x < r.end_offset
}

/// Some range of `s[lo..hi]` at call depth `d` holds the address `x`.
pub open spec fn covered_in(s: Seq<InlineRange>, lo: int, hi: int, d: int, x: u32) -> bool {
    exists|i: int| lo <= i < hi && (#[trigger] s[i]).call_depth == d && covers(s[i], x)
}

/// In `s[lo..hi]`, each address of a range deeper than `base` is also held by
/// a range one level further out: a callee occupies no address that its
/// caller does not claim.
pub open spec fn nested_in(s: Seq<InlineRange>, lo: int, hi: int, base: int) -> bool {
    forall|i: int, x: u32|
        lo <= i < hi && (#[trigger] s[i]).call_depth > base && #[trigger] covers(s[i], x)
            ==> covered_in(s, lo, hi, s[i].call_depth - 1, x)
}

/// Every range is non-empty and at least as deep as `base`.
pub open spec fn ranges_from(s: Seq<InlineRange>, lo: int, hi: int, base: int) -> bool {
    forall|i: int| lo <= i < hi ==> (#[trigger] s[i]).start_offset < s[i].end_offset && s[i].call_depth >= base
}

/// The inline table of a procedure: sorted by (call depth, start), every range
/// non-empty, and each range nested in the ranges one level further out.
pub open spec fn is_inline_table(s: Seq<InlineRange>) -> bool {
    &&& sorted_by_key(s)
    &&& ranges_from(s, 0, s.len() as int, 0)
    &&& nested_in(s, 0, s.len() as int, 0)
}

/// Some range of `s[lo..hi]` at depth `d` with a line holds `x`.
pub open spec fn lined_in(s: Seq<InlineRange>, lo: int, hi: int, d: int, x: u32) -> bool {
    exists|i: int| lo <= i < hi && (#[trigger] s[i]).call_depth == d && s[i].line is Some && covers(s[i], x)
}

/// Some gap patch (a range without a line) of `s[lo..hi]` at depth `d` holds `x`.
pub open spec fn patched_in(s: Seq<InlineRange>, lo: int, hi: int, d: int, x: u32) -> bool {
    exists|i: int| lo <= i < hi && (#[trigger] s[i]).call_depth == d && s[i].line is None && covers(s[i], x)
}

/// Every address of a gap patch in `s[lo..hi]` is claimed by a range one
/// level deeper: no patch covers more than its callees need.
pub open spec fn patches_needed_in(s: Seq<InlineRange>, lo: int, hi: int) -> bool {
    forall|i: int, x: u32|
        lo <= i < hi && (#[trigger] s[i]).line is None && #[trigger] covers(s[i], x)
            ==> covered_in(s, lo, hi, s[i].call_depth + 1, x)
}

/// The gap patches of `s[lo..hi]` at depth `d` come in ascending order with a
/// gap between each two: one patch per maximal run of missing addresses.
pub open spec fn patches_apart(s: Seq<InlineRange>, lo: int, hi: int, d: int) -> bool {
    forall|i: int, j: int|
        lo <= i < j < hi && (#[trigger] s[i]).call_depth == d && s[i].line is None
            && (#[trigger] s[j]).call_depth == d && s[j].line is None
            ==> s[i].end_offset < s[j].start_offset
}

proof fn lemma_patches_grow(a: Seq<InlineRange>, b: Seq<InlineRange>, lo: int, hi: int, lo2: int, hi2: int)
    requires
        lo2 <= lo,
        hi <= hi2,
        hi <= a.len(),
        hi <= b.len(),
        forall|i: int| lo <= i < hi ==> a[i] == b[i],
        patches_needed_in(a, lo, hi),
    ensures
        forall|i: int, x: u32|
            lo <= i < hi && (#[trigger] b[i]).line is None && #[trigger] covers(b[i], x)
                ==> covered_in(b, lo2, hi2, b[i].call_depth + 1, x),
{
    assert forall|i: int, x: u32|
        lo <= i < hi && (#[trigger] b[i]).line is None && #[trigger] covers(b[i], x)
            implies covered_in(b, lo2, hi2, b[i].call_depth + 1, x) by {
        assert(a[i] == b[i]);
        assert(covers(a[i], x));
        lemma_covered_grow(a, b, lo, hi, lo2, hi2, a[i].call_depth + 1, x);
    }
}

proof fn lemma_covered_grow(a: Seq<InlineRange>, b: Seq<InlineRange>, lo: int, hi: int, lo2: int, hi2: int, d: int, x: u32)
    requires
        lo2 <= lo,
        hi <= hi2,
        hi <= a.len(),
        hi <= b.len(),
        forall|i: int| lo <= i < hi ==> a[i] == b[i],
        covered_in(a, lo, hi, d, x),
    ensures
        covered_in(b, lo2, hi2, d, x),
{
    let i = choose|i: int| lo <= i < hi && (#[trigger] a[i]).call_depth == d && covers(a[i], x);
    assert(b[i] == a[i]);
}

proof fn lemma_nested_grow(a: Seq<InlineRange>, b: Seq<InlineRange>, lo: int, hi: int, lo2: int, hi2: int, base: int)
    requires
        lo2 <= lo,
        hi <= hi2,
        hi <= a.len(),
        hi <= b.len(),
        forall|i: int| lo <= i < hi ==> a[i] == b[i],
        nested_in(a, lo, hi, base),
    ensures
        forall|i: int, x: u32|
            lo <= i < hi && (#[trigger] b[i]).call_depth > base && #[trigger] covers(b[i], x)
                ==> covered_in(b, lo2, hi2, b[i].call_depth - 1, x),
{
    assert forall|i: int, x: u32|
        lo <= i < hi && (#[trigger] b[i]).call_depth > base && #[trigger] covers(b[i], x)
            implies covered_in(b, lo2, hi2, b[i].call_depth - 1, x) by {
        assert(a[i] == b[i]);
        assert(covers(a[i], x));
        lemma_covered_grow(a, b, lo, hi, lo2, hi2, a[i].call_depth - 1, x);
    }
}

/// The position of the first record at or after `from` whose index is at
/// least `end`: the cursor jumps over a nested record's body.
pub open spec fn skip_spec(s: Seq<SymbolRecord>, from: int, end: u32) -> int
    decreases s.len() - from,
{
    if 0 <= from < s.len() && s[from].spec_index() < end {
        skip_spec(s, from + 1, end)
    } else {
        from
    }
}

proof fn lemma_skip_bounds(s: Seq<SymbolRecord>, from: int, end: u32)
    requires
        0 <= from <= s.len(),
    ensures
        from <= skip_spec(s, from, end) <= s.len(),
    decreases s.len() - from,
{
    if from < s.len() && s[from].spec_index() < end {
        lemma_skip_bounds(s, from + 1, end);
    }
}

fn skip_to(symbols: &Vec<SymbolRecord>, from: usize, end: u32) -> (r: usize)
    requires
        from <= symbols@.len(),
    ensures
        from <= r <= symbols@.len(),
        r == skip_spec(symbols@, from as int, end),
{
    let mut p = from;
    while p < symbols.len() && symbols[p].index() < end
        invariant
            from <= p <= symbols@.len(),
            skip_spec(symbols@, p as int, end) == skip_spec(symbols@, from as int, end),
        decreases symbols@.len() - p,
    {
        p = p + 1;
    }
    p
}

/// The walk over a record body: from position `pos` up to the first record
/// whose index is at least `end`, jumping over nested procedures. Each inline
/// site met is visited at `depth` and its own body is walked at `depth + 1`;
/// past the largest depth, sites are jumped over. Returns the cursor after
/// the walk and the visited sites as (position, depth), in record order.
pub open spec fn walk(s: Seq<SymbolRecord>, pos: int, end: u32, depth: int) -> (int, Seq<(int, int)>)
    decreases s.len() - pos,
{
    if pos < 0 || pos >= s.len() {
        (pos, Seq::empty())
    } else if s[pos].spec_index() >= end {
        (pos + 1, Seq::empty())
    } else {
        match s[pos] {
            SymbolRecord::Procedure(p) => {
                let next = skip_spec(s, pos + 1, p.end);
                if pos < next <= s.len() { walk(s, next, end, depth) } else { (next, Seq::empty()) }
            },
            SymbolRecord::InlineSite(site) => if depth <= 0xFFFF {
                let inner = walk(s, pos + 1, site.end, depth + 1);
                if pos < inner.0 <= s.len() {
                    let rest = walk(s, inner.0, end, depth);
                    (rest.0, seq![(pos, depth)].add(inner.1).add(rest.1))
                } else {
                    (inner.0, seq![(pos, depth)].add(inner.1))
                }
            } else {
                let next = skip_spec(s, pos + 1, site.end);
                if pos < next <= s.len() { walk(s, next, end, depth) } else { (next, Seq::empty()) }
            },
            _ => walk(s, pos + 1, end, depth),
        }
    }
}

/// The range that a line record of an inline site at `depth` gives.
pub open spec fn line_range(site: InlineSiteRecord, depth: int, li: InlineLine) -> InlineRange {
    InlineRange {
        start_offset: li.start_rva,
        end_offset: (li.start_rva + li.length.unwrap()) as u32,
        call_depth: depth as u16,
        inlinee: site.inlinee,
        name: site.inlinee_name,
        file: li.file,
        line: Some(li.line),
    }
}

/// The line record covers some bytes that fit in the address space.
pub open spec fn line_is_usable(li: InlineLine) -> bool {
    li.length matches Some(len) && len != 0 && li.start_rva + len <= u32::MAX
}

/// Each usable line record of the site stands in `out[lo..hi]` as a range at
/// `depth`.
pub open spec fn site_lines_in(out: Seq<InlineRange>, lo: int, hi: int, site: InlineSiteRecord, depth: int) -> bool {
    forall|j: int| 0 <= j < site.lines@.len() && #[trigger] line_is_usable(site.lines@[j])
        ==> exists|i: int| lo <= i < hi && out[i] == line_range(site, depth, site.lines@[j])
}

/// Each visited site has its usable line records in `out[lo..hi]`.
pub open spec fn visited_lines_in(out: Seq<InlineRange>, lo: int, hi: int, s: Seq<SymbolRecord>, visited: Seq<(int, int)>) -> bool {
    forall|v: int| 0 <= v < visited.len() ==> (s[(#[trigger] visited[v]).0] matches SymbolRecord::InlineSite(site)
        ==> site_lines_in(out, lo, hi, site, visited[v].1))
}

/// The range belongs to the site at `depth`: it is one of the site's usable
/// line records, or a gap patch with neither file nor line.
pub open spec fn site_range(r: InlineRange, site: InlineSiteRecord, depth: int) -> bool {
    &&& r.call_depth == depth
    &&& r.inlinee == site.inlinee
    &&& r.name == site.inlinee_name
    &&& (r.file is None && r.line is None) || exists|j: int|
        0 <= j < site.lines@.len() && line_is_usable(site.lines@[j]) && r == #[trigger] line_range(site, depth, site.lines@[j])
}

/// The range belongs to one of the visited sites.
pub open spec fn from_visited(r: InlineRange, s: Seq<SymbolRecord>, visited: Seq<(int, int)>) -> bool {
    exists|v: int| 0 <= v < visited.len() && (s[(#[trigger] visited[v]).0] matches SymbolRecord::InlineSite(site)
        && site_range(r, site, visited[v].1))
}

proof fn lemma_from_visited_extend(r: InlineRange, s: Seq<SymbolRecord>, a: Seq<(int, int)>, b: Seq<(int, int)>)
    requires
        from_visited(r, s, a),
    ensures
        from_visited(r, s, a.add(b)),
{
    let v = choose|v: int| 0 <= v < a.len() && (s[(#[trigger] a[v]).0] matches SymbolRecord::InlineSite(site)
        && site_range(r, site, a[v].1));
    assert(a.add(b)[v] == a[v]);
}

proof fn lemma_from_visited_shift(r: InlineRange, s: Seq<SymbolRecord>, a: Seq<(int, int)>, b: Seq<(int, int)>)
    requires
        from_visited(r, s, b),
    ensures
        from_visited(r, s, a.add(b)),
{
    let v = choose|v: int| 0 <= v < b.len() && (s[(#[trigger] b[v]).0] matches SymbolRecord::InlineSite(site)
        && site_range(r, site, b[v].1));
    assert(a.add(b)[a.len() + v] == b[v]);
}

proof fn lemma_site_lines_grow(a: Seq<InlineRange>, b: Seq<InlineRange>, lo: int, hi: int, lo2: int, hi2: int, site: InlineSiteRecord, depth: int)
    requires
        lo2 <= lo,
        hi <= hi2,
        hi <= a.len(),
        hi <= b.len(),
        forall|i: int| lo <= i < hi ==> a[i] == b[i],
        site_lines_in(a, lo, hi, site, depth),
    ensures
        site_lines_in(b, lo2, hi2, site, depth),
{
    assert forall|j: int| 0 <= j < site.lines@.len() && #[trigger] line_is_usable(site.lines@[j])
        implies exists|i: int| lo2 <= i < hi2 && b[i] == line_range(site, depth, site.lines@[j]) by {
        let i = choose|i: int| lo <= i < hi && a[i] == line_range(site, depth, site.lines@[j]);
        assert(b[i] == a[i]);
    }
}

proof fn lemma_visited_lines_grow(a: Seq<InlineRange>, b: Seq<InlineRange>, lo: int, hi: int, lo2: int, hi2: int, s: Seq<SymbolRecord>, visited: Seq<(int, int)>)
    requires
        lo2 <= lo,
        hi <= hi2,
        hi <= a.len(),
        hi <= b.len(),
        forall|i: int| lo <= i < hi ==> a[i] == b[i],
        visited_lines_in(a, lo, hi, s, visited),
    ensures
        visited_lines_in(b, lo2, hi2, s, visited),
{
    assert forall|v: int| 0 <= v < visited.len() implies (s[(#[trigger] visited[v]).0] matches SymbolRecord::InlineSite(site)
        ==> site_lines_in(b, lo2, hi2, site, visited[v].1)) by {
        if let SymbolRecord::InlineSite(site) = s[visited[v].0] {
            lemma_site_lines_grow(a, b, lo, hi, lo2, hi2, site, visited[v].1);
        }
    }
}

/// Collects the ranges of one inline site at `call_depth` and, recursively,
/// those of the sites nested in it, reading records from position `pos` on
/// until the site's end. Returns the cursor after the site and the addresses
/// that the site's own ranges hold. Where the nested sites claim addresses
/// that the site's lines do not, ranges at `call_depth` without file or line
/// fill the gap.
fn process_inlinee_symbols(
    symbols: &Vec<SymbolRecord>,
    pos: usize,
    site: &InlineSiteRecord,
    call_depth: u16,
    out: &mut Vec<InlineRange>,
) -> (r: (usize, AddrSet))
    requires
        pos <= symbols@.len(),
    ensures
        pos <= r.0 <= symbols@.len(),
        final(out)@.len() >= old(out)@.len(),
        forall|i: int| 0 <= i < old(out)@.len() ==> #[trigger] final(out)@[i] == old(out)@[i],
        ranges_from(final(out)@, old(out)@.len() as int, final(out)@.len() as int, call_depth as int),
        nested_in(final(out)@, old(out)@.len() as int, final(out)@.len() as int, call_depth as int),
        forall|x: u32| #[trigger] addr_set_contents(r.1).contains(x)
            <==> covered_in(final(out)@, old(out)@.len() as int, final(out)@.len() as int, call_depth as int, x),
        r.0 == walk(symbols@, pos as int, site.end, call_depth + 1).0,
        site_lines_in(final(out)@, old(out)@.len() as int, final(out)@.len() as int, *site, call_depth as int),
        visited_lines_in(final(out)@, old(out)@.len() as int, final(out)@.len() as int, symbols@,
            walk(symbols@, pos as int, site.end, call_depth + 1).1),
        forall|i: int| old(out)@.len() <= i < final(out)@.len() ==> site_range(#[trigger] final(out)@[i], *site, call_depth as int)
            || from_visited(final(out)@[i], symbols@, walk(symbols@, pos as int, site.end, call_depth + 1).1),
        forall|x: u32| #[trigger] patched_in(final(out)@, old(out)@.len() as int, final(out)@.len() as int, call_depth as int, x)
            <==> covered_in(final(out)@, old(out)@.len() as int, final(out)@.len() as int, call_depth + 1, x)
                && !lined_in(final(out)@, old(out)@.len() as int, final(out)@.len() as int, call_depth as int, x),
        patches_needed_in(final(out)@, old(out)@.len() as int, final(out)@.len() as int),
        patches_apart(final(out)@, old(out)@.len() as int, final(out)@.len() as int, call_depth as int),
    decreases symbols@.len() - pos,
{
    let ghost start = out@;
    let ghost l0 = out@.len() as int;
    let d = call_depth;
    let mut ranges = addr_set_empty();
    let mut i: usize = 0;
    while i < site.lines.len()
        invariant
            out@.len() >= l0,
            l0 == start.len(),
            forall|j: int| 0 <= j < l0 ==> #[trigger] out@[j] == start[j],
            forall|j: int| l0 <= j < out@.len() ==> (#[trigger] out@[j]).start_offset < out@[j].end_offset && out@[j].call_depth == d,
            forall|x: u32| #[trigger] addr_set_contents(ranges).contains(x) <==> covered_in(out@, l0, out@.len() as int, d as int, x),
            0 <= i <= site.lines@.len(),
            forall|j: int| 0 <= j < i && #[trigger] line_is_usable(site.lines@[j])
                ==> exists|q: int| l0 <= q < out@.len() && out@[q] == line_range(*site, d as int, site.lines@[j]),
            forall|j: int| l0 <= j < out@.len() ==> site_range(#[trigger] out@[j], *site, d as int) && out@[j].line is Some,
        decreases site.lines@.len() - i,
    {
        let li = &site.lines[i];
        if let Some(length) = li.length {
            if length != 0 {
                if let Some(end) = li.start_rva.checked_add(length) {
                    let ghost before = out@;
                    let ghost old_ranges = addr_set_contents(ranges);
                    out.push(InlineRange {
                        start_offset: li.start_rva,
                        end_offset: end,
                        call_depth: d,
                        inlinee: site.inlinee,
                        name: copy_text(&site.inlinee_name),
                        file: copy_text(&li.file),
                        line: Some(li.line),
                    });
                    let piece = addr_set_from_range(li.start_rva, end);
                    addr_set_union_with(&mut ranges, &piece);
                    proof {
                        let n = before.len() as int;
                        assert(out@[n] == line_range(*site, d as int, site.lines@[i as int]));
                        assert forall|j: int| l0 <= j < out@.len() implies site_range(#[trigger] out@[j], *site, d as int) && out@[j].line is Some by {
                            if j < n {
                                assert(out@[j] == before[j]);
                            }
                        }
                        assert forall|j: int| 0 <= j < i + 1 && #[trigger] line_is_usable(site.lines@[j])
                            implies exists|q: int| l0 <= q < out@.len() && out@[q] == line_range(*site, d as int, site.lines@[j]) by {
                            if j < i {
                                let q = choose|q: int| l0 <= q < before.len() && before[q] == line_range(*site, d as int, site.lines@[j]);
                                assert(out@[q] == before[q]);
                            }
                        }
                        assert forall|x: u32| covered_in(out@, l0, out@.len() as int, d as int, x)
                            implies #[trigger] addr_set_contents(ranges).contains(x) by {
                            let w = choose|w: int| l0 <= w < out@.len() && (#[trigger] out@[w]).call_depth == d && covers(out@[w], x);
                            if w < n {
                                assert(out@[w] == before[w]);
                                assert(covered_in(before, l0, n, d as int, x));
                            } else {
                                assert(range_set(li.start_rva, end).contains(x));
                            }
                        }
                        assert forall|x: u32| #[trigger] addr_set_contents(ranges).contains(x)
                            implies covered_in(out@, l0, out@.len() as int, d as int, x) by {
                            if old_ranges.contains(x) {
                                lemma_covered_grow(before, out@, l0, n, l0, n + 1, d as int, x);
                            } else {
                                assert(range_set(li.start_rva, end).contains(x));
                                assert(covers(out@[n], x));
                            }
                        }
                    }
                }
            }
        }
        proof {
            if !line_is_usable(site.lines@[i as int]) {
                assert forall|j: int| 0 <= j < i + 1 && #[trigger] line_is_usable(site.lines@[j])
                    implies exists|q: int| l0 <= q < out@.len() && out@[q] == line_range(*site, d as int, site.lines@[j]) by {
                }
            }
        }
        i = i + 1;
    }
    let ghost own = out@;
    let ghost l1 = out@.len() as int;
    assert(site_lines_in(own, l0, l1, *site, d as int));
    let ghost whole = walk(symbols@, pos as int, site.end, d + 1);
    let ghost mut acc: Seq<(int, int)> = Seq::empty();
    let mut callee = addr_set_empty();
    let mut cur = pos;
    let mut stop = false;
    while !stop && cur < symbols.len()
        invariant
            pos <= cur <= symbols@.len(),
            l0 <= l1 <= out@.len(),
            l0 == start.len(),
            l1 == own.len(),
            forall|j: int| 0 <= j < l1 ==> #[trigger] out@[j] == own[j],
            forall|j: int| 0 <= j < l0 ==> #[trigger] own[j] == start[j],
            forall|j: int| l0 <= j < l1 ==> (#[trigger] own[j]).start_offset < own[j].end_offset && own[j].call_depth == d,
            forall|x: u32| #[trigger] addr_set_contents(ranges).contains(x) <==> covered_in(own, l0, l1, d as int, x),
            d < u16::MAX ==> ranges_from(out@, l1, out@.len() as int, d + 1),
            d == u16::MAX ==> out@.len() == l1,
            nested_in(out@, l1, out@.len() as int, d + 1),
            forall|x: u32| #[trigger] addr_set_contents(callee).contains(x) <==> covered_in(out@, l1, out@.len() as int, d + 1, x),
            whole == walk(symbols@, pos as int, site.end, d + 1),
            !stop ==> whole == (walk(symbols@, cur as int, site.end, d + 1).0, acc.add(walk(symbols@, cur as int, site.end, d + 1).1)),
            stop ==> whole == (cur as int, acc),
            visited_lines_in(out@, l1, out@.len() as int, symbols@, acc),
            forall|j: int| l1 <= j < out@.len() ==> from_visited(#[trigger] out@[j], symbols@, acc),
            forall|j: int| l0 <= j < l1 ==> (#[trigger] own[j]).line is Some,
            patches_needed_in(out@, l1, out@.len() as int),
        decreases symbols@.len() - cur,
    {
        let ghost at = cur as int;
        let rec = &symbols[cur];
        cur = cur + 1;
        if rec.index() >= site.end {
            stop = true;
            proof {
                assert(acc.add(Seq::<(int, int)>::empty()) =~= acc);
            }
        } else {
            match rec {
                SymbolRecord::Procedure(p) => {
                    cur = skip_to(symbols, cur, p.end);
                },
                SymbolRecord::InlineSite(nested) => {
                    if d < u16::MAX {
                        let ghost before = out@;
                        let ghost old_callee = addr_set_contents(callee);
                        let (next, child) = process_inlinee_symbols(symbols, cur, nested, d + 1, out);
                        cur = next;
                        addr_set_union_with(&mut callee, &child);
                        proof {
                            let lb = before.len() as int;
                            let la = out@.len() as int;
                            let inner = walk(symbols@, at + 1, nested.end, d + 2);
                            let step = seq![(at, d + 1)].add(inner.1);
                            assert(whole == (walk(symbols@, cur as int, site.end, d + 1).0,
                                acc.add(step).add(walk(symbols@, cur as int, site.end, d + 1).1))) by {
                                assert(acc.add(seq![(at, d + 1)].add(inner.1).add(walk(symbols@, cur as int, site.end, d + 1).1))
                                    =~= acc.add(step).add(walk(symbols@, cur as int, site.end, d + 1).1));
                            }
                            lemma_visited_lines_grow(before, out@, l1, lb, l1, la, symbols@, acc);
                            lemma_visited_lines_grow(out@, out@, lb, la, l1, la, symbols@, inner.1);
                            lemma_site_lines_grow(out@, out@, lb, la, l1, la, *nested, d + 1);
                            let next_acc = acc.add(step);
                            assert forall|v: int| 0 <= v < next_acc.len() implies (symbols@[(#[trigger] next_acc[v]).0] matches SymbolRecord::InlineSite(st)
                                ==> site_lines_in(out@, l1, la, st, next_acc[v].1)) by {
                                if v < acc.len() {
                                    assert(next_acc[v] == acc[v]);
                                } else if v == acc.len() {
                                    assert(next_acc[v] == (at, d + 1));
                                    assert(symbols@[at] == SymbolRecord::InlineSite(*nested));
                                } else {
                                    assert(next_acc[v] == inner.1[v - acc.len() - 1]);
                                }
                            }
                            assert forall|j: int| l1 <= j < la implies from_visited(#[trigger] out@[j], symbols@, next_acc) by {
                                if j < lb {
                                    assert(out@[j] == before[j]);
                                    lemma_from_visited_extend(out@[j], symbols@, acc, step);
                                } else {
                                    if site_range(out@[j], *nested, d + 1) {
                                        assert(step[0] == (at, d + 1));
                                        assert(symbols@[at] == SymbolRecord::InlineSite(*nested));
                                        assert(from_visited(out@[j], symbols@, step));
                                    } else {
                                        lemma_from_visited_shift(out@[j], symbols@, seq![(at, d + 1)], inner.1);
                                    }
                                    lemma_from_visited_shift(out@[j], symbols@, acc, step);
                                }
                            }
                            acc = next_acc;
                            lemma_nested_grow(before, out@, l1, lb, l1, la, d + 1);
                            lemma_nested_grow(out@, out@, lb, la, l1, la, d + 1);
                            lemma_patches_grow(before, out@, l1, lb, l1, la);
                            lemma_patches_grow(out@, out@, lb, la, l1, la);
                            assert forall|x: u32| #[trigger] addr_set_contents(callee).contains(x)
                                <==> covered_in(out@, l1, la, d + 1, x) by {
                                if old_callee.contains(x) {
                                    lemma_covered_grow(before, out@, l1, lb, l1, la, d + 1, x);
                                }
                                if addr_set_contents(child).contains(x) {
                                    lemma_covered_grow(out@, out@, lb, la, l1, la, d + 1, x);
                                }
                                if covered_in(out@, l1, la, d + 1, x) {
                                    let w = choose|w: int| l1 <= w < la && (#[trigger] out@[w]).call_depth == d + 1 && covers(out@[w], x);
                                    if w < lb {
                                        assert(out@[w] == before[w]);
                                        assert(covered_in(before, l1, lb, d + 1, x));
                                    } else {
                                        assert(covered_in(out@, lb, la, d + 1, x));
                                    }
                                }
                            }
                        }
                    } else {
                        cur = skip_to(symbols, cur, nested.end);
                    }
                },
                _ => {},
            }
        }
    }
    proof {
        if !stop {
            assert(walk(symbols@, cur as int, site.end, d + 1) == (cur as int, Seq::<(int, int)>::empty()));
            assert(acc.add(Seq::<(int, int)>::empty()) =~= acc);
        }
    }
    let ghost l2 = out@.len() as int;
    let ghost kids = out@;
    proof {
        assert forall|j: int| l1 <= j < l2 implies (#[trigger] kids[j]).call_depth > d by {
            if d < u16::MAX {
                assert(kids[j].call_depth >= d + 1);
            }
        }
        assert forall|x: u32| lined_in(kids, l0, l2, d as int, x) <==> covered_in(own, l0, l1, d as int, x) by {
            if lined_in(kids, l0, l2, d as int, x) {
                let w = choose|w: int| l0 <= w < l2 && (#[trigger] kids[w]).call_depth == d && kids[w].line is Some && covers(kids[w], x);
                assert(w < l1);
                assert(kids[w] == own[w]);
            }
            if covered_in(own, l0, l1, d as int, x) {
                let w = choose|w: int| l0 <= w < l1 && (#[trigger] own[w]).call_depth == d && covers(own[w], x);
                assert(kids[w] == own[w]);
            }
        }
        assert forall|x: u32| #[trigger] addr_set_contents(ranges).contains(x) <==> covered_in(out@, l0, l2, d as int, x) by {
            if covered_in(own, l0, l1, d as int, x) {
                lemma_covered_grow(own, out@, l0, l1, l0, l2, d as int, x);
            }
            if covered_in(out@, l0, l2, d as int, x) {
                let w = choose|w: int| l0 <= w < l2 && (#[trigger] out@[w]).call_depth == d && covers(out@[w], x);
                if w < l1 {
                    assert(out@[w] == own[w]);
                }
            }
        }
    }
    if !addr_set_is_superset(&ranges, &callee) {
        let missing = addr_set_difference(&callee, &ranges);
        let b = addr_set_boundaries(&missing);
        proof {
            if b@.len() % 2 == 1 {
                let top = u32::MAX;
                assert(addr_set_contents(missing).contains(top));
                assert(covered_in(kids, l1, l2, d + 1, top));
            }
        }
        let mut k: usize = 0;
        let ghost mut m: int = 0;
        while k + 1 < b.len()
            invariant
                b@.len() % 2 == 0,
                k == 2 * m,
                k <= b@.len(),
                kids.len() == l2,
                forall|a: int, c: int| 0 <= a < c < b@.len() ==> b@[a] < b@[c],
                out@.len() == l2 + m,
                forall|j: int| 0 <= j < l2 ==> #[trigger] out@[j] == kids[j],
                forall|j: int| l2 <= j < out@.len() ==> (#[trigger] out@[j]).call_depth == d
                    && out@[j].start_offset == b@[2 * (j - l2)] && out@[j].end_offset == b@[2 * (j - l2) + 1]
                    && site_range(out@[j], *site, d as int) && out@[j].line is None,
            decreases b@.len() - k,
        {
            out.push(InlineRange {
                start_offset: b[k],
                end_offset: b[k + 1],
                call_depth: d,
                inlinee: site.inlinee,
                name: copy_text(&site.inlinee_name),
                file: None,
                line: None,
            });
            k = k + 2;
            proof {
                m = m + 1;
            }
        }
        let ghost patched = addr_set_contents(ranges);
        addr_set_union_with(&mut ranges, &missing);
        proof {
            let l3 = out@.len() as int;
            assert(k == b@.len());
            assert forall|i: int| l0 <= i < l3 implies site_range(#[trigger] out@[i], *site, d as int)
                || from_visited(out@[i], symbols@, acc) by {
                if i < l2 {
                    assert(out@[i] == kids[i]);
                    if i < l1 {
                        assert(kids[i] == own[i]);
                    }
                }
            }
            // the patches hold exactly the missing addresses
            assert forall|x: u32| addr_set_contents(missing).contains(x) <==> covered_in(out@, l2, l3, d as int, x) by {
                if addr_set_contents(missing).contains(x) {
                    let q = choose|q: int| 0 <= 2 * q && 2 * q + 1 < b@.len() && #[trigger] b@[2 * q] <= x < b@[2 * q + 1];
                    assert(out@[l2 + q].start_offset == b@[2 * q]);
                    assert(covers(out@[l2 + q], x));
                }
                if covered_in(out@, l2, l3, d as int, x) {
                    let w = choose|w: int| l2 <= w < l3 && (#[trigger] out@[w]).call_depth == d && covers(out@[w], x);
                    let q = w - l2;
                    assert(b@[2 * q] <= x < b@[2 * q + 1]);
                }
            }
            assert forall|x: u32| #[trigger] addr_set_contents(ranges).contains(x) <==> covered_in(out@, l0, l3, d as int, x) by {
                if patched.contains(x) {
                    assert(covered_in(kids, l0, l2, d as int, x));
                    lemma_covered_grow(kids, out@, l0, l2, l0, l3, d as int, x);
                }
                if addr_set_contents(missing).contains(x) {
                    assert(covered_in(out@, l2, l3, d as int, x));
                    lemma_covered_grow(out@, out@, l2, l3, l0, l3, d as int, x);
                }
                if covered_in(out@, l0, l3, d as int, x) {
                    let w = choose|w: int| l0 <= w < l3 && (#[trigger] out@[w]).call_depth == d && covers(out@[w], x);
                    if w < l2 {
                        assert(out@[w] == kids[w]);
                        assert(covered_in(kids, l0, l2, d as int, x));
                    } else {
                        assert(covered_in(out@, l2, l3, d as int, x));
                    }
                }
            }
            assert forall|x: u32| lined_in(out@, l0, l3, d as int, x) <==> lined_in(kids, l0, l2, d as int, x) by {
                if lined_in(out@, l0, l3, d as int, x) {
                    let w = choose|w: int| l0 <= w < l3 && (#[trigger] out@[w]).call_depth == d && out@[w].line is Some && covers(out@[w], x);
                    assert(w < l2);
                    assert(out@[w] == kids[w]);
                }
                if lined_in(kids, l0, l2, d as int, x) {
                    let w = choose|w: int| l0 <= w < l2 && (#[trigger] kids[w]).call_depth == d && kids[w].line is Some && covers(kids[w], x);
                    assert(out@[w] == kids[w]);
                }
            }
            assert forall|x: u32| #[trigger] covered_in(out@, l0, l3, d + 1, x) <==> covered_in(kids, l1, l2, d + 1, x) by {
                if covered_in(out@, l0, l3, d + 1, x) {
                    let w = choose|w: int| l0 <= w < l3 && (#[trigger] out@[w]).call_depth == d + 1 && covers(out@[w], x);
                    assert(w < l2);
                    assert(out@[w] == kids[w]);
                    if w < l1 {
                        assert(kids[w] == own[w]);
                    }
                }
                if covered_in(kids, l1, l2, d + 1, x) {
                    lemma_covered_grow(kids, out@, l1, l2, l0, l3, d + 1, x);
                }
            }
            assert forall|x: u32| #[trigger] patched_in(out@, l0, l3, d as int, x)
                <==> covered_in(out@, l0, l3, d + 1, x) && !lined_in(out@, l0, l3, d as int, x) by {
                if patched_in(out@, l0, l3, d as int, x) {
                    let w = choose|w: int| l0 <= w < l3 && (#[trigger] out@[w]).call_depth == d && out@[w].line is None && covers(out@[w], x);
                    if w < l2 {
                        assert(out@[w] == kids[w]);
                        if w < l1 {
                            assert(kids[w] == own[w]);
                        }
                    }
                    assert(covered_in(out@, l2, l3, d as int, x));
                    assert(addr_set_contents(missing).contains(x));
                    assert(addr_set_contents(callee).contains(x));
                    assert(!patched.contains(x));
                    assert(!covered_in(own, l0, l1, d as int, x));
                    assert(!lined_in(kids, l0, l2, d as int, x));
                    assert(covered_in(kids, l1, l2, d + 1, x));
                    assert(covered_in(out@, l0, l3, d + 1, x));
                }
                if covered_in(out@, l0, l3, d + 1, x) && !lined_in(out@, l0, l3, d as int, x) {
                    assert(covered_in(kids, l1, l2, d + 1, x));
                    assert(addr_set_contents(callee).contains(x));
                    assert(!lined_in(kids, l0, l2, d as int, x));
                    assert(!covered_in(own, l0, l1, d as int, x));
                    assert(!patched.contains(x));
                    assert(addr_set_contents(missing).contains(x));
                    let w = choose|w: int| l2 <= w < l3 && (#[trigger] out@[w]).call_depth == d && covers(out@[w], x);
                    assert(out@[w].line is None);
                }
            }
            assert forall|i: int, x: u32|
                l0 <= i < l3 && (#[trigger] out@[i]).line is None && #[trigger] covers(out@[i], x)
                    implies covered_in(out@, l0, l3, out@[i].call_depth + 1, x) by {
                if i >= l2 {
                    assert(covered_in(out@, l2, l3, d as int, x));
                    assert(addr_set_contents(missing).contains(x));
                    lemma_covered_grow(kids, out@, l1, l2, l0, l3, d + 1, x);
                } else {
                    assert(out@[i] == kids[i]);
                    if i < l1 {
                        assert(kids[i] == own[i]);
                    }
                    lemma_patches_grow(kids, out@, l1, l2, l0, l3);
                    assert(covers(kids[i], x));
                }
            }
            assert forall|i: int, j: int|
                l0 <= i < j < l3 && (#[trigger] out@[i]).call_depth == d && out@[i].line is None
                    && (#[trigger] out@[j]).call_depth == d && out@[j].line is None
                    implies out@[i].end_offset < out@[j].start_offset by {
                if i < l2 {
                    assert(out@[i] == kids[i]);
                    if i < l1 {
                        assert(kids[i] == own[i]);
                    }
                }
                if j < l2 {
                    assert(out@[j] == kids[j]);
                    if j < l1 {
                        assert(kids[j] == own[j]);
                    }
                }
                assert(b@[2 * (i - l2) + 1] < b@[2 * (j - l2)]);
            }
            assert forall|i: int, x: u32|
                l0 <= i < l3 && (#[trigger] out@[i]).call_depth > d && #[trigger] covers(out@[i], x)
                    implies covered_in(out@, l0, l3, out@[i].call_depth - 1, x) by {
                assert(i < l2);
                assert(out@[i] == kids[i]);
                assert(covers(kids[i], x));
                if kids[i].call_depth == d + 1 {
                    assert(covered_in(kids, l1, l2, d + 1, x));
                    assert(addr_set_contents(ranges).contains(x));
                } else {
                    assert(covered_in(kids, l1, l2, kids[i].call_depth - 1, x));
                    lemma_covered_grow(kids, out@, l1, l2, l0, l3, kids[i].call_depth - 1, x);
                }
            }
        }
    } else {
        proof {
            assert forall|x: u32| #[trigger] patched_in(out@, l0, l2, d as int, x)
                <==> covered_in(out@, l0, l2, d + 1, x) && !lined_in(out@, l0, l2, d as int, x) by {
                if patched_in(out@, l0, l2, d as int, x) {
                    let w = choose|w: int| l0 <= w < l2 && (#[trigger] out@[w]).call_depth == d && out@[w].line is None && covers(out@[w], x);
                    if w < l1 {
                        assert(out@[w] == own[w]);
                    }
                }
                if covered_in(out@, l0, l2, d + 1, x) {
                    let w = choose|w: int| l0 <= w < l2 && (#[trigger] out@[w]).call_depth == d + 1 && covers(out@[w], x);
                    if w < l1 {
                        assert(out@[w] == own[w]);
                    }
                    assert(covered_in(kids, l1, l2, d + 1, x));
                    assert(addr_set_contents(callee).contains(x));
                    assert(covered_in(own, l0, l1, d as int, x));
                    assert(lined_in(kids, l0, l2, d as int, x));
                }
            }
            assert forall|i: int, x: u32|
                l0 <= i < l2 && (#[trigger] out@[i]).line is None && #[trigger] covers(out@[i], x)
                    implies covered_in(out@, l0, l2, out@[i].call_depth + 1, x) by {
                if i < l1 {
                    assert(out@[i] == own[i]);
                }
                lemma_patches_grow(kids, out@, l1, l2, l0, l2);
            }
            assert forall|i: int, j: int|
                l0 <= i < j < l2 && (#[trigger] out@[i]).call_depth == d && out@[i].line is None
                    && (#[trigger] out@[j]).call_depth == d && out@[j].line is None
                    implies out@[i].end_offset < out@[j].start_offset by {
                if i < l1 {
                    assert(out@[i] == own[i]);
                }
            }
            assert forall|i: int| l0 <= i < l2 implies site_range(#[trigger] out@[i], *site, d as int)
                || from_visited(out@[i], symbols@, acc) by {
                if i < l1 {
                    assert(out@[i] == own[i]);
                }
            }
            assert forall|i: int, x: u32|
                l0 <= i < l2 && (#[trigger] out@[i]).call_depth > d && #[trigger] covers(out@[i], x)
                    implies covered_in(out@, l0, l2, out@[i].call_depth - 1, x) by {
                if out@[i].call_depth == d + 1 {
                    assert(covered_in(kids, l1, l2, d + 1, x));
                    assert(addr_set_contents(callee).contains(x));
                    assert(addr_set_contents(ranges).contains(x));
                } else {
                    assert(covered_in(kids, l1, l2, kids[i].call_depth - 1, x));
                    lemma_covered_grow(kids, out@, l1, l2, l0, l2, kids[i].call_depth - 1, x);
                }
            }
        }
    }
    proof {
        let lf = out@.len() as int;
        lemma_site_lines_grow(own, out@, l0, l1, l0, lf, *site, d as int);
        lemma_visited_lines_grow(kids, out@, l1, l2, l0, lf, symbols@, acc);
    }
    (cur, ranges)
}

/// Builds the inline table of the procedure whose record stands at
/// `proc_pos`: walks the records up to `end_symbol_index`, skipping nested
/// procedures, collects the ranges of every inline site at its call depth, and
/// sorts them by call depth, then start address. Every usable line record of
/// every site that the walk reaches stands in the table at its site's depth,
/// and every range of the table is such a record or a gap patch of a reached
/// site.
pub fn compute_procedure_inline_ranges(symbols: &Vec<SymbolRecord>, proc_pos: usize, end_symbol_index: u32) -> (r: Vec<InlineRange>)
    requires
        proc_pos < symbols@.len(),
    ensures
        is_inline_table(r@),
        visited_lines_in(r@, 0, r@.len() as int, symbols@, walk(symbols@, proc_pos + 1, end_symbol_index, 0).1),
        forall|i: int| 0 <= i < r@.len() ==> from_visited(#[trigger] r@[i], symbols@, walk(symbols@, proc_pos + 1, end_symbol_index, 0).1),
        patches_needed_in(r@, 0, r@.len() as int),
{
    let mut out: Vec<InlineRange> = Vec::new();
    let count = symbols.len();
    let mut cur = proc_pos + 1;
    let mut stop = false;
    let ghost whole = walk(symbols@, proc_pos + 1, end_symbol_index, 0);
    let ghost mut acc: Seq<(int, int)> = Seq::empty();
    assert(acc.add(whole.1) =~= whole.1);
    while !stop && cur < count
        invariant
            count == symbols@.len(),
            proc_pos < cur <= symbols@.len(),
            ranges_from(out@, 0, out@.len() as int, 0),
            nested_in(out@, 0, out@.len() as int, 0),
            whole == walk(symbols@, proc_pos + 1, end_symbol_index, 0),
            !stop ==> whole == (walk(symbols@, cur as int, end_symbol_index, 0).0, acc.add(walk(symbols@, cur as int, end_symbol_index, 0).1)),
            stop ==> whole == (cur as int, acc),
            visited_lines_in(out@, 0, out@.len() as int, symbols@, acc),
            forall|j: int| 0 <= j < out@.len() ==> from_visited(#[trigger] out@[j], symbols@, acc),
            patches_needed_in(out@, 0, out@.len() as int),
        decreases symbols@.len() - cur,
    {
        let ghost at = cur as int;
        let rec = &symbols[cur];
        cur = cur + 1;
        if rec.index() >= end_symbol_index {
            stop = true;
            proof {
                assert(acc.add(Seq::<(int, int)>::empty()) =~= acc);
            }
        } else {
            match rec {
                SymbolRecord::Procedure(p) => {
                    cur = skip_to(symbols, cur, p.end);
                },
                SymbolRecord::InlineSite(site) => {
                    let ghost before = out@;
                    let (next, _site_ranges) = process_inlinee_symbols(symbols, cur, site, 0, &mut out);
                    cur = next;
                    proof {
                        let lb = before.len() as int;
                        let la = out@.len() as int;
                        let inner = walk(symbols@, at + 1, site.end, 1);
                        let step = seq![(at, 0int)].add(inner.1);
                        assert(whole == (walk(symbols@, cur as int, end_symbol_index, 0).0,
                            acc.add(step).add(walk(symbols@, cur as int, end_symbol_index, 0).1))) by {
                            assert(acc.add(seq![(at, 0int)].add(inner.1).add(walk(symbols@, cur as int, end_symbol_index, 0).1))
                                =~= acc.add(step).add(walk(symbols@, cur as int, end_symbol_index, 0).1));
                        }
                        lemma_visited_lines_grow(before, out@, 0, lb, 0, la, symbols@, acc);
                        lemma_visited_lines_grow(out@, out@, lb, la, 0, la, symbols@, inner.1);
                        lemma_site_lines_grow(out@, out@, lb, la, 0, la, *site, 0);
                        let next_acc = acc.add(step);
                        assert forall|v: int| 0 <= v < next_acc.len() implies (symbols@[(#[trigger] next_acc[v]).0] matches SymbolRecord::InlineSite(st)
                            ==> site_lines_in(out@, 0, la, st, next_acc[v].1)) by {
                            if v < acc.len() {
                                assert(next_acc[v] == acc[v]);
                            } else if v == acc.len() {
                                assert(next_acc[v] == (at, 0int));
                                assert(symbols@[at] == SymbolRecord::InlineSite(*site));
                            } else {
                                assert(next_acc[v] == inner.1[v - acc.len() - 1]);
                            }
                        }
                        assert forall|j: int| 0 <= j < la implies from_visited(#[trigger] out@[j], symbols@, next_acc) by {
                            if j < lb {
                                assert(out@[j] == before[j]);
                                lemma_from_visited_extend(out@[j], symbols@, acc, step);
                            } else {
                                if site_range(out@[j], *site, 0) {
                                    assert(step[0] == (at, 0int));
                                    assert(symbols@[at] == SymbolRecord::InlineSite(*site));
                                    assert(from_visited(out@[j], symbols@, step));
                                } else {
                                    lemma_from_visited_shift(out@[j], symbols@, seq![(at, 0int)], inner.1);
                                }
                                lemma_from_visited_shift(out@[j], symbols@, acc, step);
                            }
                        }
                        acc = next_acc;
                        lemma_patches_grow(before, out@, 0, lb, 0, la);
                        lemma_patches_grow(out@, out@, lb, la, 0, la);
                        lemma_nested_grow(before, out@, 0, lb, 0, la, 0);
                        lemma_nested_grow(out@, out@, lb, la, 0, la, 0);
                        assert forall|i: int| 0 <= i < la implies (#[trigger] out@[i]).start_offset < out@[i].end_offset
                            && out@[i].call_depth >= 0 by {
                            if i < lb {
                                assert(out@[i] == before[i]);
                            }
                        }
                    }
                },
                _ => {},
            }
        }
    }
    proof {
        if !stop {
            assert(walk(symbols@, cur as int, end_symbol_index, 0) == (cur as int, Seq::<(int, int)>::empty()));
            assert(acc.add(Seq::<(int, int)>::empty()) =~= acc);
        }
    }
    let sorted = sort_by_key(&out);
    proof {
        let n = out@.len() as int;
        assert forall|i: int| 0 <= i < sorted@.len() implies from_visited(#[trigger] sorted@[i], symbols@, acc) by {
            assert(out@.contains(sorted@[i]));
        }
        assert forall|i: int, x: u32|
            0 <= i < sorted@.len() && (#[trigger] sorted@[i]).line is None && #[trigger] covers(sorted@[i], x)
                implies covered_in(sorted@, 0, sorted@.len() as int, sorted@[i].call_depth + 1, x) by {
            assert(out@.contains(sorted@[i]));
            let j = choose|j: int| 0 <= j < n && out@[j] == sorted@[i];
            assert(covers(out@[j], x));
            let w = choose|w: int| 0 <= w < n && (#[trigger] out@[w]).call_depth == out@[j].call_depth + 1 && covers(out@[w], x);
            assert(sorted@.contains(out@[w]));
            let v = choose|v: int| 0 <= v < sorted@.len() && sorted@[v] == out@[w];
            assert(covers(sorted@[v], x));
        }
        assert forall|v: int| 0 <= v < acc.len() implies (symbols@[(#[trigger] acc[v]).0] matches SymbolRecord::InlineSite(st)
            ==> site_lines_in(sorted@, 0, sorted@.len() as int, st, acc[v].1)) by {
            if let SymbolRecord::InlineSite(st) = symbols@[acc[v].0] {
                assert(site_lines_in(out@, 0, n, st, acc[v].1));
                assert forall|j: int| 0 <= j < st.lines@.len() && #[trigger] line_is_usable(st.lines@[j])
                    implies exists|i: int| 0 <= i < sorted@.len() && sorted@[i] == line_range(st, acc[v].1, st.lines@[j]) by {
                    let q = choose|q: int| 0 <= q < n && out@[q] == line_range(st, acc[v].1, st.lines@[j]);
                    assert(sorted@.contains(out@[q]));
                }
            }
        }
        assert forall|i: int, x: u32|
            0 <= i < sorted@.len() && (#[trigger] sorted@[i]).call_depth > 0 && #[trigger] covers(sorted@[i], x)
                implies covered_in(sorted@, 0, sorted@.len() as int, sorted@[i].call_depth - 1, x) by {
            assert(out@.contains(sorted@[i]));
            let j = choose|j: int| 0 <= j < n && out@[j] == sorted@[i];
            assert(covers(out@[j], x));
            let w = choose|w: int| 0 <= w < n && (#[trigger] out@[w]).call_depth == out@[j].call_depth - 1 && covers(out@[w], x);
            assert(sorted@.contains(out@[w]));
            let v = choose|v: int| 0 <= v < sorted@.len() && sorted@[v] == out@[w];
            assert(covers(sorted@[v], x));
        }
        assert forall|i: int| 0 <= i < sorted@.len() implies (#[trigger] sorted@[i]).start_offset < sorted@[i].end_offset
            && sorted@[i].call_depth >= 0 by {
            assert(out@.contains(sorted@[i]));
        }
    }
    sorted
}

} // verus!
