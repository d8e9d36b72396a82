use vstd::prelude::*;
use std::collections::HashMap;
use crate::contributions::{compute_section_contributions, contains_offset, is_partition, merge_state, merged, has_overlap, records_fit};
use crate::inline::{compute_procedure_inline_ranges, covers, from_visited, patches_needed_in, is_inline_table, visited_lines_in, walk};
use crate::sorting::sort_dedup_last;
use crate::records::{copy_text, InlineRange, LineEntry, SymbolRecord};
use crate::search::{find_last_le, key_le, last_le, sorted_by_key, strictly_sorted_by_key, Keyed};
use crate::sorting::{is_dedup_last, sort_by_key};
use crate::symbols::{build_public_index, compute_module_procedures, procedure_candidates, offset_key, ProcedureSymbolFunction, PublicSymbolFunction};
use crate::types::{Error, Frame, Function, FunctionFrames, ModuleSectionContribution, RawSectionContribution, SectionOffset};

verus! {

/// The outcome of a lookup. `NeedModule(k)` asks the caller to hand over the
/// records of module `k` (see `Context::load_module`) and to ask again.
pub enum Lookup<T> {
    Found(T),
    NotFound,
    NeedModule(u16),
}

/// What an address resolves to: a public symbol, or a procedure of a module
/// (module index, position in the module's procedure index).
#[derive(Clone, Copy, Debug, PartialEq, Eq, Structural)]
pub enum SymbolMatch {
    Public(usize),
    Procedure(u16, usize),
}

/// A module whose records were handed over, with its procedure index.
pub struct LoadedModule {
    symbols: Vec<SymbolRecord>,
    procedures: Vec<ProcedureSymbolFunction>,
}

/// Resolves addresses to functions, files, lines and inline stacks.
pub struct Context {
    section_contributions: Vec<ModuleSectionContribution>,
    public_functions: Vec<PublicSymbolFunction>,
    modules: Vec<Option<LoadedModule>>,
    /// Per module, the line records of its procedures, by procedure position.
    line_cache: Vec<HashMap<u64, Vec<LineEntry>>>,
    /// Per module, the inline tables of its procedures, by procedure position.
    inline_cache: Vec<HashMap<u64, Vec<InlineRange>>>,
    /// The sorted start addresses of all functions, once computed.
    full_rva_list: Option<Vec<u32>>,
}

/// The procedure covers the address.
pub open spec fn procedure_covers(p: ProcedureSymbolFunction, o: SectionOffset) -> bool {
    p.offset.section == o.section && p.offset.offset <= o.offset && o.offset < p.offset.offset + p.len
}

/// The contribution that holds the address: the last one that starts at or
/// before it, if it also ends after it.
pub open spec fn contribution_at(s: Seq<ModuleSectionContribution>, o: SectionOffset) -> Option<int> {
    match last_le(s, offset_key(o)) {
        Some(i) => if contains_offset(s[i], o.section, o.offset) { Some(i) } else { None },
        None => None,
    }
}

/// `i` is the last procedure (the one that starts latest) that covers the
/// address.
pub open spec fn is_last_cover(s: Seq<ProcedureSymbolFunction>, o: SectionOffset, i: int) -> bool {
    &&& 0 <= i < s.len()
    &&& procedure_covers(s[i], o)
    &&& forall|j: int| i < j < s.len() ==> !procedure_covers(#[trigger] s[j], o)
}

/// The procedure that holds the address, if any covers it: of those that do,
/// the one that starts latest, which is the innermost where they nest.
pub open spec fn procedure_at(s: Seq<ProcedureSymbolFunction>, o: SectionOffset) -> Option<int> {
    if exists|i: int| 0 <= i < s.len() && procedure_covers(#[trigger] s[i], o) {
        Some(choose|i: int| is_last_cover(s, o, i))
    } else {
        None
    }
}

proof fn lemma_cover_max(s: Seq<ProcedureSymbolFunction>, o: SectionOffset, j: int)
    requires
        0 <= j < s.len(),
        procedure_covers(s[j], o),
    ensures
        exists|i: int| is_last_cover(s, o, i),
    decreases s.len() - j,
{
    if exists|t: int| j < t < s.len() && procedure_covers(#[trigger] s[t], o) {
        let t = choose|t: int| j < t < s.len() && procedure_covers(#[trigger] s[t], o);
        lemma_cover_max(s, o, t);
    } else {
        assert(is_last_cover(s, o, j));
    }
}

/// `procedure_at` names the last covering procedure, and none where no
/// procedure covers the address.
pub proof fn lemma_procedure_at_sound(s: Seq<ProcedureSymbolFunction>, o: SectionOffset)
    ensures
        procedure_at(s, o) matches Some(i) ==> is_last_cover(s, o, i),
        procedure_at(s, o) is None ==> forall|j: int| 0 <= j < s.len() ==> !procedure_covers(#[trigger] s[j], o),
{
    if exists|i: int| 0 <= i < s.len() && procedure_covers(#[trigger] s[i], o) {
        let j = choose|i: int| 0 <= i < s.len() && procedure_covers(#[trigger] s[i], o);
        lemma_cover_max(s, o, j);
    }
}

/// Finds the procedure that holds the address: a binary search for the last
/// one that starts at or before it, then a walk back over the earlier ones of
/// the same section until one covers it.
fn find_procedure(v: &Vec<ProcedureSymbolFunction>, o: SectionOffset) -> (r: Option<usize>)
    requires
        sorted_by_key(v@),
    ensures
        r matches Some(i) ==> i < v@.len() && procedure_at(v@, o) == Some(i as int),
        r is None ==> procedure_at(v@, o) is None,
{
    proof {
        lemma_procedure_at_sound(v@, o);
    }
    let i = match find_last_le(v, (o.section as u32, o.offset)) {
        Some(i) => i,
        None => {
            proof {
                assert forall|t: int| 0 <= t < v@.len() implies !procedure_covers(#[trigger] v@[t], o) by {
                    assert(!key_le(v@[t].key(), offset_key(o)));
                }
            }
            return None;
        },
    };
    proof {
        crate::search::lemma_last_le_sound(v@, offset_key(o));
        assert forall|t: int| i < t < v@.len() implies !procedure_covers(#[trigger] v@[t], o) by {
            assert(!key_le(v@[t].key(), offset_key(o)));
        }
    }
    let mut j: usize = i;
    loop
        invariant
            j <= i,
            i < v@.len(),
            sorted_by_key(v@),
            key_le(v@[i as int].key(), offset_key(o)),
            forall|t: int| j < t < v@.len() ==> !procedure_covers(#[trigger] v@[t], o),
        decreases j,
    {
        let p = &v[j];
        if p.offset.section == o.section && p.offset.offset <= o.offset
            && (o.offset as u64) < p.offset.offset as u64 + p.len as u64 {
            proof {
                assert(is_last_cover(v@, o, j as int));
                let c = procedure_at(v@, o).unwrap();
                assert(c == j as int);
            }
            return Some(j);
        }
        if p.offset.section != o.section || j == 0 {
            proof {
                if j < i {
                    assert(key_le(v@[j as int].key(), v@[i as int].key()));
                }
                assert forall|t: int| 0 <= t < v@.len() implies !procedure_covers(#[trigger] v@[t], o) by {
                    if t < j {
                        assert(key_le(v@[t].key(), v@[j as int].key()));
                    }
                }
            }
            return None;
        }
        j = j - 1;
    }
}

/// The public symbol that an address falls back to: the last one that starts
/// at or before it, in the same section.
pub open spec fn public_before(s: Seq<PublicSymbolFunction>, o: SectionOffset) -> Option<int> {
    match last_le(s, offset_key(o)) {
        Some(i) => if s[i].start_offset.section == o.section { Some(i) } else { None },
        None => None,
    }
}

impl LoadedModule {
    pub closed spec fn spec_procedures(&self) -> Seq<ProcedureSymbolFunction> {
        self.procedures@
    }

    pub closed spec fn spec_symbols(&self) -> Seq<SymbolRecord> {
        self.symbols@
    }
}

impl Context {
    pub closed spec fn contributions(&self) -> Seq<ModuleSectionContribution> {
        self.section_contributions@
    }

    pub closed spec fn publics(&self) -> Seq<PublicSymbolFunction> {
        self.public_functions@
    }

    pub closed spec fn module_slots(&self) -> Seq<Option<LoadedModule>> {
        self.modules@
    }

    /// The line records kept for procedure `i` of module `k`, if any.
    pub closed spec fn line_table(&self, k: u16, i: usize) -> Option<Seq<LineEntry>> {
        if (k as int) < self.line_cache@.len() && self.line_cache@[k as int]@.contains_key(i as u64) {
            Some(self.line_cache@[k as int]@[i as u64]@)
        } else {
            None
        }
    }

    /// The inline table kept for procedure `i` of module `k`, if any.
    pub closed spec fn inline_table(&self, k: u16, i: usize) -> Option<Seq<InlineRange>> {
        if (k as int) < self.inline_cache@.len() && self.inline_cache@[k as int]@.contains_key(i as u64) {
            Some(self.inline_cache@[k as int]@[i as u64]@)
        } else {
            None
        }
    }

    /// The invariant of the resolver.
    pub closed spec fn wf(&self) -> bool {
        &&& is_partition(self.section_contributions@)
        &&& strictly_sorted_by_key(self.public_functions@)
        &&& sorted_by_key(self.public_functions@)
        &&& self.modules@.len() <= 0x1_0000
        &&& forall|k: int| 0 <= k < self.modules@.len() ==> match #[trigger] self.modules@[k] {
            Some(m) => module_wf(m, self.public_functions@),
            None => true,
        }
        &&& self.line_cache@.len() == self.modules@.len()
        &&& self.inline_cache@.len() == self.modules@.len()
        &&& forall|k: int, key: u64| 0 <= k < self.modules@.len() && #[trigger] self.inline_cache@[k]@.contains_key(key)
            ==> built_for(self.modules@, k, key as int)
                && table_of_procedure(self.modules@[k].unwrap(), key as int, self.inline_cache@[k]@[key]@)
        &&& forall|k: int, key: u64| 0 <= k < self.modules@.len() && #[trigger] self.line_cache@[k]@.contains_key(key)
            ==> built_for(self.modules@, k, key as int)
                && lines_of_procedure(self.modules@[k].unwrap(), key as int, self.line_cache@[k]@[key]@)
        &&& self.full_rva_list matches Some(v) ==> all_loaded(self) && is_rva_list(self, v@)
    }

    pub closed spec fn spec_full_rva_list(&self) -> Option<Vec<u32>> {
        self.full_rva_list
    }

    /// The cascade: address, then contribution, then the owning module's
    /// procedures, then the public symbols.
    pub open spec fn lookup_spec(&self, o: Option<SectionOffset>) -> Lookup<SymbolMatch> {
        match o {
            None => Lookup::NotFound,
            Some(o) => match contribution_at(self.contributions(), o) {
                None => Lookup::NotFound,
                Some(c) => {
                    let k = self.contributions()[c].module_index;
                    if k >= self.module_slots().len() {
                        Lookup::NotFound
                    } else {
                        match self.module_slots()[k as int] {
                            None => Lookup::NeedModule(k),
                            Some(m) => match procedure_at(m.spec_procedures(), o) {
                                Some(i) => Lookup::Found(SymbolMatch::Procedure(k, i as usize)),
                                None => match public_before(self.publics(), o) {
                                    Some(j) => Lookup::Found(SymbolMatch::Public(j as usize)),
                                    None => Lookup::NotFound,
                                },
                            },
                        }
                    }
                },
            },
        }
    }

    /// The procedure that a match names.
    pub open spec fn procedure_of(&self, k: u16, i: usize) -> ProcedureSymbolFunction {
        self.module_slots()[k as int].unwrap().spec_procedures()[i as int]
    }
}

/// Every module was handed over.
pub open spec fn all_loaded(c: &Context) -> bool {
    forall|k: int| 0 <= k < c.module_slots().len() ==> #[trigger] c.module_slots()[k] is Some
}

/// `x` is where a public symbol, or a procedure or thunk of a loaded module,
/// starts.
pub open spec fn is_start_rva(c: &Context, x: u32) -> bool {
    ||| exists|j: int| 0 <= j < c.publics().len() && #[trigger] c.publics()[j].start_rva == Some(x)
    ||| exists|k: int, i: int| 0 <= k < c.module_slots().len() && #[trigger] c.module_slots()[k] is Some
        && 0 <= i < c.module_slots()[k].unwrap().spec_procedures().len()
        && #[trigger] c.module_slots()[k].unwrap().spec_procedures()[i].start_rva == Some(x)
}

/// The start addresses of all functions, each once, ascending.
pub open spec fn is_rva_list(c: &Context, v: Seq<u32>) -> bool {
    &&& forall|i: int, j: int| 0 <= i < j < v.len() ==> #[trigger] v[i] < #[trigger] v[j]
    &&& forall|x: u32| #[trigger] v.contains(x) <==> is_start_rva(c, x)
}

/// Module `k` is loaded and has a procedure at position `i`.
pub open spec fn built_for(slots: Seq<Option<LoadedModule>>, k: int, i: int) -> bool {
    &&& 0 <= k < slots.len()
    &&& slots[k] is Some
    &&& 0 <= i < slots[k].unwrap().spec_procedures().len()
}

/// `t` is the inline table of procedure `i` of the module: sorted, nested,
/// holding every usable line record of every inline site that the walk over
/// the procedure's records reaches, and nothing that does not belong to one
/// of those sites.
pub open spec fn table_of_procedure(m: LoadedModule, i: int, t: Seq<InlineRange>) -> bool {
    let p = m.spec_procedures()[i];
    let visited = walk(m.spec_symbols(), p.symbol_position + 1, p.end_symbol_index, 0).1;
    &&& is_inline_table(t)
    &&& visited_lines_in(t, 0, t.len() as int, m.spec_symbols(), visited)
    &&& forall|q: int| 0 <= q < t.len() ==> from_visited(#[trigger] t[q], m.spec_symbols(), visited)
    &&& patches_needed_in(t, 0, t.len() as int)
}

/// `l` holds the line records of procedure `i` of the module, sorted by
/// address.
pub open spec fn lines_of_procedure(m: LoadedModule, i: int, l: Seq<LineEntry>) -> bool {
    let p = m.spec_procedures()[i];
    &&& match m.spec_symbols()[p.symbol_position as int] {
        SymbolRecord::Procedure(r) => ordered_from(l, r.lines@),
        SymbolRecord::Thunk(r) => ordered_from(l, r.lines@),
        _ => l.len() == 0,
    }
}

/// `l` is the records `src` in ascending address order: `src` itself where it
/// is already in that order.
pub open spec fn ordered_from(l: Seq<LineEntry>, src: Seq<LineEntry>) -> bool {
    &&& sorted_by_key(l)
    &&& same_items(l, src)
    &&& sorted_by_key(src) ==> l == src
}

fn copy_lines(src: &Vec<LineEntry>) -> (r: Vec<LineEntry>)
    ensures
        r@ == src@,
{
    let mut r: Vec<LineEntry> = Vec::new();
    let mut q: usize = 0;
    while q < src.len()
        invariant
            0 <= q <= src@.len(),
            r@ == src@.subrange(0, q as int),
        decreases src@.len() - q,
    {
        r.push(src[q].duplicate());
        q = q + 1;
        assert(r@ =~= src@.subrange(0, q as int));
    }
    assert(src@.subrange(0, src@.len() as int) =~= src@);
    r
}

/// The line records in ascending address order; records that are already in
/// that order are kept as they are.
fn ordered_lines(src: &Vec<LineEntry>) -> (r: Vec<LineEntry>)
    ensures
        ordered_from(r@, src@),
{
    let mut sorted = true;
    let mut q: usize = 1;
    while q < src.len()
        invariant
            1 <= q,
            sorted ==> forall|a: int, b: int| 0 <= a < b < q && b < src@.len() ==> key_le(#[trigger] src@[a].key(), #[trigger] src@[b].key()),
            q <= src@.len() || src@.len() <= 1,
            !sorted ==> !sorted_by_key(src@),
        decreases src@.len() - q,
    {
        if src[q].start_rva < src[q - 1].start_rva {
            sorted = false;
            proof {
                assert(!key_le(src@[q - 1].key(), src@[q as int].key()));
            }
        } else {
            proof {
                if sorted {
                    assert forall|a: int, b: int| 0 <= a < b < q + 1 && b < src@.len() implies key_le(#[trigger] src@[a].key(), #[trigger] src@[b].key()) by {
                        if b == q && a < q - 1 {
                            assert(key_le(src@[a].key(), src@[q - 1].key()));
                        }
                    }
                }
            }
        }
        q = q + 1;
    }
    if sorted {
        copy_lines(src)
    } else {
        sort_by_key(src)
    }
}

/// The two sequences hold the same items, each as often.
pub open spec fn same_items<T>(a: Seq<T>, b: Seq<T>) -> bool {
    a.to_multiset() == b.to_multiset()
}

pub closed spec fn module_wf(m: LoadedModule, publics: Seq<PublicSymbolFunction>) -> bool {
    &&& is_dedup_last(m.procedures@, procedure_candidates(m.symbols@, publics))
    &&& forall|i: int| 0 <= i < m.procedures@.len() ==> (#[trigger] m.procedures@[i]).symbol_position < m.symbols@.len()
    &&& m.procedures@.len() <= usize::MAX
}

proof fn lemma_candidate_positions(s: Seq<SymbolRecord>, publics: Seq<PublicSymbolFunction>)
    ensures
        forall|i: int| 0 <= i < procedure_candidates(s, publics).len()
            ==> (#[trigger] procedure_candidates(s, publics)[i]).symbol_position < s.len(),
    decreases s.len(),
{
    if s.len() > 0 {
        lemma_candidate_positions(s.drop_last(), publics);
    }
}

pub open spec fn frame_of(r: InlineRange) -> Frame {
    Frame { function: r.name, file: r.file, line: r.line }
}

/// The range is at call depth `d` and contains `probe`.
pub open spec fn holds_at(r: InlineRange, d: int, probe: u32) -> bool {
    r.call_depth == d && covers(r, probe)
}

/// `i` is the last range of the table at depth `d` that contains `probe`.
pub open spec fn is_last_inline(t: Seq<InlineRange>, d: int, probe: u32, i: int) -> bool {
    &&& 0 <= i < t.len()
    &&& holds_at(t[i], d, probe)
    &&& forall|j: int| i < j < t.len() ==> !holds_at(#[trigger] t[j], d, probe)
}

/// The range of the inline table that holds `probe` at call depth `d`, if
/// any does: of those, the one that starts latest.
pub open spec fn inline_match(t: Seq<InlineRange>, d: int, probe: u32) -> Option<int> {
    if exists|i: int| 0 <= i < t.len() && holds_at(#[trigger] t[i], d, probe) {
        Some(choose|i: int| is_last_inline(t, d, probe, i))
    } else {
        None
    }
}

proof fn lemma_inline_max(t: Seq<InlineRange>, d: int, probe: u32, j: int)
    requires
        0 <= j < t.len(),
        holds_at(t[j], d, probe),
    ensures
        exists|i: int| is_last_inline(t, d, probe, i),
    decreases t.len() - j,
{
    if exists|q: int| j < q < t.len() && holds_at(#[trigger] t[q], d, probe) {
        let q = choose|q: int| j < q < t.len() && holds_at(#[trigger] t[q], d, probe);
        lemma_inline_max(t, d, probe, q);
    } else {
        assert(is_last_inline(t, d, probe, j));
    }
}

/// `inline_match` names the last range at depth `d` that contains `probe`,
/// and none where no range at that depth contains it.
pub proof fn lemma_inline_match_sound(t: Seq<InlineRange>, d: int, probe: u32)
    ensures
        inline_match(t, d, probe) matches Some(i) ==> is_last_inline(t, d, probe, i),
        inline_match(t, d, probe) is None ==> forall|j: int| 0 <= j < t.len() ==> !holds_at(#[trigger] t[j], d, probe),
{
    if exists|i: int| 0 <= i < t.len() && holds_at(#[trigger] t[i], d, probe) {
        let j = choose|i: int| 0 <= i < t.len() && holds_at(#[trigger] t[i], d, probe);
        lemma_inline_max(t, d, probe, j);
    }
}

/// Finds the range at depth `d` that contains `probe`: a binary search for the
/// last one at or before (d, probe), then a walk back over the earlier ranges
/// of that depth until one contains it.
fn find_inline(t: &Vec<InlineRange>, d: u32, probe: u32) -> (r: Option<usize>)
    requires
        sorted_by_key(t@),
    ensures
        r matches Some(i) ==> i < t@.len() && inline_match(t@, d as int, probe) == Some(i as int),
        r is None ==> inline_match(t@, d as int, probe) is None,
{
    proof {
        lemma_inline_match_sound(t@, d as int, probe);
    }
    let i = match find_last_le(t, (d, probe)) {
        Some(i) => i,
        None => {
            proof {
                assert forall|q: int| 0 <= q < t@.len() implies !holds_at(#[trigger] t@[q], d as int, probe) by {
                    assert(!key_le(t@[q].key(), (d, probe)));
                }
            }
            return None;
        },
    };
    proof {
        crate::search::lemma_last_le_sound(t@, (d, probe));
        assert forall|q: int| i < q < t@.len() implies !holds_at(#[trigger] t@[q], d as int, probe) by {
            assert(!key_le(t@[q].key(), (d, probe)));
        }
    }
    let mut j: usize = i;
    loop
        invariant
            j <= i,
            i < t@.len(),
            sorted_by_key(t@),
            key_le(t@[i as int].key(), (d, probe)),
            forall|q: int| j < q < t@.len() ==> !holds_at(#[trigger] t@[q], d as int, probe),
        decreases j,
    {
        let r = &t[j];
        if r.call_depth as u32 == d && r.start_offset <= probe && probe < r.end_offset {
            proof {
                assert(is_last_inline(t@, d as int, probe, j as int));
                let c = inline_match(t@, d as int, probe).unwrap();
                assert(c == j as int);
            }
            return Some(j);
        }
        if r.call_depth as u32 != d || j == 0 {
            proof {
                if j < i {
                    assert(key_le(t@[j as int].key(), t@[i as int].key()));
                }
                assert forall|q: int| 0 <= q < t@.len() implies !holds_at(#[trigger] t@[q], d as int, probe) by {
                    if q < j {
                        assert(key_le(t@[q].key(), t@[j as int].key()));
                    }
                }
            }
            return None;
        }
        j = j - 1;
    }
}

/// The inline frames at `probe` from depth `d` inward, outermost first,
/// up to the first depth with no range.
pub open spec fn inline_frames(t: Seq<InlineRange>, d: int, probe: u32) -> Seq<Frame>
    decreases 0x1_0000 - d,
{
    if d < 0 || d >= 0x1_0000 {
        Seq::empty()
    } else {
        match inline_match(t, d, probe) {
            Some(i) => seq![frame_of(t[i])].add(inline_frames(t, d + 1, probe)),
            None => Seq::empty(),
        }
    }
}

/// The frame of the procedure itself: its name, and the line record in force
/// at `probe`, the last one that starts at or before it.
pub open spec fn outer_frame(name: Option<String>, lines: Seq<LineEntry>, probe: u32) -> Frame {
    match last_le(lines, (0, probe)) {
        Some(i) => Frame { function: name, file: lines[i].file, line: Some(lines[i].line) },
        None => Frame { function: name, file: None, line: None },
    }
}

/// The frames at `probe` inside a procedure, innermost first: the inline
/// frames, then the procedure's own frame.
pub open spec fn procedure_frames(name: Option<String>, lines: Seq<LineEntry>, t: Seq<InlineRange>, probe: u32) -> Seq<Frame> {
    seq![outer_frame(name, lines, probe)].add(inline_frames(t, 0, probe)).reverse()
}

fn copy_frame(f: &Frame) -> (r: Frame)
    ensures
        r == *f,
{
    Frame { function: copy_text(&f.function), file: copy_text(&f.file), line: f.line }
}

/// Walks the inline table from depth 0 inward and returns the frames,
/// innermost first, ending with `outer`.
fn assemble_frames(outer: Frame, t: &Vec<InlineRange>, probe: u32) -> (r: Vec<Frame>)
    requires
        sorted_by_key(t@),
    ensures
        r@ == seq![outer].add(inline_frames(t@, 0, probe)).reverse(),
{
    let ghost all = seq![outer].add(inline_frames(t@, 0, probe));
    let mut outward: Vec<Frame> = Vec::new();
    outward.push(outer);
    let mut d: u32 = 0;
    let mut done = false;
    assert(outward@ == seq![outer]);
    while !done && d < 0x1_0000
        invariant
            d <= 0x1_0000,
            sorted_by_key(t@),
            all == seq![outer].add(inline_frames(t@, 0, probe)),
            !done ==> all == outward@.add(inline_frames(t@, d as int, probe)),
            done ==> all == outward@,
        decreases 2 * (0x1_0000 - d) + if done { 0int } else { 1int },
    {
        let found = find_inline(t, d, probe);
        match found {
            Some(i) => {
                let ghost before = outward@;
                let f = Frame { function: copy_text(&t[i].name), file: copy_text(&t[i].file), line: t[i].line };
                outward.push(f);
                proof {
                    assert(inline_match(t@, d as int, probe) == Some(i as int));
                    assert(outward@ == before.push(frame_of(t@[i as int])));
                    assert(before.add(inline_frames(t@, d as int, probe)) =~= outward@.add(inline_frames(t@, d + 1, probe)));
                }
                d = d + 1;
            },
            None => {
                proof {
                    assert(inline_match(t@, d as int, probe) is None);
                    assert(outward@.add(inline_frames(t@, d as int, probe)) =~= outward@);
                }
                done = true;
            },
        }
    }
    proof {
        if !done {
            assert(outward@.add(inline_frames(t@, d as int, probe)) =~= outward@);
        }
    }
    let n = outward.len();
    let mut frames: Vec<Frame> = Vec::new();
    let mut j: usize = 0;
    while j < n
        invariant
            n == outward@.len(),
            all == outward@,
            0 <= j <= n,
            frames@.len() == j,
            forall|q: int| 0 <= q < j ==> #[trigger] frames@[q] == outward@[n - 1 - q],
        decreases n - j,
    {
        let f = copy_frame(&outward[n - 1 - j]);
        frames.push(f);
        j = j + 1;
    }
    assert(frames@ =~= all.reverse());
    frames
}

proof fn lemma_strict_sorted<T: Keyed>(s: Seq<T>)
    requires
        strictly_sorted_by_key(s),
    ensures
        sorted_by_key(s),
{
    assert forall|i: int, j: int| 0 <= i < j < s.len() implies key_le(#[trigger] s[i].key(), #[trigger] s[j].key()) by {
        assert(crate::search::key_lt(s[i].key(), s[j].key()));
    }
}

/// The function that a lookup found, as `find_function` reports it.
pub open spec fn function_of(c: &Context, m: SymbolMatch) -> Option<Function> {
    match m {
        SymbolMatch::Public(j) => {
            let p = c.publics()[j as int];
            match p.start_rva {
                Some(s) => Some(Function { start_rva: s, end_rva: None, name: Some(p.name) }),
                None => None,
            }
        },
        SymbolMatch::Procedure(k, i) => {
            let p = c.procedure_of(k, i);
            match p.start_rva {
                Some(s) => if s + p.len <= u32::MAX {
                    Some(Function { start_rva: s, end_rva: Some((s + p.len) as u32), name: p.name })
                } else {
                    None
                },
                None => None,
            }
        },
    }
}

impl Context {
    /// Builds a resolver from the raw section contributions, the public
    /// function symbols and the number of modules. No module is loaded yet.
    pub fn new(contributions: &Vec<RawSectionContribution>, public_symbols: &Vec<PublicSymbolFunction>, module_count: u16) -> (r: Result<Context, Error>)
        requires
            records_fit(contributions@),
        ensures
            match r {
                Ok(c) => {
                    &&& c.wf()
                    &&& merge_state(contributions@).error is None
                    &&& !has_overlap(merged(contributions@))
                    &&& c.contributions().len() == merged(contributions@).len()
                    &&& forall|x: ModuleSectionContribution| c.contributions().contains(x) <==> merged(contributions@).contains(x)
                    &&& is_dedup_last(c.publics(), public_symbols@)
                    &&& c.module_slots().len() == module_count
                    &&& forall|k: int| 0 <= k < module_count ==> #[trigger] c.module_slots()[k] is None
                },
                Err(Error::UnorderedSectionContributions(m, s)) => merge_state(contributions@).error == Some((m, s)),
                Err(Error::OverlappingSectionContributions(_, _, _)) => merge_state(contributions@).error is None
                    && has_overlap(merged(contributions@)),
            },
    {
        broadcast use vstd::std_specs::hash::group_hash_axioms;
        let section_contributions = match compute_section_contributions(contributions) {
            Ok(v) => v,
            Err(e) => {
                return Err(e);
            },
        };
        let public_functions = build_public_index(public_symbols);
        proof {
            lemma_strict_sorted(public_functions@);
        }
        let mut modules: Vec<Option<LoadedModule>> = Vec::new();
        let mut line_cache: Vec<HashMap<u64, Vec<LineEntry>>> = Vec::new();
        let mut inline_cache: Vec<HashMap<u64, Vec<InlineRange>>> = Vec::new();
        let mut k: u32 = 0;
        while k < module_count as u32
            invariant
                k <= module_count,
                modules@.len() == k,
                line_cache@.len() == k,
                inline_cache@.len() == k,
                forall|q: int| 0 <= q < k ==> #[trigger] modules@[q] is None,
                forall|q: int| 0 <= q < k ==> #[trigger] line_cache@[q]@ == Map::<u64, Vec<LineEntry>>::empty(),
                forall|q: int| 0 <= q < k ==> #[trigger] inline_cache@[q]@ == Map::<u64, Vec<InlineRange>>::empty(),
            decreases module_count - k,
        {
            modules.push(None);
            line_cache.push(HashMap::new());
            inline_cache.push(HashMap::new());
            k = k + 1;
        }
        Ok(Context {
            section_contributions,
            public_functions,
            modules,
            line_cache,
            inline_cache,
            full_rva_list: None,
        })
    }

    /// Whether module `k` was handed over.
    pub fn is_module_loaded(&self, k: u16) -> (r: bool)
        ensures
            r == ((k as int) < self.module_slots().len() && self.module_slots()[k as int] is Some),
    {
        (k as usize) < self.modules.len() && self.modules[k as usize].is_some()
    }

    /// Hands over the records of module `k` and builds its procedure index.
    /// A module that is already loaded, or an index past the module list,
    /// leaves the resolver as it is.
    pub fn load_module(&mut self, k: u16, symbols: Vec<SymbolRecord>)
        requires
            old(self).wf(),
        ensures
            final(self).wf(),
            final(self).contributions() == old(self).contributions(),
            final(self).publics() == old(self).publics(),
            forall|q: u16, i: usize| #[trigger] final(self).line_table(q, i) == old(self).line_table(q, i),
            forall|q: u16, i: usize| #[trigger] final(self).inline_table(q, i) == old(self).inline_table(q, i),
            final(self).module_slots().len() == old(self).module_slots().len(),
            forall|q: int| 0 <= q < old(self).module_slots().len() && q != k
                ==> #[trigger] final(self).module_slots()[q] == old(self).module_slots()[q],
            (k as int) < old(self).module_slots().len() && old(self).module_slots()[k as int] is Some
                ==> final(self).module_slots()[k as int] == old(self).module_slots()[k as int],
            (k as int) < old(self).module_slots().len() && old(self).module_slots()[k as int] is None ==> {
                &&& final(self).module_slots()[k as int] matches Some(m)
                &&& m.spec_symbols() == symbols@
                &&& is_dedup_last(m.spec_procedures(), procedure_candidates(symbols@, old(self).publics()))
            },
    {
        let ghost s0 = *self;
        if (k as usize) < self.modules.len() && self.modules[k as usize].is_none() {
            let procedures = compute_module_procedures(&symbols, &self.public_functions);
            proof {
                lemma_candidate_positions(symbols@, self.public_functions@);
                assert forall|i: int| 0 <= i < procedures@.len() implies (#[trigger] procedures@[i]).symbol_position < symbols@.len() by {
                    let c = procedure_candidates(symbols@, self.public_functions@);
                    assert(crate::sorting::kept_from(c, procedures@[i]));
                }
            }
            let m = LoadedModule { symbols, procedures };
            self.modules.set(k as usize, Some(m));
            proof {
                assert forall|q: int, key: u64| 0 <= q < self.modules@.len() && #[trigger] self.inline_cache@[q]@.contains_key(key)
                    implies built_for(self.modules@, q, key as int)
                        && table_of_procedure(self.modules@[q].unwrap(), key as int, self.inline_cache@[q]@[key]@) by {
                    assert(s0.modules@[q] is Some);
                    assert(q != k);
                }
                assert forall|q: int, key: u64| 0 <= q < self.modules@.len() && #[trigger] self.line_cache@[q]@.contains_key(key)
                    implies built_for(self.modules@, q, key as int)
                        && lines_of_procedure(self.modules@[q].unwrap(), key as int, self.line_cache@[q]@[key]@) by {
                    assert(s0.modules@[q] is Some);
                    assert(q != k);
                }
            }
        }
    }

    /// The number of functions in the public symbols.
    pub fn function_count(&self) -> (r: usize)
        ensures
            r == self.publics().len(),
    {
        self.public_functions.len()
    }

    /// Runs the cascade for an address given as (section, offset); `None`
    /// stands for an address that did not translate.
    pub fn lookup_function(&self, o: Option<SectionOffset>) -> (r: Lookup<SymbolMatch>)
        requires
            self.wf(),
        ensures
            r == self.lookup_spec(o),
            r matches Lookup::Found(SymbolMatch::Public(j)) ==> j < self.publics().len(),
            r matches Lookup::Found(SymbolMatch::Procedure(k, i)) ==> (k as int) < self.module_slots().len()
                && self.module_slots()[k as int] is Some
                && i < self.module_slots()[k as int].unwrap().spec_procedures().len(),
    {
        let o = match o {
            Some(o) => o,
            None => {
                return Lookup::NotFound;
            },
        };
        proof {
            lemma_strict_sorted(self.section_contributions@);
        }
        let c = match find_last_le(&self.section_contributions, (o.section as u32, o.offset)) {
            Some(c) => c,
            None => {
                return Lookup::NotFound;
            },
        };
        let sc = self.section_contributions[c];
        if !(sc.section_index == o.section && sc.start_offset <= o.offset && o.offset < sc.end_offset) {
            return Lookup::NotFound;
        }
        let k = sc.module_index;
        if k as usize >= self.modules.len() {
            return Lookup::NotFound;
        }
        let m = match &self.modules[k as usize] {
            Some(m) => m,
            None => {
                return Lookup::NeedModule(k);
            },
        };
        proof {
            assert(module_wf(*m, self.public_functions@));
            lemma_strict_sorted(m.procedures@);
        }
        if let Some(i) = find_procedure(&m.procedures, o) {
            return Lookup::Found(SymbolMatch::Procedure(k, i));
        }
        match find_last_le(&self.public_functions, (o.section as u32, o.offset)) {
            Some(j) => if self.public_functions[j].start_offset.section == o.section {
                Lookup::Found(SymbolMatch::Public(j))
            } else {
                Lookup::NotFound
            },
            None => Lookup::NotFound,
        }
    }

    /// Finds the function that holds an address: its bounds and name, without
    /// file or line. A public symbol has no known end. A function whose start
    /// does not translate, or whose end would pass the 32-bit address space,
    /// is not reported.
    pub fn find_function(&self, o: Option<SectionOffset>) -> (r: Lookup<Function>)
        requires
            self.wf(),
        ensures
            match self.lookup_spec(o) {
                Lookup::Found(m) => match function_of(self, m) {
                    Some(f) => r == Lookup::Found(f),
                    None => r is NotFound,
                },
                Lookup::NotFound => r is NotFound,
                Lookup::NeedModule(k) => r == Lookup::<Function>::NeedModule(k),
            },
    {
        match self.lookup_function(o) {
            Lookup::NotFound => Lookup::NotFound,
            Lookup::NeedModule(k) => Lookup::NeedModule(k),
            Lookup::Found(m) => match self.function_for(m) {
                Some(f) => Lookup::Found(f),
                None => Lookup::NotFound,
            },
        }
    }

    fn function_for(&self, m: SymbolMatch) -> (r: Option<Function>)
        requires
            self.wf(),
            m matches SymbolMatch::Public(j) ==> j < self.publics().len(),
            m matches SymbolMatch::Procedure(k, i) ==> (k as int) < self.module_slots().len()
                && self.module_slots()[k as int] is Some
                && i < self.module_slots()[k as int].unwrap().spec_procedures().len(),
        ensures
            r == function_of(self, m),
    {
        match m {
            SymbolMatch::Public(j) => {
                let p = &self.public_functions[j];
                match p.start_rva {
                    Some(s) => Some(Function { start_rva: s, end_rva: None, name: Some(p.name.clone()) }),
                    None => None,
                }
            },
            SymbolMatch::Procedure(k, i) => {
                match &self.modules[k as usize] {
                    Some(module) => {
                        let p = &module.procedures[i];
                        match p.start_rva {
                            Some(s) => match s.checked_add(p.len) {
                                Some(e) => Some(Function { start_rva: s, end_rva: Some(e), name: copy_text(&p.name) }),
                                None => None,
                            },
                            None => None,
                        }
                    },
                    None => None,
                }
            },
        }
    }
}

/// The frames that `find_frames` reports for a match, innermost first, read
/// from the tables that `c` holds for the procedure.
pub open spec fn frames_at(c: &Context, m: SymbolMatch, name: Option<String>, probe: u32) -> Seq<Frame> {
    match m {
        SymbolMatch::Public(_) => seq![Frame { function: name, file: None, line: None }],
        SymbolMatch::Procedure(k, i) => match (c.line_table(k, i), c.inline_table(k, i)) {
            (Some(l), Some(t)) => procedure_frames(name, l, t, probe),
            _ => Seq::empty(),
        },
    }
}

/// The tables that a later lookup reads are kept: caches only grow.
pub open spec fn caches_grow(a: &Context, b: &Context) -> bool {
    &&& forall|k: u16, i: usize| #[trigger] a.line_table(k, i) is Some ==> b.line_table(k, i) == a.line_table(k, i)
    &&& forall|k: u16, i: usize| #[trigger] a.inline_table(k, i) is Some ==> b.inline_table(k, i) == a.inline_table(k, i)
}

/// What `find_frames` promises of its result, for the state `c` that it
/// leaves behind. For a procedure, the frames are read from its line records
/// and its inline table, which `c` now holds.
pub open spec fn frames_result(c: &Context, o: Option<SectionOffset>, probe: u32, r: Lookup<FunctionFrames>) -> bool {
    match c.lookup_spec(o) {
        Lookup::NotFound => r is NotFound,
        Lookup::NeedModule(k) => r matches Lookup::NeedModule(q) && q == k,
        Lookup::Found(m) => match function_of(c, m) {
            None => r is NotFound,
            Some(f) => {
                &&& r matches Lookup::Found(ff)
                &&& ff.start_rva == f.start_rva
                &&& ff.end_rva == f.end_rva
                &&& ff.frames@ == frames_at(c, m, f.name, probe)
                &&& m matches SymbolMatch::Procedure(k, i) ==> {
                    let module = c.module_slots()[k as int].unwrap();
                    &&& c.line_table(k, i) matches Some(l)
                    &&& lines_of_procedure(module, i as int, l)
                    &&& c.inline_table(k, i) matches Some(t)
                    &&& table_of_procedure(module, i as int, t)
                }
            },
        },
    }
}

/// What the resolver's invariant guarantees to its users: the indices are
/// sorted, and every kept table is the one of its procedure.
pub proof fn lemma_resolver_facts(c: &Context)
    requires
        c.wf(),
    ensures
        is_partition(c.contributions()),
        strictly_sorted_by_key(c.publics()),
        sorted_by_key(c.publics()),
        forall|k: int| 0 <= k < c.module_slots().len() && #[trigger] c.module_slots()[k] is Some
            ==> c.module_slots()[k].unwrap().spec_procedures().len() <= usize::MAX
                && strictly_sorted_by_key(c.module_slots()[k].unwrap().spec_procedures()),
        forall|k: u16, i: usize| #[trigger] c.line_table(k, i) is Some ==> built_for(c.module_slots(), k as int, i as int)
            && lines_of_procedure(c.module_slots()[k as int].unwrap(), i as int, c.line_table(k, i).unwrap()),
        forall|k: u16, i: usize| #[trigger] c.inline_table(k, i) is Some ==> built_for(c.module_slots(), k as int, i as int)
            && table_of_procedure(c.module_slots()[k as int].unwrap(), i as int, c.inline_table(k, i).unwrap()),
{
    assert forall|k: int| 0 <= k < c.module_slots().len() && #[trigger] c.module_slots()[k] is Some
        implies c.module_slots()[k].unwrap().spec_procedures().len() <= usize::MAX
            && strictly_sorted_by_key(c.module_slots()[k].unwrap().spec_procedures()) by {
        assert(module_wf(c.modules@[k].unwrap(), c.public_functions@));
    }
    assert forall|k: u16, i: usize| #[trigger] c.line_table(k, i) is Some implies built_for(c.module_slots(), k as int, i as int)
        && lines_of_procedure(c.module_slots()[k as int].unwrap(), i as int, c.line_table(k, i).unwrap()) by {
        assert(c.line_cache@[k as int]@.contains_key(i as u64));
    }
    assert forall|k: u16, i: usize| #[trigger] c.inline_table(k, i) is Some implies built_for(c.module_slots(), k as int, i as int)
        && table_of_procedure(c.module_slots()[k as int].unwrap(), i as int, c.inline_table(k, i).unwrap()) by {
        assert(c.inline_cache@[k as int]@.contains_key(i as u64));
    }
}

impl Context {
    fn procedure_lines(&self, k: u16, i: usize) -> (r: Vec<LineEntry>)
        requires
            self.wf(),
            (k as int) < self.module_slots().len(),
            self.module_slots()[k as int] is Some,
            i < self.module_slots()[k as int].unwrap().spec_procedures().len(),
        ensures
            lines_of_procedure(self.module_slots()[k as int].unwrap(), i as int, r@),
    {
        match &self.modules[k as usize] {
            Some(m) => {
                proof {
                    assert(module_wf(*m, self.public_functions@));
                }
                let pos = m.procedures[i].symbol_position;
                match &m.symbols[pos] {
                    SymbolRecord::Procedure(rec) => ordered_lines(&rec.lines),
                    SymbolRecord::Thunk(rec) => ordered_lines(&rec.lines),
                    _ => Vec::new(),
                }
            },
            None => Vec::new(),
        }
    }

    fn procedure_inline_table(&self, k: u16, i: usize) -> (r: Vec<InlineRange>)
        requires
            self.wf(),
            (k as int) < self.module_slots().len(),
            self.module_slots()[k as int] is Some,
            i < self.module_slots()[k as int].unwrap().spec_procedures().len(),
        ensures
            table_of_procedure(self.module_slots()[k as int].unwrap(), i as int, r@),
    {
        match &self.modules[k as usize] {
            Some(m) => {
                proof {
                    assert(module_wf(*m, self.public_functions@));
                }
                let p = &m.procedures[i];
                compute_procedure_inline_ranges(&m.symbols, p.symbol_position, p.end_symbol_index)
            },
            None => Vec::new(),
        }
    }

    /// Finds the source context of an address given as (section, offset), with
    /// `probe` its relative address: the function's bounds and the frames of
    /// the inline stack, innermost first. The last frame is the function
    /// itself, with the line in force at `probe`; a public symbol gives that
    /// one frame only, without file or line. The line and inline tables of a
    /// procedure are built on first use and kept.
    pub fn find_frames(&mut self, o: Option<SectionOffset>, probe: u32) -> (r: Lookup<FunctionFrames>)
        requires
            old(self).wf(),
        ensures
            final(self).wf(),
            final(self).contributions() == old(self).contributions(),
            final(self).publics() == old(self).publics(),
            final(self).module_slots() == old(self).module_slots(),
            caches_grow(old(self), final(self)),
            frames_result(final(self), o, probe, r),
    {
        broadcast use vstd::std_specs::hash::group_hash_axioms;
        let m = match self.lookup_function(o) {
            Lookup::NotFound => {
                return Lookup::NotFound;
            },
            Lookup::NeedModule(k) => {
                return Lookup::NeedModule(k);
            },
            Lookup::Found(m) => m,
        };
        let f = match self.function_for(m) {
            Some(f) => f,
            None => {
                return Lookup::NotFound;
            },
        };
        match m {
            SymbolMatch::Public(_) => {
                let mut frames: Vec<Frame> = Vec::new();
                frames.push(Frame { function: f.name, file: None, line: None });
                proof {
                    assert(frames@ =~= seq![Frame { function: f.name, file: None, line: None }]);
                }
                Lookup::Found(FunctionFrames { start_rva: f.start_rva, end_rva: f.end_rva, frames })
            },
            SymbolMatch::Procedure(k, i) => {
                let key = i as u64;
                let ghost s0 = *self;
                if !self.line_cache[k as usize].contains_key(&key) {
                    let lines = self.procedure_lines(k, i);
                    self.line_cache[k as usize].insert(key, lines);
                    proof {
                        assert forall|q: int, kk: u64| 0 <= q < self.modules@.len() && #[trigger] self.line_cache@[q]@.contains_key(kk)
                            implies built_for(self.modules@, q, kk as int)
                                && lines_of_procedure(self.modules@[q].unwrap(), kk as int, self.line_cache@[q]@[kk]@) by {
                            if q != k || kk != key {
                                assert(s0.line_cache@[q]@.contains_key(kk));
                            }
                        }
                    }
                }
                let ghost s1 = *self;
                if !self.inline_cache[k as usize].contains_key(&key) {
                    let table = self.procedure_inline_table(k, i);
                    self.inline_cache[k as usize].insert(key, table);
                    proof {
                        assert forall|q: int, kk: u64| 0 <= q < self.modules@.len() && #[trigger] self.inline_cache@[q]@.contains_key(kk)
                            implies built_for(self.modules@, q, kk as int)
                                && table_of_procedure(self.modules@[q].unwrap(), kk as int, self.inline_cache@[q]@[kk]@) by {
                            if q != k || kk != key {
                                assert(s1.inline_cache@[q]@.contains_key(kk));
                            }
                        }
                    }
                }
                proof {
                    assert(self.lookup_spec(o) == s0.lookup_spec(o));
                    assert forall|q: u16, j: usize| #[trigger] s0.line_table(q, j) is Some implies self.line_table(q, j) == s0.line_table(q, j) by {
                        assert(s0.line_cache@[q as int]@.contains_key(j as u64));
                    }
                    assert forall|q: u16, j: usize| #[trigger] s0.inline_table(q, j) is Some implies self.inline_table(q, j) == s0.inline_table(q, j) by {
                        assert(s0.inline_cache@[q as int]@.contains_key(j as u64));
                    }
                    assert(self.line_cache@[k as int]@.contains_key(key));
                    assert(self.inline_cache@[k as int]@.contains_key(key));
                }
                let lines = match self.line_cache[k as usize].get(&key) {
                    Some(l) => l,
                    None => {
                        return Lookup::NotFound;
                    },
                };
                let outer = match find_last_le(lines, (0, probe)) {
                    Some(q) => Frame { function: copy_text(&f.name), file: copy_text(&lines[q].file), line: Some(lines[q].line) },
                    None => Frame { function: copy_text(&f.name), file: None, line: None },
                };
                let table = match self.inline_cache[k as usize].get(&key) {
                    Some(t) => t,
                    None => {
                        return Lookup::NotFound;
                    },
                };
                let frames = assemble_frames(outer, table, probe);
                Lookup::Found(FunctionFrames { start_rva: f.start_rva, end_rva: f.end_rva, frames })
            },
        }
    }
}

fn listed(v: &Vec<u16>, k: u16) -> (r: bool)
    ensures
        r == v@.contains(k),
{
    let mut i: usize = 0;
    while i < v.len()
        invariant
            0 <= i <= v@.len(),
            forall|q: int| 0 <= q < i ==> v@[q] != k,
        decreases v@.len() - i,
    {
        if v[i] == k {
            return true;
        }
        i = i + 1;
    }
    false
}

impl Keyed for u32 {
    open spec fn key(&self) -> (u32, u32) {
        (0, *self)
    }

    fn sort_key(&self) -> (r: (u32, u32)) {
        (0, *self)
    }

    fn duplicate(&self) -> (r: Self) {
        *self
    }
}

/// A walk over the start addresses of all functions, ascending. Each address
/// is to be resolved with `Context::find_function`; those that do not resolve
/// are passed over.
pub struct FunctionIter {
    full_rva_list: Vec<u32>,
    cur_index: usize,
}

impl FunctionIter {
    pub closed spec fn rvas(&self) -> Seq<u32> {
        self.full_rva_list@
    }

    pub closed spec fn position(&self) -> int {
        self.cur_index as int
    }

    /// The next address, if any is left.
    pub fn next_rva(&mut self) -> (r: Option<u32>)
        ensures
            final(self).rvas() == old(self).rvas(),
            old(self).position() < old(self).rvas().len() ==> r == Some(old(self).rvas()[old(self).position()])
                && final(self).position() == old(self).position() + 1,
            old(self).position() >= old(self).rvas().len() ==> r is None && final(self).position() == old(self).position(),
    {
        if self.cur_index < self.full_rva_list.len() {
            let x = self.full_rva_list[self.cur_index];
            self.cur_index = self.cur_index + 1;
            Some(x)
        } else {
            None
        }
    }
}

impl Context {
    fn compute_full_rva_list(&self) -> (r: Vec<u32>)
        requires
            self.wf(),
        ensures
            is_rva_list(self, r@),
    {
        let mut list: Vec<u32> = Vec::new();
        let mut j: usize = 0;
        while j < self.public_functions.len()
            invariant
                0 <= j <= self.public_functions@.len(),
                forall|x: u32| #[trigger] list@.contains(x) <==> exists|q: int| 0 <= q < j && #[trigger] self.public_functions@[q].start_rva == Some(x),
            decreases self.public_functions@.len() - j,
        {
            let ghost before = list@;
            if let Some(x) = self.public_functions[j].start_rva {
                list.push(x);
            }
            proof {
                assert forall|y: u32| #[trigger] list@.contains(y) <==> exists|q: int| 0 <= q < j + 1 && #[trigger] self.public_functions@[q].start_rva == Some(y) by {
                    if list@.contains(y) {
                        let w = choose|w: int| 0 <= w < list@.len() && list@[w] == y;
                        if w < before.len() {
                            assert(before.contains(y));
                        }
                    }
                    if exists|q: int| 0 <= q < j + 1 && #[trigger] self.public_functions@[q].start_rva == Some(y) {
                        let q = choose|q: int| 0 <= q < j + 1 && #[trigger] self.public_functions@[q].start_rva == Some(y);
                        if q < j {
                            assert(before.contains(y));
                            let w = choose|w: int| 0 <= w < before.len() && before[w] == y;
                            assert(list@[w] == y);
                        } else {
                            assert(list@[list@.len() - 1] == y);
                        }
                    }
                }
            }
            j = j + 1;
        }
        let ghost publics_part = list@;
        let mut k: usize = 0;
        while k < self.modules.len()
            invariant
                0 <= k <= self.modules@.len(),
                forall|x: u32| #[trigger] publics_part.contains(x) <==> exists|q: int| 0 <= q < self.public_functions@.len() && #[trigger] self.public_functions@[q].start_rva == Some(x),
                forall|x: u32| #[trigger] list@.contains(x) <==> (publics_part.contains(x) || exists|a: int, i: int| 0 <= a < k
                    && #[trigger] self.modules@[a] is Some && 0 <= i < self.modules@[a].unwrap().procedures@.len()
                    && #[trigger] self.modules@[a].unwrap().procedures@[i].start_rva == Some(x)),
            decreases self.modules@.len() - k,
        {
            if let Some(m) = &self.modules[k] {
                let mut i: usize = 0;
                let ghost at_start = list@;
                while i < m.procedures.len()
                    invariant
                        0 <= i <= m.procedures@.len(),
                        k < self.modules@.len(),
                        self.modules@[k as int] == Some(*m),
                        forall|x: u32| #[trigger] list@.contains(x) <==> (at_start.contains(x)
                            || exists|q: int| 0 <= q < i && #[trigger] m.procedures@[q].start_rva == Some(x)),
                    decreases m.procedures@.len() - i,
                {
                    let ghost before = list@;
                    if let Some(x) = m.procedures[i].start_rva {
                        list.push(x);
                    }
                    proof {
                        assert forall|y: u32| #[trigger] list@.contains(y) <==> (at_start.contains(y)
                            || exists|q: int| 0 <= q < i + 1 && #[trigger] m.procedures@[q].start_rva == Some(y)) by {
                            if list@.contains(y) {
                                let w = choose|w: int| 0 <= w < list@.len() && list@[w] == y;
                                if w < before.len() {
                                    assert(before.contains(y));
                                }
                            }
                            if at_start.contains(y) {
                                assert(before.contains(y));
                                let w = choose|w: int| 0 <= w < before.len() && before[w] == y;
                                assert(list@[w] == y);
                            }
                            if exists|q: int| 0 <= q < i + 1 && #[trigger] m.procedures@[q].start_rva == Some(y) {
                                let q = choose|q: int| 0 <= q < i + 1 && #[trigger] m.procedures@[q].start_rva == Some(y);
                                if q < i {
                                    assert(before.contains(y));
                                    let w = choose|w: int| 0 <= w < before.len() && before[w] == y;
                                    assert(list@[w] == y);
                                } else {
                                    assert(list@[list@.len() - 1] == y);
                                }
                            }
                        }
                    }
                    i = i + 1;
                }
                proof {
                    assert forall|x: u32| #[trigger] list@.contains(x) <==> (publics_part.contains(x) || exists|a: int, i: int| 0 <= a < k + 1
                        && #[trigger] self.modules@[a] is Some && 0 <= i < self.modules@[a].unwrap().procedures@.len()
                        && #[trigger] self.modules@[a].unwrap().procedures@[i].start_rva == Some(x)) by {
                        if exists|a: int, i: int| 0 <= a < k + 1
                            && #[trigger] self.modules@[a] is Some && 0 <= i < self.modules@[a].unwrap().procedures@.len()
                            && #[trigger] self.modules@[a].unwrap().procedures@[i].start_rva == Some(x) {
                            let (a, q) = choose|a: int, i: int| 0 <= a < k + 1
                                && #[trigger] self.modules@[a] is Some && 0 <= i < self.modules@[a].unwrap().procedures@.len()
                                && #[trigger] self.modules@[a].unwrap().procedures@[i].start_rva == Some(x);
                            if a == k {
                                assert(m.procedures@[q].start_rva == Some(x));
                            }
                        }
                    }
                }
            }
            k = k + 1;
        }
        let r = sort_dedup_last(&list);
        proof {
            assert forall|a: int, b: int| 0 <= a < b < r@.len() implies #[trigger] r@[a] < #[trigger] r@[b] by {
                assert(crate::search::key_lt(r@[a].key(), r@[b].key()));
            }
            assert forall|x: u32| #[trigger] r@.contains(x) <==> is_start_rva(self, x) by {
                if r@.contains(x) {
                    let w = choose|w: int| 0 <= w < r@.len() && r@[w] == x;
                    assert(crate::sorting::kept_from(list@, r@[w]));
                    let i = choose|i: int| 0 <= i < list@.len() && list@[i] == r@[w] && crate::sorting::last_of_key(list@, i);
                    assert(list@.contains(x));
                    if publics_part.contains(x) {
                        let j = choose|q: int| 0 <= q < self.public_functions@.len() && #[trigger] self.public_functions@[q].start_rva == Some(x);
                        assert(self.publics()[j].start_rva == Some(x));
                    } else {
                        let (a, q) = choose|a: int, i: int| 0 <= a < self.modules@.len()
                            && #[trigger] self.modules@[a] is Some && 0 <= i < self.modules@[a].unwrap().procedures@.len()
                            && #[trigger] self.modules@[a].unwrap().procedures@[i].start_rva == Some(x);
                        assert(self.module_slots()[a].unwrap().spec_procedures()[q].start_rva == Some(x));
                    }
                }
                if is_start_rva(self, x) {
                    if exists|j: int| 0 <= j < self.publics().len() && #[trigger] self.publics()[j].start_rva == Some(x) {
                        let j = choose|j: int| 0 <= j < self.publics().len() && #[trigger] self.publics()[j].start_rva == Some(x);
                        assert(self.public_functions@[j].start_rva == Some(x));
                        assert(publics_part.contains(x));
                    } else {
                        let (a, q) = choose|a: int, i: int| 0 <= a < self.module_slots().len() && #[trigger] self.module_slots()[a] is Some
                            && 0 <= i < self.module_slots()[a].unwrap().spec_procedures().len()
                            && #[trigger] self.module_slots()[a].unwrap().spec_procedures()[i].start_rva == Some(x);
                        assert(self.modules@[a].unwrap().procedures@[q].start_rva == Some(x));
                    }
                    assert(list@.contains(x));
                    let i = choose|i: int| 0 <= i < list@.len() && list@[i] == x;
                    assert(crate::sorting::has_key(r@, list@[i].key()));
                    let w = choose|w: int| 0 <= w < r@.len() && (#[trigger] r@[w]).key() == list@[i].key();
                    assert(r@[w] == x);
                }
            }
        }
        r
    }

    /// The start addresses of all functions, ascending and each once, to be
    /// walked with a `FunctionIter`. Every module must have been handed over
    /// first: `NeedModule(k)` names one that was not. The list is built once
    /// and kept.
    pub fn functions(&mut self, unreadable: &Vec<u16>) -> (r: Lookup<FunctionIter>)
        requires
            old(self).wf(),
        ensures
            final(self).wf(),
            final(self).contributions() == old(self).contributions(),
            final(self).publics() == old(self).publics(),
            final(self).module_slots() == old(self).module_slots(),
            forall|q: u16, i: usize| #[trigger] final(self).line_table(q, i) == old(self).line_table(q, i),
            forall|q: u16, i: usize| #[trigger] final(self).inline_table(q, i) == old(self).inline_table(q, i),
            match r {
                Lookup::Found(it) => {
                    &&& is_rva_list(old(self), it.rvas())
                    &&& it.position() == 0
                    &&& forall|q: int| 0 <= q < old(self).module_slots().len() ==> #[trigger] old(self).module_slots()[q] is Some
                        || unreadable@.contains(q as u16)
                },
                Lookup::NeedModule(k) => (k as int) < old(self).module_slots().len() && old(self).module_slots()[k as int] is None
                    && !unreadable@.contains(k),
                Lookup::NotFound => false,
            },
    {
        let ghost s0 = *self;
        let mut k: usize = 0;
        let mut skipped = false;
        while k < self.modules.len()
            invariant
                *self == s0,
                s0 == *old(self),
                s0.wf(),
                0 <= k <= self.modules@.len(),
                self.modules@.len() <= 0x1_0000,
                !skipped ==> forall|a: int| 0 <= a < k ==> #[trigger] self.modules@[a] is Some,
                forall|a: int| 0 <= a < k ==> #[trigger] self.modules@[a] is Some || unreadable@.contains(a as u16),
            decreases self.modules@.len() - k,
        {
            if self.modules[k].is_none() {
                if !listed(unreadable, k as u16) {
                    return Lookup::NeedModule(k as u16);
                }
                skipped = true;
            }
            k = k + 1;
        }
        if skipped {
            // a module that could not be read leaves the list incomplete: it is
            // not kept, so that a later call asks for that module again
            let list = self.compute_full_rva_list();
            return Lookup::Found(FunctionIter { full_rva_list: list, cur_index: 0 });
        }
        let list = match &self.full_rva_list {
            Some(v) => v.clone(),
            None => {
                let v = self.compute_full_rva_list();
                let kept = v.clone();
                proof {
                    assert(kept@ == v@);
                }
                self.full_rva_list = Some(kept);
                v
            },
        };
        Lookup::Found(FunctionIter { full_rva_list: list, cur_index: 0 })
    }
}

} // verus!
