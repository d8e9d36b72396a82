use vstd::prelude::*;
use crate::search::{key_le, sorted_by_key, Keyed};
use crate::sorting::{sort_triples, triple_le};
use crate::types::{Error, ModuleSectionContribution, RawSectionContribution};

verus! {

impl Keyed for ModuleSectionContribution {
    fn duplicate(&self) -> (r: Self) {
        *self
    }

    open spec fn key(&self) -> (u32, u32) {
        (self.section_index as u32, self.start_offset)
    }

    fn sort_key(&self) -> (r: (u32, u32)) {
        (self.section_index as u32, self.start_offset)
    }
}

/// Every record ends inside the 32-bit offset space.
pub open spec fn records_fit(raw: Seq<RawSectionContribution>) -> bool {
    forall|i: int| 0 <= i < raw.len() ==> #[trigger] raw[i].offset + raw[i].size <= u32::MAX
}

pub open spec fn span_of(r: RawSectionContribution) -> ModuleSectionContribution {
    ModuleSectionContribution {
        section_index: r.section,
        start_offset: r.offset,
        end_offset: (r.offset + r.size) as u32,
        module_index: r.module,
    }
}

/// The state of the merge after a prefix of the records: the finished spans,
/// the span of the current run, and the (module, section) of an ordering
/// error, if one was met.
pub struct MergeState {
    pub done: Seq<ModuleSectionContribution>,
    pub current: Option<ModuleSectionContribution>,
    pub error: Option<(u16, u16)>,
}

/// Consecutive non-empty records of one (section, module) merge into one span
/// that ends where the last of them ends; an end that decreases within such a
/// run is an ordering error. Empty records are skipped.
pub open spec fn merge_state(raw: Seq<RawSectionContribution>) -> MergeState
    decreases raw.len(),
{
    if raw.len() == 0 {
        MergeState { done: Seq::empty(), current: None, error: None }
    } else {
        let s = merge_state(raw.drop_last());
        let r = raw.last();
        if s.error.is_some() || r.size == 0 {
            s
        } else {
            match s.current {
                None => MergeState { done: s.done, current: Some(span_of(r)), error: None },
                Some(c) => if c.section_index == r.section && c.module_index == r.module {
                    if span_of(r).end_offset < c.end_offset {
                        MergeState { done: s.done, current: s.current, error: Some((r.module, r.section)) }
                    } else {
                        MergeState {
                            done: s.done,
                            current: Some(ModuleSectionContribution { end_offset: span_of(r).end_offset, ..c }),
                            error: None,
                        }
                    }
                } else {
                    MergeState { done: s.done.push(c), current: Some(span_of(r)), error: None }
                },
            }
        }
    }
}

/// The merged spans, in the order of the records.
pub open spec fn merged(raw: Seq<RawSectionContribution>) -> Seq<ModuleSectionContribution> {
    let s = merge_state(raw);
    match s.current {
        Some(c) => s.done.push(c),
        None => s.done,
    }
}

pub open spec fn overlaps(a: ModuleSectionContribution, b: ModuleSectionContribution) -> bool {
    a.section_index == b.section_index && a.start_offset < b.end_offset && b.start_offset < a.end_offset
}

/// Two entries at distinct positions overlap.
pub open spec fn has_overlap(m: Seq<ModuleSectionContribution>) -> bool {
    exists|i: int, j: int|
        0 <= i < m.len() && 0 <= j < m.len() && i != j && #[trigger] overlaps(m[i], m[j])
}

/// Sorted by (section, start), and no two entries overlap.
pub open spec fn is_partition(s: Seq<ModuleSectionContribution>) -> bool {
    &&& sorted_by_key(s)
    &&& forall|i: int| 0 <= i < s.len() ==> #[trigger] s[i].start_offset < s[i].end_offset
    &&& forall|i: int, j: int| 0 <= i < j < s.len() ==> !overlaps(#[trigger] s[i], #[trigger] s[j])
}

pub open spec fn contains_offset(c: ModuleSectionContribution, section: u16, offset: u32) -> bool {
    c.section_index == section && c.start_offset <= offset < c.end_offset
}

pub open spec fn merge_ok(raw: Seq<RawSectionContribution>) -> bool {
    merge_state(raw).error.is_none()
}

proof fn lemma_merge_step(raw: Seq<RawSectionContribution>, i: int)
    requires
        0 <= i < raw.len(),
    ensures
        raw.take(i + 1).drop_last() == raw.take(i),
        raw.take(i + 1).last() == raw[i],
{
    assert(raw.take(i + 1).drop_last() =~= raw.take(i));
}

proof fn lemma_two_equal_count<A>(s: Seq<A>, k: int)
    requires
        0 <= k < s.len() - 1,
        s[k] == s[k + 1],
    ensures
        s.to_multiset().count(s[k]) >= 2,
{
    broadcast use vstd::multiset::group_multiset_axioms;
    let r = s.remove(k);
    vstd::seq_lib::to_multiset_remove(s, k);
    assert(r[k] == s[k + 1]);
    assert(r.contains(s[k]));
    vstd::seq_lib::to_multiset_contains(r, s[k]);
}

proof fn lemma_distinct_count(s: Seq<(u32, u32, usize)>, a: int)
    requires
        0 <= a < s.len(),
        forall|i: int| 0 <= i < s.len() ==> (#[trigger] s[i]).2 == i,
    ensures
        s.to_multiset().count(s[a]) == 1,
{
    broadcast use vstd::multiset::group_multiset_axioms;
    let r = s.remove(a);
    vstd::seq_lib::to_multiset_remove(s, a);
    assert forall|j: int| 0 <= j < r.len() implies r[j] != s[a] by {
        if j < a {
            assert(r[j] == s[j]);
        } else {
            assert(r[j] == s[j + 1]);
        }
    }
    assert(!r.contains(s[a]));
    vstd::seq_lib::to_multiset_contains(r, s[a]);
    vstd::seq_lib::to_multiset_contains(s, s[a]);
}

proof fn lemma_error_sticks(raw: Seq<RawSectionContribution>, i: int)
    requires
        0 <= i <= raw.len(),
        merge_state(raw.take(i)).error.is_some(),
    ensures
        merge_state(raw).error == merge_state(raw.take(i)).error,
    decreases raw.len(),
{
    if raw.len() == i {
        assert(raw.take(i) =~= raw);
    } else {
        let p = raw.drop_last();
        assert(p.take(i) =~= raw.take(i));
        lemma_error_sticks(p, i);
    }
}

/// Builds the index of section contributions: consecutive records of one
/// module in one section merge into one span, empty records are dropped, and
/// the spans are sorted by (section, start). Fails when an end offset
/// decreases within a run, or when two spans of one section overlap.
pub fn compute_section_contributions(raw: &Vec<RawSectionContribution>) -> (r: Result<Vec<ModuleSectionContribution>, Error>)
    requires
        records_fit(raw@),
    ensures
        match r {
            Ok(v) => merge_ok(raw@) && !has_overlap(merged(raw@)) && is_partition(v@)
                && v@.len() == merged(raw@).len()
                && forall|c: ModuleSectionContribution| v@.contains(c) <==> merged(raw@).contains(c),
            Err(Error::UnorderedSectionContributions(m, s)) => merge_state(raw@).error == Some((m, s)),
            Err(Error::OverlappingSectionContributions(s, m1, m2)) => merge_ok(raw@) && exists|i: int, j: int|
                0 <= i < merged(raw@).len() && 0 <= j < merged(raw@).len() && i != j
                && #[trigger] overlaps(merged(raw@)[i], merged(raw@)[j])
                && merged(raw@)[i].section_index == s && merged(raw@)[i].module_index == m1
                && merged(raw@)[j].module_index == m2,
        },
{
    let mut done: Vec<ModuleSectionContribution> = Vec::new();
    let mut current: Option<ModuleSectionContribution> = None;
    let n = raw.len();
    let mut i: usize = 0;
    while i < n
        invariant
            n == raw@.len(),
            0 <= i <= n,
            records_fit(raw@),
            merge_state(raw@.take(i as int)) == (MergeState { done: done@, current: current, error: None }),
        decreases n - i,
    {
        proof {
            lemma_merge_step(raw@, i as int);
        }
        let rec = raw[i];
        assert(rec.offset + rec.size <= u32::MAX);
        if rec.size != 0 {
            let end = rec.offset + rec.size;
            match current {
                None => {
                    current = Some(ModuleSectionContribution {
                        section_index: rec.section,
                        start_offset: rec.offset,
                        end_offset: end,
                        module_index: rec.module,
                    });
                },
                Some(c) => {
                    if c.section_index == rec.section && c.module_index == rec.module {
                        if end < c.end_offset {
                            proof {
                                lemma_error_sticks(raw@, i + 1);
                            }
                            return Err(Error::UnorderedSectionContributions(rec.module, rec.section));
                        }
                        current = Some(ModuleSectionContribution { end_offset: end, ..c });
                    } else {
                        done.push(c);
                        current = Some(ModuleSectionContribution {
                            section_index: rec.section,
                            start_offset: rec.offset,
                            end_offset: end,
                            module_index: rec.module,
                        });
                    }
                },
            }
        }
        i = i + 1;
    }
    assert(raw@.take(n as int) =~= raw@);
    if let Some(c) = current {
        done.push(c);
    }
    let m = done;
    assert(m@ == merged(raw@));
    assert forall|k: int| 0 <= k < m@.len() implies #[trigger] m@[k].start_offset < m@[k].end_offset by {
        lemma_merged_nonempty(raw@, k);
    }
    sort_and_check(&m)
}

proof fn lemma_merged_nonempty(raw: Seq<RawSectionContribution>, k: int)
    requires
        records_fit(raw),
        merge_ok(raw),
        0 <= k < merged(raw).len(),
    ensures
        merged(raw)[k].start_offset < merged(raw)[k].end_offset,
{
    lemma_merge_state_nonempty(raw);
}

proof fn lemma_merge_state_nonempty(raw: Seq<RawSectionContribution>)
    requires
        records_fit(raw),
    ensures
        forall|k: int| 0 <= k < merge_state(raw).done.len() ==> (#[trigger] merge_state(raw).done[k]).start_offset < merge_state(raw).done[k].end_offset,
        merge_state(raw).current matches Some(c) ==> c.start_offset < c.end_offset,
    decreases raw.len(),
{
    if raw.len() > 0 {
        let p = raw.drop_last();
        assert(records_fit(p)) by {
            assert forall|i: int| 0 <= i < p.len() implies #[trigger] p[i].offset + p[i].size <= u32::MAX by {
                assert(p[i] == raw[i]);
            }
        }
        assert(raw.last() == raw[raw.len() - 1]);
        lemma_merge_state_nonempty(p);
        let s = merge_state(p);
        assert forall|k: int| 0 <= k < s.done.len() implies (#[trigger] s.done[k]).start_offset < s.done[k].end_offset by {}
    }
}

proof fn lemma_position(sk: Seq<(u32, u32, usize)>, orig: Seq<(u32, u32, usize)>, q: int) -> (p: int)
    requires
        0 <= q < orig.len(),
        sk.to_multiset() == orig.to_multiset(),
        sk.len() == orig.len(),
    ensures
        0 <= p < sk.len(),
        sk[p] == orig[q],
{
    assert(orig.contains(orig[q]));
    vstd::seq_lib::to_multiset_contains(sk, orig[q]);
    vstd::seq_lib::to_multiset_contains(orig, orig[q]);
    choose|p: int| 0 <= p < sk.len() && sk[p] == orig[q]
}

/// Sorts the merged spans by (section, start) and checks that no two of one
/// section overlap.
fn sort_and_check(m: &Vec<ModuleSectionContribution>) -> (r: Result<Vec<ModuleSectionContribution>, Error>)
    requires
        forall|k: int| 0 <= k < m@.len() ==> #[trigger] m@[k].start_offset < m@[k].end_offset,
    ensures
        match r {
            Ok(v) => !has_overlap(m@) && is_partition(v@) && v@.len() == m@.len()
                && forall|c: ModuleSectionContribution| v@.contains(c) <==> m@.contains(c),
            Err(Error::UnorderedSectionContributions(_, _)) => false,
            Err(Error::OverlappingSectionContributions(s, m1, m2)) => exists|i: int, j: int|
                0 <= i < m@.len() && 0 <= j < m@.len() && i != j
                && #[trigger] overlaps(m@[i], m@[j])
                && m@[i].section_index == s && m@[i].module_index == m1
                && m@[j].module_index == m2,
        },
{
    broadcast use vstd::seq_lib::group_to_multiset_ensures;
    let n = m.len();
    let mut keys: Vec<(u32, u32, usize)> = Vec::new();
    let mut i: usize = 0;
    while i < n
        invariant
            n == m@.len(),
            0 <= i <= n,
            keys@.len() == i,
            forall|k: int| 0 <= k < i ==> #[trigger] keys@[k] == (m@[k].section_index as u32, m@[k].start_offset, k as usize),
        decreases n - i,
    {
        keys.push((m[i].section_index as u32, m[i].start_offset, i));
        i = i + 1;
    }
    let ghost orig = keys@;
    sort_triples(&mut keys);
    let ghost sk = keys@;
    proof {
        assert(sk.len() == orig.len()) by {
            assert(sk.to_multiset().len() == orig.to_multiset().len());
        }
        assert forall|k: int| 0 <= k < sk.len() implies #[trigger] sk[k].2 < n && sk[k] == orig[sk[k].2 as int] by {
            assert(sk.contains(sk[k]));
            vstd::seq_lib::to_multiset_contains(sk, sk[k]);
            vstd::seq_lib::to_multiset_contains(orig, sk[k]);
            assert(orig.contains(sk[k]));
        }
    }
    let mut v: Vec<ModuleSectionContribution> = Vec::new();
    let mut k: usize = 0;
    while k < n
        invariant
            n == m@.len(),
            sk.len() == n,
            orig.len() == n,
            keys@ == sk,
            0 <= k <= n,
            v@.len() == k,
            forall|q: int| 0 <= q < sk.len() ==> #[trigger] sk[q].2 < n && sk[q] == orig[sk[q].2 as int],
            forall|q: int| 0 <= q < n ==> #[trigger] orig[q] == (m@[q].section_index as u32, m@[q].start_offset, q as usize),
            forall|q: int| 0 <= q < k ==> #[trigger] v@[q] == m@[sk[q].2 as int],
        decreases n - k,
    {
        let idx = keys[k].2;
        v.push(m[idx]);
        k = k + 1;
    }
    proof {
        assert forall|a: int, b: int| 0 <= a < b < v@.len() implies key_le(#[trigger] v@[a].key(), #[trigger] v@[b].key()) by {
            assert(triple_le(sk[a], sk[b]));
        }
        assert forall|q: int| #![trigger orig[q]] 0 <= q < n implies exists|p: int| 0 <= p < n && #[trigger] sk[p] == orig[q] by {
            assert(orig.contains(orig[q]));
            vstd::seq_lib::to_multiset_contains(sk, orig[q]);
            vstd::seq_lib::to_multiset_contains(orig, orig[q]);
            assert(sk.contains(orig[q]));
        }
    }
    let mut j: usize = 1;
    while j < n
        invariant
            n == m@.len(),
            sk.len() == n,
            orig.len() == n,
            v@.len() == n,
            1 <= j <= n || n == 0,
            sorted_by_key(v@),
            forall|q: int| 0 <= q < n ==> #[trigger] m@[q].start_offset < m@[q].end_offset,
            forall|q: int| 0 <= q < sk.len() ==> #[trigger] sk[q].2 < n && sk[q] == orig[sk[q].2 as int],
            forall|q: int| 0 <= q < n ==> #[trigger] orig[q] == (m@[q].section_index as u32, m@[q].start_offset, q as usize),
            forall|q: int| 0 <= q < n ==> #[trigger] v@[q] == m@[sk[q].2 as int],
            sk.to_multiset() == orig.to_multiset(),
            forall|a: int, b: int| 0 <= a < b < j ==> !overlaps(#[trigger] v@[a], #[trigger] v@[b]),
        decreases n - j,
    {
        let prev = v[j - 1];
        let cur = v[j];
        if cur.section_index == prev.section_index && cur.start_offset < prev.end_offset {
            proof {
                let x = sk[j - 1].2 as int;
                let y = sk[j as int].2 as int;
                assert(key_le(v@[j - 1].key(), v@[j as int].key()));
                if x == y {
                    lemma_two_equal_count(sk, j - 1);
                    lemma_distinct_count(orig, x);
                }
                assert(overlaps(m@[x], m@[y]));
            }
            return Err(Error::OverlappingSectionContributions(cur.section_index, prev.module_index, cur.module_index));
        }
        proof {
            assert forall|a: int, b: int| 0 <= a < b < j + 1 implies !overlaps(#[trigger] v@[a], #[trigger] v@[b]) by {
                if b == j {
                    assert(key_le(v@[a].key(), v@[j - 1].key()));
                    assert(key_le(v@[j - 1].key(), v@[b].key()));
                    if a < j - 1 {
                        assert(!overlaps(v@[a], v@[j - 1]));
                    }
                }
            }
        }
        j = j + 1;
    }
    proof {
        assert(!has_overlap(m@)) by {
            assert forall|a: int, b: int| 0 <= a < n && 0 <= b < n && a != b implies !#[trigger] overlaps(m@[a], m@[b]) by {
                let pa = lemma_position(sk, orig, a);
                let pb = lemma_position(sk, orig, b);
                if pa < pb {
                    assert(!overlaps(v@[pa], v@[pb]));
                } else {
                    assert(!overlaps(v@[pb], v@[pa]));
                }
            }
        }
        assert forall|c: ModuleSectionContribution| v@.contains(c) <==> m@.contains(c) by {
            if v@.contains(c) {
                let q = choose|q: int| 0 <= q < n && v@[q] == c;
                assert(m@[sk[q].2 as int] == c);
            }
            if m@.contains(c) {
                let q = choose|q: int| 0 <= q < n && m@[q] == c;
                let p = lemma_position(sk, orig, q);
                assert(v@[p] == c);
            }
        }
    }
    Ok(v)
}

} // verus!
