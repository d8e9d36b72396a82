use vstd::prelude::*;
use range_collections::RangeSet2;

verus! {

/// A set of addresses, held as a `range_collections::RangeSet2<u32>`: sorted
/// boundaries, where each pair `[b0, b1)` is one range of the set.
#[verifier::external_body]
pub struct AddrSet {
    set: RangeSet2<u32>,
}

/// The addresses that an `AddrSet` holds.
pub uninterp spec fn addr_set_contents(s: AddrSet) -> Set<u32>;

/// The half-open range `[start, end)` as a set.
pub open spec fn range_set(start: u32, end: u32) -> Set<u32> {
    Set::new(|x: u32| start <= x < end)
}

/// Relies on `RangeSet::empty`: a set without ranges.
#[verifier::external_body]
pub fn addr_set_empty() -> (r: AddrSet)
    ensures
        addr_set_contents(r) == Set::<u32>::empty(),
{
    AddrSet { set: RangeSet2::empty() }
}

/// Relies on `From<Range<u32>> for RangeSet`: the set of `start..end`, empty
/// when `start >= end`.
#[verifier::external_body]
pub fn addr_set_from_range(start: u32, end: u32) -> (r: AddrSet)
    ensures
        addr_set_contents(r) == range_set(start, end),
{
    AddrSet { set: RangeSet2::from(start..end) }
}

/// Relies on `RangeSet::union_with`: in-place union.
#[verifier::external_body]
pub fn addr_set_union_with(a: &mut AddrSet, b: &AddrSet)
    ensures
        addr_set_contents(*final(a)) == addr_set_contents(*old(a)).union(addr_set_contents(*b)),
{
    a.set.union_with(&b.set);
}

/// Relies on `RangeSetRef::is_superset`: every address of `b` is in `a`.
#[verifier::external_body]
pub fn addr_set_is_superset(a: &AddrSet, b: &AddrSet) -> (r: bool)
    ensures
        r == addr_set_contents(*b).subset_of(addr_set_contents(*a)),
{
    a.set.is_superset(&b.set)
}

/// Relies on `RangeSetRef::difference`: the addresses of `a` that are not in `b`.
#[verifier::external_body]
pub fn addr_set_difference(a: &AddrSet, b: &AddrSet) -> (r: AddrSet)
    ensures
        addr_set_contents(r) == addr_set_contents(*a).difference(addr_set_contents(*b)),
{
    AddrSet { set: a.set.difference(&b.set) }
}

/// Relies on `RangeSetRef::boundaries`: strictly ascending boundaries; an
/// address is in the set when an even-indexed boundary at or below it is
/// followed by one above it, or when the last boundary has an even index and
/// is at or below it.
#[verifier::external_body]
pub fn addr_set_boundaries(a: &AddrSet) -> (r: Vec<u32>)
    ensures
        forall|i: int, j: int| 0 <= i < j < r@.len() ==> r@[i] < r@[j],
        forall|x: u32| #[trigger] addr_set_contents(*a).contains(x) <==> (
            (exists|k: int| 0 <= 2 * k && 2 * k + 1 < r@.len() && #[trigger] r@[2 * k] <= x < r@[2 * k + 1])
            || (r@.len() % 2 == 1 && r@[r@.len() - 1] <= x)),
{
    a.set.boundaries().to_vec()
}

} // verus!
