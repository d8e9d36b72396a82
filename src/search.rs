use vstd::prelude::*;

verus! {

/// Lexicographic order on pairs of integers.
pub open spec fn key_le(a: (u32, u32), b: (u32, u32)) -> bool {
    a.0 < b.0 || (a.0 == b.0 && a.1 <= b.1)
}

/// Items that are ordered by a pair of integers, such as (section, offset).
pub trait Keyed: Sized {
    spec fn key(&self) -> (u32, u32);

    fn sort_key(&self) -> (r: (u32, u32))
        ensures
            r == self.key(),
    ;

    fn duplicate(&self) -> (r: Self)
        ensures
            r == *self,
    ;
}

pub open spec fn key_lt(a: (u32, u32), b: (u32, u32)) -> bool {
    a.0 < b.0 || (a.0 == b.0 && a.1 < b.1)
}

/// Strictly ascending keys: no key occurs twice.
pub open spec fn strictly_sorted_by_key<T: Keyed>(s: Seq<T>) -> bool {
    forall|i: int, j: int| 0 <= i < j < s.len() ==> key_lt(#[trigger] s[i].key(), #[trigger] s[j].key())
}

pub open spec fn sorted_by_key<T: Keyed>(s: Seq<T>) -> bool {
    forall|i: int, j: int| 0 <= i < j < s.len() ==> key_le(#[trigger] s[i].key(), #[trigger] s[j].key())
}

pub fn key_le_exec(a: (u32, u32), b: (u32, u32)) -> (r: bool)
    ensures
        r == key_le(a, b),
{
    a.0 < b.0 || (a.0 == b.0 && a.1 <= b.1)
}

/// Binary search for the last item whose key is at most `target`.
pub fn last_at_or_before<T: Keyed>(v: &Vec<T>, target: (u32, u32)) -> (r: Option<usize>)
    requires
        sorted_by_key(v@),
    ensures
        match r {
            Some(i) => i < v@.len() && key_le(v@[i as int].key(), target) && forall|j: int|
                i < j < v@.len() ==> !key_le(#[trigger] v@[j].key(), target),
            None => forall|j: int| 0 <= j < v@.len() ==> !key_le(#[trigger] v@[j].key(), target),
        },
{
    let mut lo: usize = 0;
    let mut hi: usize = v.len();
    while lo < hi
        invariant
            0 <= lo <= hi <= v@.len(),
            sorted_by_key(v@),
            forall|j: int| 0 <= j < lo ==> key_le(#[trigger] v@[j].key(), target),
            forall|j: int| hi <= j < v@.len() ==> !key_le(#[trigger] v@[j].key(), target),
        decreases hi - lo,
    {
        let mid: usize = lo + (hi - lo) / 2;
        let k = v[mid].sort_key();
        if key_le_exec(k, target) {
            assert forall|j: int| 0 <= j < mid + 1 implies key_le(#[trigger] v@[j].key(), target) by {
                if j < mid {
                    assert(key_le(v@[j].key(), v@[mid as int].key()));
                }
            }
            lo = mid + 1;
        } else {
            assert forall|j: int| mid <= j < v@.len() implies !key_le(#[trigger] v@[j].key(), target) by {
                if j > mid {
                    assert(key_le(v@[mid as int].key(), v@[j].key()));
                }
            }
            hi = mid;
        }
    }
    if lo == 0 {
        None
    } else {
        Some(lo - 1)
    }
}

/// `i` is the position of the last item whose key is at most `target`.
pub open spec fn is_last_le<T: Keyed>(s: Seq<T>, target: (u32, u32), i: int) -> bool {
    &&& 0 <= i < s.len()
    &&& key_le(s[i].key(), target)
    &&& forall|j: int| i < j < s.len() ==> !key_le(#[trigger] s[j].key(), target)
}

/// No item has a key at most `target`.
pub open spec fn none_le<T: Keyed>(s: Seq<T>, target: (u32, u32)) -> bool {
    forall|j: int| 0 <= j < s.len() ==> !key_le(#[trigger] s[j].key(), target)
}

/// The position of the last item whose key is at most `target`, if any.
pub open spec fn last_le<T: Keyed>(s: Seq<T>, target: (u32, u32)) -> Option<int> {
    if none_le(s, target) {
        None
    } else {
        Some(choose|i: int| is_last_le(s, target, i))
    }
}

/// Where some item is at most `target`, a last such item exists, and
/// `last_le` names it.
pub proof fn lemma_last_le_sound<T: Keyed>(s: Seq<T>, target: (u32, u32))
    ensures
        last_le(s, target) matches Some(i) ==> is_last_le(s, target, i),
    decreases s.len(),
{
    if !none_le(s, target) {
        let n = s.len() as int;
        if key_le(s[n - 1].key(), target) {
            assert(is_last_le(s, target, n - 1));
        } else {
            let p = s.drop_last();
            assert(!none_le(p, target)) by {
                let j = choose|j: int| 0 <= j < n && key_le(#[trigger] s[j].key(), target);
                assert(p[j] == s[j]);
            }
            lemma_last_le_sound(p, target);
            let i = last_le(p, target).unwrap();
            assert forall|j: int| i < j < n implies !key_le(#[trigger] s[j].key(), target) by {
                if j < n - 1 {
                    assert(p[j] == s[j]);
                }
            }
            assert(is_last_le(s, target, i));
        }
    }
}

/// `last_le` names the one position that the search finds.
pub proof fn lemma_last_le<T: Keyed>(s: Seq<T>, target: (u32, u32), i: int)
    requires
        is_last_le(s, target, i),
    ensures
        last_le(s, target) == Some(i),
{
    assert(!none_le(s, target));
    let c = choose|c: int| is_last_le(s, target, c);
    assert(c == i);
}

/// The search for the last item whose key is at most `target`.
pub fn find_last_le<T: Keyed>(v: &Vec<T>, target: (u32, u32)) -> (r: Option<usize>)
    requires
        sorted_by_key(v@),
    ensures
        r matches Some(i) ==> last_le(v@, target) == Some(i as int),
        r is None ==> last_le(v@, target) is None,
        r matches Some(i) ==> i < v@.len(),
{
    let r = last_at_or_before(v, target);
    proof {
        if let Some(i) = r {
            lemma_last_le(v@, target, i as int);
        }
    }
    r
}

} // verus!
