use vstd::prelude::*;
use crate::search::{key_le, key_le_exec, key_lt, sorted_by_key, strictly_sorted_by_key, Keyed};

verus! {

/// Lexicographic order on the triples that the index builders sort.
pub open spec fn triple_le(a: (u32, u32, usize), b: (u32, u32, usize)) -> bool {
    a.0 < b.0 || (a.0 == b.0 && (a.1 < b.1 || (a.1 == b.1 && a.2 <= b.2)))
}

/// Relies on `slice::sort_unstable`: the vector keeps its items and ends in
/// ascending order, which for tuples of integers is the lexicographic one.
#[verifier::external_body]
pub fn sort_triples(v: &mut Vec<(u32, u32, usize)>)
    ensures
        final(v)@.to_multiset() == old(v)@.to_multiset(),
        forall|i: int, j: int|
            0 <= i < j < final(v)@.len() ==> triple_le(#[trigger] final(v)@[i], #[trigger] final(v)@[j]),
{
    v.sort_unstable();
}

/// No later item has the same key as the item at `i`.
pub open spec fn last_of_key<T: Keyed>(s: Seq<T>, i: int) -> bool {
    forall|j: int| i < j < s.len() ==> (#[trigger] s[j]).key() != s[i].key()
}

/// The item occurs in `s` as the last one of its key.
pub open spec fn kept_from<T: Keyed>(s: Seq<T>, x: T) -> bool {
    exists|i: int| 0 <= i < s.len() && s[i] == x && last_of_key(s, i)
}

/// Some item of `r` has the key `k`.
pub open spec fn has_key<T: Keyed>(r: Seq<T>, k: (u32, u32)) -> bool {
    exists|q: int| 0 <= q < r.len() && (#[trigger] r[q]).key() == k
}

/// `r` holds, in ascending key order, one item per key of `s`: the last item
/// of `s` with that key.
pub open spec fn is_dedup_last<T: Keyed>(r: Seq<T>, s: Seq<T>) -> bool {
    &&& strictly_sorted_by_key(r)
    &&& forall|q: int| 0 <= q < r.len() ==> kept_from(s, #[trigger] r[q])
    &&& forall|i: int| 0 <= i < s.len() ==> has_key(r, #[trigger] s[i].key())
}

proof fn lemma_position(sk: Seq<(u32, u32, usize)>, orig: Seq<(u32, u32, usize)>, q: int) -> (p: int)
    requires
        0 <= q < orig.len(),
        sk.to_multiset() == orig.to_multiset(),
        sk.len() == orig.len(),
    ensures
        0 <= p < sk.len(),
        sk[p] == orig[q],
{
    assert(orig.contains(orig[q]));
    vstd::seq_lib::to_multiset_contains(sk, orig[q]);
    vstd::seq_lib::to_multiset_contains(orig, orig[q]);
    choose|p: int| 0 <= p < sk.len() && sk[p] == orig[q]
}

/// Sorted (key, index) triples of the items of `s`.
fn sorted_keys<T: Keyed>(s: &Vec<T>) -> (r: (Vec<(u32, u32, usize)>, Ghost<Seq<(u32, u32, usize)>>))
    ensures
        r.1@.len() == s@.len(),
        r.0@.len() == s@.len(),
        r.0@.to_multiset() == r.1@.to_multiset(),
        forall|i: int| 0 <= i < s@.len() ==> #[trigger] r.1@[i] == (s@[i].key().0, s@[i].key().1, i as usize),
        forall|a: int, b: int| 0 <= a < b < r.0@.len() ==> triple_le(#[trigger] r.0@[a], #[trigger] r.0@[b]),
        forall|q: int| 0 <= q < r.0@.len() ==> #[trigger] r.0@[q].2 < s@.len() && r.0@[q] == r.1@[r.0@[q].2 as int],
{
    broadcast use vstd::seq_lib::group_to_multiset_ensures;
    let n = s.len();
    let mut keys: Vec<(u32, u32, usize)> = Vec::new();
    let mut i: usize = 0;
    while i < n
        invariant
            n == s@.len(),
            0 <= i <= n,
            keys@.len() == i,
            forall|k: int| 0 <= k < i ==> #[trigger] keys@[k] == (s@[k].key().0, s@[k].key().1, k as usize),
        decreases n - i,
    {
        let k = s[i].sort_key();
        keys.push((k.0, k.1, i));
        i = i + 1;
    }
    let ghost orig = keys@;
    sort_triples(&mut keys);
    let ghost sk = keys@;
    proof {
        assert(sk.len() == orig.len()) by {
            assert(sk.to_multiset().len() == orig.to_multiset().len());
        }
        assert forall|k: int| 0 <= k < sk.len() implies #[trigger] sk[k].2 < n && sk[k] == orig[sk[k].2 as int] by {
            assert(sk.contains(sk[k]));
            vstd::seq_lib::to_multiset_contains(sk, sk[k]);
            vstd::seq_lib::to_multiset_contains(orig, sk[k]);
        }
    }
    (keys, Ghost(orig))
}

/// Sorts the items by key and keeps, of each key, the last item in the
/// order of `s`.
pub fn sort_dedup_last<T: Keyed>(s: &Vec<T>) -> (r: Vec<T>)
    ensures
        is_dedup_last(r@, s@),
        r@.len() <= s@.len(),
        r@.len() <= usize::MAX,
{
    let (keys, Ghost(orig)) = sorted_keys(s);
    let ghost sk = keys@;
    let n = keys.len();
    let mut r: Vec<T> = Vec::new();
    let mut p: usize = 0;
    while p < n
        invariant
            n == sk.len(),
            n == s@.len(),
            keys@ == sk,
            orig.len() == n,
            0 <= p <= n,
            r@.len() <= p,
            sk.to_multiset() == orig.to_multiset(),
            forall|i: int| 0 <= i < n ==> #[trigger] orig[i] == (s@[i].key().0, s@[i].key().1, i as usize),
            forall|a: int, b: int| 0 <= a < b < n ==> triple_le(#[trigger] sk[a], #[trigger] sk[b]),
            forall|q: int| 0 <= q < n ==> #[trigger] sk[q].2 < n && sk[q] == orig[sk[q].2 as int],
            strictly_sorted_by_key(r@),
            p < n ==> forall|q: int| 0 <= q < r@.len() ==> key_lt(#[trigger] r@[q].key(), (sk[p as int].0, sk[p as int].1)),
            forall|q: int| 0 <= q < r@.len() ==> kept_from(s@, #[trigger] r@[q]),
            forall|a: int| 0 <= a < p ==> has_key(r@, (#[trigger] sk[a].0, sk[a].1))
                || (p < n && sk[a].0 == sk[p as int].0 && sk[a].1 == sk[p as int].1),
        decreases n - p,
    {
        let t = keys[p];
        let last = p + 1 == n || keys[p + 1].0 != t.0 || keys[p + 1].1 != t.1;
        let ghost r0 = r@;
        if last {
            let x = s[t.2].duplicate();
            proof {
                let i = t.2 as int;
                assert(s@[i] == x);
                assert forall|j: int| i < j < s@.len() implies (#[trigger] s@[j]).key() != s@[i].key() by {
                    if s@[j].key() == s@[i].key() {
                        let pj = lemma_position(sk, orig, j);
                        if pj < p {
                            assert(triple_le(sk[pj], sk[p as int]));
                        } else if pj > p {
                            assert(triple_le(sk[p as int], sk[p + 1]));
                            if pj > p + 1 {
                                assert(triple_le(sk[p + 1], sk[pj]));
                            }
                        }
                    }
                }
                assert(last_of_key(s@, i));
                assert(kept_from(s@, x));
            }
            r.push(x);
            proof {
                assert forall|q: int| 0 <= q < r@.len() implies kept_from(s@, #[trigger] r@[q]) by {
                    if q < r0.len() {
                        assert(r@[q] == r0[q]);
                    }
                }
                assert forall|a: int, b: int| 0 <= a < b < r@.len() implies key_lt(#[trigger] r@[a].key(), #[trigger] r@[b].key()) by {
                    if b < r0.len() {
                        assert(r@[a] == r0[a] && r@[b] == r0[b]);
                    } else {
                        assert(r@[a] == r0[a]);
                    }
                }
                assert(has_key(r@, (sk[p as int].0, sk[p as int].1))) by {
                    assert(r@[r0.len() as int] == x);
                }
                assert forall|a: int| 0 <= a < p + 1 implies has_key(r@, (#[trigger] sk[a].0, sk[a].1))
                    || (p + 1 < n && sk[a].0 == sk[p + 1].0 && sk[a].1 == sk[p + 1].1) by {
                    if a < p && has_key(r0, (sk[a].0, sk[a].1)) {
                        let q = choose|q: int| 0 <= q < r0.len() && (#[trigger] r0[q]).key() == (sk[a].0, sk[a].1);
                        assert(r@[q] == r0[q]);
                    }
                }
                if p + 1 < n {
                    assert(triple_le(sk[p as int], sk[p + 1]));
                    assert forall|q: int| 0 <= q < r@.len() implies key_lt(#[trigger] r@[q].key(), (sk[p + 1].0, sk[p + 1].1)) by {
                        if q < r0.len() {
                            assert(r@[q] == r0[q]);
                        }
                    }
                }
            }
        }
        p = p + 1;
    }
    proof {
        assert forall|i: int| 0 <= i < s@.len() implies has_key(r@, #[trigger] s@[i].key()) by {
            let pi = lemma_position(sk, orig, i);
            assert(has_key(r@, (sk[pi].0, sk[pi].1)));
        }
    }
    r
}

/// Sorts the items by key, keeping all of them, by insertion: for the short
/// tables of one procedure. Items with equal keys keep their order.
pub fn sort_by_key<T: Keyed>(s: &Vec<T>) -> (r: Vec<T>)
    ensures
        sorted_by_key(r@),
        r@.to_multiset() == s@.to_multiset(),
        r@.len() == s@.len(),
        forall|q: int| 0 <= q < r@.len() ==> s@.contains(#[trigger] r@[q]),
        forall|i: int| 0 <= i < s@.len() ==> r@.contains(#[trigger] s@[i]),
{
    broadcast use vstd::seq_lib::group_to_multiset_ensures;
    let mut r: Vec<T> = Vec::new();
    let mut i: usize = 0;
    while i < s.len()
        invariant
            0 <= i <= s@.len(),
            sorted_by_key(r@),
            r@.len() == i,
            r@.to_multiset() == s@.take(i as int).to_multiset(),
        decreases s@.len() - i,
    {
        let x = s[i].duplicate();
        let k = x.sort_key();
        let mut p: usize = r.len();
        while p > 0 && !key_le_exec(r[p - 1].sort_key(), k)
            invariant
                p <= r@.len(),
                forall|q: int| p <= q < r@.len() ==> !key_le(#[trigger] r@[q].key(), k),
            decreases p,
        {
            p = p - 1;
        }
        let ghost before = r@;
        proof {
            assert forall|q: int| 0 <= q < p implies key_le(#[trigger] before[q].key(), k) by {
                if q < p - 1 {
                    assert(key_le(before[q].key(), before[p - 1].key()));
                }
            }
        }
        r.insert(p, x);
        proof {
            assert(r@ == before.insert(p as int, x));
            vstd::seq_lib::to_multiset_insert(before, p as int, x);
            assert(s@.take(i + 1) =~= s@.take(i as int).push(s@[i as int]));
            vstd::seq_lib::to_multiset_build(s@.take(i as int), s@[i as int]);
            assert forall|a: int, b: int| 0 <= a < b < r@.len() implies key_le(#[trigger] r@[a].key(), #[trigger] r@[b].key()) by {
                if b < p {
                    assert(key_le(before[a].key(), before[b].key()));
                } else if b == p {
                    assert(key_le(before[a].key(), k));
                } else if a < p {
                    assert(key_le(before[a].key(), k));
                    assert(!key_le(before[b - 1].key(), k));
                } else if a == p {
                    assert(!key_le(before[b - 1].key(), k));
                } else {
                    assert(key_le(before[a - 1].key(), before[b - 1].key()));
                }
            }
        }
        i = i + 1;
    }
    proof {
        assert(s@.take(s@.len() as int) =~= s@);
        assert forall|q: int| 0 <= q < r@.len() implies s@.contains(#[trigger] r@[q]) by {
            vstd::seq_lib::to_multiset_contains(r@, r@[q]);
            vstd::seq_lib::to_multiset_contains(s@, r@[q]);
        }
        assert forall|q: int| 0 <= q < s@.len() implies r@.contains(#[trigger] s@[q]) by {
            vstd::seq_lib::to_multiset_contains(r@, s@[q]);
            vstd::seq_lib::to_multiset_contains(s@, s@[q]);
        }
    }
    r
}

} // verus!
