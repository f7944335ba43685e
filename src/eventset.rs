use vstd::prelude::*;
use crate::ocel::strictly_ascending;

verus! {

/// Whether `v` holds `x`.
pub fn contains_id(v: &Vec<usize>, x: usize) -> (r: bool)
    ensures
        r == v@.contains(x),
{
    let mut i: usize = 0;
    while i < v.len()
        invariant
            i <= v.len(),
            forall|j: int| 0 <= j < i ==> v@[j] != x,
        decreases v.len() - i,
    {
        if v[i] == x {
            return true;
        }
        i = i + 1;
    }
    false
}

/// Adds `x` to the set held in `v` unless it is there already.
pub fn insert_id(v: &mut Vec<usize>, x: usize)
    requires
        old(v)@.no_duplicates(),
    ensures
        final(v)@.no_duplicates(),
        final(v)@.to_set() == old(v)@.to_set().insert(x),
{
    if !contains_id(v, x) {
        v.push(x);
        proof {
            old(v)@.lemma_push_to_set_commute(x);
        }
    } else {
        assert(old(v)@.to_set().contains(x));
        assert(final(v)@.to_set() =~= old(v)@.to_set().insert(x));
    }
}

/// Adds every element of `src` to the set held in `v`.
pub fn extend_ids(v: &mut Vec<usize>, src: &Vec<usize>)
    requires
        old(v)@.no_duplicates(),
    ensures
        final(v)@.no_duplicates(),
        final(v)@.to_set() == old(v)@.to_set().union(src@.to_set()),
{
    let mut i: usize = 0;
    while i < src.len()
        invariant
            i <= src.len(),
            v@.no_duplicates(),
            v@.to_set() == old(v)@.to_set().union(src@.subrange(0, i as int).to_set()),
        decreases src.len() - i,
    {
        insert_id(v, src[i]);
        assert(src@.subrange(0, i + 1) =~= src@.subrange(0, i as int).push(src@[i as int]));
        proof {
            src@.subrange(0, i as int).lemma_push_to_set_commute(src@[i as int]);
        }
        i = i + 1;
    }
    assert(src@.subrange(0, src.len() as int) =~= src@);
    assert(final(v)@.to_set() =~= old(v)@.to_set().union(src@.to_set()));
}

/// The elements of `v` as a set without repetition.
pub fn id_set(v: &Vec<usize>) -> (r: Vec<usize>)
    ensures
        r@.no_duplicates(),
        r@.to_set() == v@.to_set(),
{
    let mut r: Vec<usize> = Vec::new();
    extend_ids(&mut r, v);
    assert(r@.to_set() =~= Seq::<usize>::empty().to_set().union(v@.to_set()));
    r
}

/// Whether the two sequences are equal.
pub fn same_ids(a: &Vec<usize>, b: &Vec<usize>) -> (r: bool)
    ensures
        r == (a@ == b@),
{
    if a.len() != b.len() {
        return false;
    }
    let mut i: usize = 0;
    while i < a.len()
        invariant
            i <= a.len(),
            a.len() == b.len(),
            forall|j: int| 0 <= j < i ==> a@[j] == b@[j],
        decreases a.len() - i,
    {
        if a[i] != b[i] {
            return false;
        }
        i = i + 1;
    }
    assert(a@ =~= b@);
    true
}

/// Whether every element of `small` occurs in `big`.
pub fn all_contained(small: &Vec<usize>, big: &Vec<usize>) -> (r: bool)
    ensures
        r == (forall|j: int| 0 <= j < small.len() ==> big@.contains(#[trigger] small@[j])),
{
    let mut i: usize = 0;
    while i < small.len()
        invariant
            i <= small.len(),
            forall|j: int| 0 <= j < i ==> big@.contains(#[trigger] small@[j]),
        decreases small.len() - i,
    {
        if !contains_id(big, small[i]) {
            return false;
        }
        i = i + 1;
    }
    true
}

/// The common elements of two ascending sequences, found by walking both at once.
pub fn intersection_count_sorted_vec(a: &Vec<usize>, b: &Vec<usize>) -> (r: Vec<usize>)
    requires
        strictly_ascending(a@),
        strictly_ascending(b@),
    ensures
        r@.no_duplicates(),
        r@.to_set() == a@.to_set().intersect(b@.to_set()),
{
    let mut r: Vec<usize> = Vec::new();
    let mut i: usize = 0;
    let mut j: usize = 0;
    while i < a.len() && j < b.len()
        invariant
            i <= a.len(),
            j <= b.len(),
            strictly_ascending(a@),
            strictly_ascending(b@),
            strictly_ascending(r@),
            forall|k: int| 0 <= k < r.len() ==> a@.subrange(0, i as int).contains(#[trigger] r@[k]),
            forall|k: int| 0 <= k < r.len() ==> b@.contains(#[trigger] r@[k]),
            forall|k: int| 0 <= k < r.len() && i < a.len() ==> #[trigger] r@[k] < a@[i as int],
            forall|x: usize|
                a@.subrange(0, i as int).contains(x) && b@.contains(x) ==> #[trigger] r@.contains(x),
            forall|k: int| 0 <= k < j && i < a.len() ==> #[trigger] b@[k] < a@[i as int],
            forall|k: int| 0 <= k < i && j < b.len() ==> #[trigger] a@[k] < b@[j as int],
        decreases a.len() - i + b.len() - j,
    {
        let x = a[i];
        let y = b[j];
        if x < y {
            proof {
                assert forall|z: usize|
                    a@.subrange(0, i + 1).contains(z) && b@.contains(z) implies #[trigger] r@.contains(z) by {
                    if z == x {
                        let k = choose|k: int| 0 <= k < b.len() && b@[k] == z;
                        if k < j {
                        } else if k > j {
                            assert(b@[j as int] < b@[k]);
                        }
                    } else {
                        assert(a@.subrange(0, i as int).contains(z)) by {
                            let k = choose|k: int| 0 <= k < i + 1 && #[trigger] a@.subrange(0, i + 1)[k] == z;
                            assert(a@.subrange(0, i as int)[k] == z);
                        }
                    }
                }
                assert forall|k: int| 0 <= k < r.len() implies a@.subrange(0, i + 1).contains(
                    #[trigger] r@[k],
                ) by {
                    let m = choose|m: int| 0 <= m < i && #[trigger] a@.subrange(0, i as int)[m] == r@[k];
                    assert(a@.subrange(0, i + 1)[m] == r@[k]);
                }
            }
            i = i + 1;
        } else if y < x {
            j = j + 1;
        } else {
            let ghost r0 = r@;
            r.push(x);
            proof {
                assert forall|z: usize|
                    a@.subrange(0, i + 1).contains(z) && b@.contains(z) implies #[trigger] r@.contains(z) by {
                    if z == x {
                        assert(r@[r.len() - 1] == z);
                    } else {
                        let k = choose|k: int| 0 <= k < i + 1 && #[trigger] a@.subrange(0, i + 1)[k] == z;
                        assert(a@.subrange(0, i as int)[k] == z);
                        assert(r0.contains(z));
                        let m = choose|m: int| 0 <= m < r0.len() && r0[m] == z;
                        assert(r@[m] == z);
                    }
                }
                assert forall|k: int| 0 <= k < r.len() implies a@.subrange(0, i + 1).contains(
                    #[trigger] r@[k],
                ) by {
                    if k == r.len() - 1 {
                        assert(a@.subrange(0, i + 1)[i as int] == r@[k]);
                    } else {
                        let m = choose|m: int| 0 <= m < i && #[trigger] a@.subrange(0, i as int)[m] == r@[k];
                        assert(a@.subrange(0, i + 1)[m] == r@[k]);
                    }
                }
                assert(b@[j as int] == r@[r.len() - 1]);
            }
            i = i + 1;
            j = j + 1;
        }
    }
    proof {
        assert forall|x: usize| a@.contains(x) && b@.contains(x) implies r@.contains(x) by {
            let ka = choose|k: int| 0 <= k < a.len() && a@[k] == x;
            let kb = choose|k: int| 0 <= k < b.len() && b@[k] == x;
            if ka < i {
                assert(a@.subrange(0, i as int)[ka] == x);
            } else if j >= b.len() {
                assert(b@[kb] < a@[i as int]);
                assert(a@[i as int] <= a@[ka]);
            } else {
                assert(a@[ka] < b@[j as int]);
                assert(b@[j as int] <= b@[kb]);
            }
        }
        assert forall|k: int| 0 <= k < r.len() implies a@.contains(#[trigger] r@[k]) by {
            let m = choose|m: int| 0 <= m < i && #[trigger] a@.subrange(0, i as int)[m] == r@[k];
            assert(a@[m] == r@[k]);
        }
        assert(r@.no_duplicates()) by {
            assert forall|p: int, q: int| 0 <= p < r.len() && 0 <= q < r.len() && p != q implies r@[p]
                != r@[q] by {
                if p < q {
                } else {
                }
            }
        }
        assert forall|x: usize| r@.to_set().contains(x) == a@.to_set().intersect(b@.to_set()).contains(
            x,
        ) by {
            if r@.contains(x) {
                let k = choose|k: int| 0 <= k < r.len() && r@[k] == x;
                assert(a@.contains(r@[k]));
                assert(b@.contains(r@[k]));
            }
        }
        assert(r@.to_set() =~= a@.to_set().intersect(b@.to_set()));
    }
    r
}

/// A copy of `v`.
pub fn copy_ids(v: &Vec<usize>) -> (r: Vec<usize>)
    ensures
        r@ == v@,
{
    let mut r: Vec<usize> = Vec::new();
    let mut i: usize = 0;
    while i < v.len()
        invariant
            i <= v.len(),
            r@ == v@.subrange(0, i as int),
        decreases v.len() - i,
    {
        r.push(v[i]);
        assert(v@.subrange(0, i + 1) =~= v@.subrange(0, i as int).push(v@[i as int]));
        i = i + 1;
    }
    assert(v@.subrange(0, v.len() as int) =~= v@);
    r
}

} // verus!
