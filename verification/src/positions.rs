//! Sets of token positions held as strictly increasing vectors.
use vstd::prelude::*;

verus! {

pub open spec fn strictly_sorted(v: Seq<usize>) -> bool {
    forall|i: int, j: int| 0 <= i < j < v.len() ==> v[i] < v[j]
}

/// The positions a vector holds.
pub open spec fn vec_set(v: Seq<usize>) -> Set<int> {
    Set::new(|e: int| exists|i: int| 0 <= i < v.len() && v[i] as int == e)
}

/// Every position of `v` lies in `[lo, hi]`.
pub open spec fn within(v: Seq<usize>, lo: int, hi: int) -> bool {
    forall|i: int| 0 <= i < v.len() ==> lo <= #[trigger] v[i] <= hi
}

/// A strictly increasing vector of positions in `[lo, hi]` has at most `hi - lo + 1` entries.
pub proof fn lemma_sorted_len_bound(v: Seq<usize>, lo: int, hi: int)
    requires
        strictly_sorted(v),
        within(v, lo, hi),
    ensures
        v.len() <= hi - lo + 1 || v.len() == 0,
    decreases v.len(),
{
    if v.len() >= 1 {
        assert(lo <= v[0] <= hi);
    }
    if v.len() > 1 {
        let w = v.drop_last();
        assert(strictly_sorted(w));
        assert(within(w, lo, v[v.len() - 1] - 1)) by {
            assert forall|i: int| 0 <= i < w.len() implies lo <= #[trigger] w[i] <= v[v.len() - 1] - 1 by {
                assert(v[i] < v[v.len() - 1]);
            }
        }
        lemma_sorted_len_bound(w, lo, v[v.len() - 1] - 1);
    }
}

/// Whether `x` is among the positions of a strictly increasing vector.
pub fn contains_pos(v: &Vec<usize>, x: usize) -> (b: bool)
    ensures
        b == vec_set(v@).contains(x as int),
{
    let mut i: usize = 0;
    while i < v.len()
        invariant
            i <= v.len(),
            forall|j: int| 0 <= j < i ==> v@[j] != x,
        decreases v.len() - i,
    {
        if v[i] == x {
            assert(vec_set(v@).contains(x as int));
            return true;
        }
        i += 1;
    }
    false
}

/// Adds a position to a strictly increasing vector; reports whether it was new.
pub fn insert_pos(v: &mut Vec<usize>, x: usize) -> (added: bool)
    requires
        strictly_sorted(old(v)@),
    ensures
        strictly_sorted(final(v)@),
        vec_set(final(v)@) == vec_set(old(v)@).insert(x as int),
        added == !vec_set(old(v)@).contains(x as int),
        final(v)@.len() == old(v)@.len() + (if added { 1int } else { 0int }),
        forall|i: int|
            0 <= i < final(v)@.len() ==> final(v)@[i] == x || vec_set(old(v)@).contains(
                final(v)@[i] as int,
            ),
{
    let mut i: usize = 0;
    while i < v.len() && v[i] < x
        invariant
            i <= v.len(),
            forall|j: int| 0 <= j < i ==> v@[j] < x,
        decreases v.len() - i,
    {
        i += 1;
    }
    if i < v.len() && v[i] == x {
        assert(vec_set(v@).contains(x as int));
        assert(vec_set(v@) =~= vec_set(v@).insert(x as int));
        return false;
    }
    let ghost old_v = v@;
    v.insert(i, x);
    proof {
        old_v.insert_ensures(i as int, x);
        assert(strictly_sorted(v@)) by {
            assert forall|a: int, b: int| 0 <= a < b < v@.len() implies v@[a] < v@[b] by {
                if b < i {
                } else if b == i {
                    assert(old_v[a] < x);
                } else if a < i {
                    assert(old_v[a] < x);
                    assert(old_v[b - 1] > x) by {
                        assert(old_v[i as int] > x);
                        if b - 1 > i {
                            assert(old_v[i as int] < old_v[b - 1]);
                        }
                    }
                } else if a == i {
                    assert(old_v[i as int] > x);
                    if b - 1 > i {
                        assert(old_v[i as int] < old_v[b - 1]);
                    }
                } else {
                    assert(old_v[a - 1] < old_v[b - 1]);
                }
            }
        }
        assert(vec_set(v@) =~= vec_set(old_v).insert(x as int)) by {
            assert forall|e: int| vec_set(old_v).insert(x as int).contains(e) implies vec_set(v@).contains(e) by {
                if e == x {
                    assert(v@[i as int] == x);
                } else {
                    let j = choose|j: int| 0 <= j < old_v.len() && #[trigger] old_v[j] as int == e;
                    if j < i {
                        assert(v@[j] == old_v[j]);
                    } else {
                        assert(v@[j + 1] == old_v[j]);
                    }
                }
            }
            assert forall|e: int| vec_set(v@).contains(e) implies vec_set(old_v).insert(x as int).contains(e) by {
                let j = choose|j: int| 0 <= j < v@.len() && #[trigger] v@[j] as int == e;
                if j < i {
                    assert(old_v[j] == v@[j]);
                } else if j > i {
                    assert(old_v[j - 1] == v@[j]);
                }
            }
        }
        assert(!vec_set(old_v).contains(x as int)) by {
            if vec_set(old_v).contains(x as int) {
                let j = choose|j: int| 0 <= j < old_v.len() && #[trigger] old_v[j] as int == x;
                if j < i {
                    assert(old_v[j] < x);
                } else if j == i {
                } else {
                    assert(old_v[i as int] < old_v[j]);
                    assert(old_v[i as int] > x);
                }
            }
        }
        assert forall|k: int| 0 <= k < v@.len() implies v@[k] == x || vec_set(old_v).contains(v@[k] as int) by {
            if k < i {
                assert(v@[k] == old_v[k]);
            } else if k > i {
                assert(v@[k] == old_v[k - 1]);
            }
        }
    }
    true
}

/// The positions among the first `k` entries of `v`.
pub open spec fn prefix_set(v: Seq<usize>, k: int) -> Set<int> {
    Set::new(|e: int| exists|j: int| 0 <= j < k && j < v.len() && v[j] as int == e)
}

/// Adds all positions of `src` to `dst`.
pub fn union_into(dst: &mut Vec<usize>, src: &Vec<usize>)
    requires
        strictly_sorted(old(dst)@),
    ensures
        strictly_sorted(final(dst)@),
        vec_set(final(dst)@) == vec_set(old(dst)@).union(vec_set(src@)),
        forall|i: int|
            0 <= i < final(dst)@.len() ==> vec_set(old(dst)@).contains(final(dst)@[i] as int)
                || vec_set(src@).contains(final(dst)@[i] as int),
{
    let ghost d0 = dst@;
    let mut k: usize = 0;
    while k < src.len()
        invariant
            k <= src.len(),
            strictly_sorted(dst@),
            vec_set(dst@) == vec_set(d0).union(prefix_set(src@, k as int)),
            forall|i: int|
                0 <= i < dst@.len() ==> vec_set(d0).contains(dst@[i] as int) || vec_set(
                    src@,
                ).contains(dst@[i] as int),
        decreases src.len() - k,
    {
        let ghost before = dst@;
        insert_pos(dst, src[k]);
        proof {
            assert(prefix_set(src@, k + 1) =~= prefix_set(src@, k as int).insert(src@[k as int] as int));
            assert(vec_set(dst@) =~= vec_set(d0).union(prefix_set(src@, k + 1)));
            assert forall|i: int| 0 <= i < dst@.len() implies vec_set(d0).contains(dst@[i] as int) || vec_set(src@).contains(dst@[i] as int) by {
                if dst@[i] == src@[k as int] {
                    assert(vec_set(src@).contains(src@[k as int] as int));
                } else {
                    let j = choose|j: int| 0 <= j < before.len() && #[trigger] before[j] as int == dst@[i] as int;
                    assert(before[j] == dst@[i]);
                }
            }
        }
        k += 1;
    }
    assert(prefix_set(src@, src.len() as int) =~= vec_set(src@));
}

} // verus!
