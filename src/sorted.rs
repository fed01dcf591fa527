//! Sorted vectors of coordinates used as sets: sorting, removing repeats and
//! searching.

use rayon::slice::ParallelSliceMut;
use vstd::prelude::*;

use crate::world::{coord_lt, sorted_strictly, Coord};

verus! {

/// Ascending, repeats allowed.
pub open spec fn sorted_weakly(s: Seq<Coord>) -> bool {
    forall|i: int, j: int| 0 <= i < j < s.len() ==> !coord_lt(#[trigger] s[j], #[trigger] s[i])
}

/// The exec form of `coord_lt`.
fn less(a: Coord, b: Coord) -> (r: bool)
    ensures
        r == coord_lt(a, b),
{
    a.0 < b.0 || (a.0 == b.0 && a.1 < b.1)
}

/// Relies on rayon's `ParallelSliceMut::par_sort_unstable_by_key`: the
/// vector is permuted into ascending order of the key, here `(x, y)`, whose
/// order is that of `coord_lt`.
#[verifier::external_body]
fn par_sort(v: &mut Vec<Coord>)
    ensures
        final(v)@.to_multiset() == old(v)@.to_multiset(),
        sorted_weakly(final(v)@),
{
    v.par_sort_unstable_by_key(|c| (c.0, c.1));
}

/// A permutation holds the same elements.
proof fn lemma_permutation_same_set(a: Seq<Coord>, b: Seq<Coord>)
    requires
        a.to_multiset() == b.to_multiset(),
    ensures
        a.to_set() == b.to_set(),
{
    broadcast use vstd::seq_lib::group_to_multiset_ensures;

    assert forall|c: Coord| a.to_set().contains(c) <==> b.to_set().contains(c) by {
        assert(a.contains(c) <==> a.to_multiset().contains(c));
        assert(b.contains(c) <==> b.to_multiset().contains(c));
    }
    assert(a.to_set() =~= b.to_set());
}

/// Sorts `v` and removes its repeats: afterwards it is strictly ascending and
/// holds the same cells.
pub fn sort_dedup(v: &mut Vec<Coord>)
    ensures
        sorted_strictly(final(v)@),
        final(v)@.to_set() == old(v)@.to_set(),
{
    par_sort(v);
    proof {
        lemma_permutation_same_set(old(v)@, v@);
    }
    let ghost sorted = v@;
    let mut out: Vec<Coord> = Vec::with_capacity(v.len());
    let mut i: usize = 0;
    while i < v.len()
        invariant
            v@ == sorted,
            sorted_weakly(sorted),
            i <= sorted.len(),
            sorted_strictly(out@),
            out@.to_set() == sorted.subrange(0, i as int).to_set(),
            i > 0 ==> out@.len() > 0 && out@.last() == sorted[i - 1],
            i == 0 ==> out@.len() == 0,
        decreases sorted.len() - i,
    {
        let c = v[i];
        let ghost before = out@;
        assert(sorted.subrange(0, i + 1) =~= sorted.subrange(0, i as int).push(c));
        proof {
            sorted.subrange(0, i as int).lemma_push_to_set_commute(c);
            before.lemma_push_to_set_commute(c);
        }
        if out.len() == 0 || out[out.len() - 1] != c {
            proof {
                if out@.len() > 0 {
                    assert(!coord_lt(c, sorted[i - 1]));
                    assert forall|k: int| 0 <= k < out@.len() implies coord_lt(
                        #[trigger] out@[k],
                        c,
                    ) by {
                        if k < out@.len() - 1 {
                            assert(coord_lt(out@[k], out@.last()));
                        }
                    }
                }
            }
            out.push(c);
            assert(out@ == before.push(c));
            assert(out@.to_set() =~= sorted.subrange(0, i + 1).to_set());
        } else {
            proof {
                assert(sorted.subrange(0, i as int).to_set().contains(c)) by {
                    assert(out@.to_set().contains(c));
                }
                assert(out@.to_set() =~= sorted.subrange(0, i + 1).to_set());
            }
        }
        i += 1;
    }
    assert(sorted.subrange(0, sorted.len() as int) =~= sorted);
    *v = out;
}

/// The first index whose cell is not below `c`.
pub fn position(v: &Vec<Coord>, c: Coord) -> (r: usize)
    requires
        sorted_strictly(v@),
    ensures
        r <= v.len(),
        forall|i: int| 0 <= i < r ==> coord_lt(#[trigger] v@[i], c),
        forall|i: int| r <= i < v.len() ==> !coord_lt(#[trigger] v@[i], c),
{
    let mut lo: usize = 0;
    let mut hi: usize = v.len();
    while lo < hi
        invariant
            lo <= hi <= v.len(),
            sorted_strictly(v@),
            forall|i: int| 0 <= i < lo ==> coord_lt(#[trigger] v@[i], c),
            forall|i: int| hi <= i < v.len() ==> !coord_lt(#[trigger] v@[i], c),
        decreases hi - lo,
    {
        let mid = lo + (hi - lo) / 2;
        if less(v[mid], c) {
            lo = mid + 1;
        } else {
            hi = mid;
        }
    }
    lo
}

/// Whether the strictly ascending `v` holds `c`, by binary search.
pub fn contains_sorted(v: &Vec<Coord>, c: Coord) -> (r: bool)
    requires
        sorted_strictly(v@),
    ensures
        r == v@.contains(c),
{
    let p = position(v, c);
    if p < v.len() && v[p] == c {
        true
    } else {
        proof {
            if v@.contains(c) {
                let k = choose|k: int| 0 <= k < v@.len() && v@[k] == c;
                if k < p {
                } else if k > p {
                    assert(coord_lt(v@[p as int], v@[k]));
                }
            }
        }
        false
    }
}

} // verus!
