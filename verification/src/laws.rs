use vstd::prelude::*;

use crate::counting::count_true;
use crate::dominance::{in_skyline, skyline_mask, spec_dominates};

verus! {

/// The coordinate tuples of the skyline members of a collection.
pub open spec fn skyline_point_set(pts: Seq<Seq<i64>>) -> Set<Seq<i64>> {
    Set::new(
        |tup: Seq<i64>|
            exists|i: int| 0 <= i < pts.len() && #[trigger] in_skyline(pts, i) && pts[i] == tup,
    )
}

/// Worker-count irrelevance: the engines' contracts pin their results — the
/// skyline mask and its count of `true` entries — so any two results for the
/// same collection coincide, whatever worker counts produced them; in
/// particular the parallel engine always agrees with the serial one.
pub proof fn lemma_worker_count_irrelevant(
    pts: Seq<Seq<i64>>,
    m1: Seq<bool>,
    c1: nat,
    m2: Seq<bool>,
    c2: nat,
)
    requires
        m1 == skyline_mask(pts),
        c1 == count_true(m1),
        m2 == skyline_mask(pts),
        c2 == count_true(m2),
    ensures
        m1 == m2,
        c1 == c2,
{
}

/// An empty collection has an empty mask and count zero.
pub proof fn lemma_skyline_empty(pts: Seq<Seq<i64>>)
    requires
        pts.len() == 0,
    ensures
        skyline_mask(pts) == Seq::<bool>::empty(),
        count_true(skyline_mask(pts)) == 0,
{
    assert(skyline_mask(pts) =~= Seq::<bool>::empty());
}

/// A lone point always forms the whole skyline: mask `[true]`, count one.
pub proof fn lemma_skyline_singleton(pts: Seq<Seq<i64>>)
    requires
        pts.len() == 1,
    ensures
        skyline_mask(pts) == seq![true],
        count_true(skyline_mask(pts)) == 1,
{
    assert(in_skyline(pts, 0));
    assert(skyline_mask(pts) =~= seq![true]);
    assert(seq![true].drop_last() =~= Seq::<bool>::empty());
    assert(count_true(Seq::<bool>::empty()) == 0);
}

/// Permutation invariance: under a bijection `f` (with inverse `g`) carrying
/// each point of `pts2` to an equal point of `pts1`, skyline membership
/// corresponds pointwise, and both collections carry the same set of skyline
/// coordinate tuples.
pub proof fn lemma_skyline_permutation(
    pts1: Seq<Seq<i64>>,
    pts2: Seq<Seq<i64>>,
    f: spec_fn(int) -> int,
    g: spec_fn(int) -> int,
)
    requires
        pts1.len() == pts2.len(),
        forall|i: int| 0 <= i < pts2.len() ==> 0 <= #[trigger] f(i) < pts1.len(),
        forall|j: int| 0 <= j < pts1.len() ==> 0 <= #[trigger] g(j) < pts2.len(),
        forall|i: int| 0 <= i < pts2.len() ==> g(#[trigger] f(i)) == i,
        forall|j: int| 0 <= j < pts1.len() ==> f(#[trigger] g(j)) == j,
        forall|i: int| 0 <= i < pts2.len() ==> pts2[i] == pts1[#[trigger] f(i)],
    ensures
        forall|i: int|
            0 <= i < pts2.len() ==> #[trigger] in_skyline(pts2, i) == in_skyline(pts1, f(i)),
        skyline_point_set(pts2) == skyline_point_set(pts1),
{
    assert forall|i: int|
        0 <= i < pts2.len() implies #[trigger] in_skyline(pts2, i) == in_skyline(
        pts1,
        f(i),
    ) by {
        if in_skyline(pts2, i) {
            assert forall|j: int|
                0 <= j < pts1.len() && j != f(i) implies !spec_dominates(
                #[trigger] pts1[j],
                pts1[f(i)],
            ) by {
                assert(pts2[g(j)] == pts1[f(g(j))]);
                assert(g(j) != i);
                assert(!spec_dominates(pts2[g(j)], pts2[i]));
            }
            assert(in_skyline(pts1, f(i)));
        }
        if in_skyline(pts1, f(i)) {
            assert forall|j: int|
                0 <= j < pts2.len() && j != i implies !spec_dominates(
                #[trigger] pts2[j],
                pts2[i],
            ) by {
                assert(pts2[j] == pts1[f(j)]);
                assert(f(j) != f(i));
                assert(!spec_dominates(pts1[f(j)], pts1[f(i)]));
            }
            assert(in_skyline(pts2, i));
        }
    }
    assert forall|tup: Seq<i64>|
        skyline_point_set(pts2).contains(tup) implies skyline_point_set(pts1).contains(tup) by {
        let i = choose|i: int|
            0 <= i < pts2.len() && #[trigger] in_skyline(pts2, i) && pts2[i] == tup;
        assert(0 <= f(i) < pts1.len() && in_skyline(pts1, f(i)) && pts1[f(i)] == tup);
    }
    assert forall|tup: Seq<i64>|
        skyline_point_set(pts1).contains(tup) implies skyline_point_set(pts2).contains(tup) by {
        let j = choose|j: int|
            0 <= j < pts1.len() && #[trigger] in_skyline(pts1, j) && pts1[j] == tup;
        assert(pts2[g(j)] == pts1[f(g(j))]);
        assert(in_skyline(pts2, g(j)) == in_skyline(pts1, f(g(j))));
        assert(0 <= g(j) < pts2.len() && in_skyline(pts2, g(j)) && pts2[g(j)] == tup);
    }
    assert(skyline_point_set(pts2) =~= skyline_point_set(pts1));
}

} // verus!
