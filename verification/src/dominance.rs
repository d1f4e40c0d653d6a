use vstd::prelude::*;

verus! {

/// `p` dominates `q`: same dimensionality, at least as large in every
/// dimension, and strictly larger in at least one.
pub open spec fn spec_dominates(p: Seq<i64>, q: Seq<i64>) -> bool {
    &&& p.len() == q.len()
    &&& forall|k: int| 0 <= k < p.len() ==> p[k] >= q[k]
    &&& exists|k: int| 0 <= k < p.len() && p[k] > q[k]
}

/// Point `i` belongs to the skyline of `pts`: no other point dominates it.
pub open spec fn in_skyline(pts: Seq<Seq<i64>>, i: int) -> bool {
    forall|j: int| 0 <= j < pts.len() && j != i ==> !spec_dominates(#[trigger] pts[j], pts[i])
}

/// The skyline membership mask of a collection.
pub open spec fn skyline_mask(pts: Seq<Seq<i64>>) -> Seq<bool> {
    Seq::new(pts.len(), |i: int| in_skyline(pts, i))
}

/// No point dominates itself: a strictly larger coordinate cannot exist.
/// In particular, duplicate points never eliminate one another.
pub proof fn lemma_dominates_irreflexive(p: Seq<i64>)
    ensures
        !spec_dominates(p, p),
{
}

/// Dominance is transitive; this is the correctness foundation of both the
/// serial elimination order and the parallel partition strategy.
pub proof fn lemma_dominates_transitive(p: Seq<i64>, q: Seq<i64>, r: Seq<i64>)
    requires
        spec_dominates(p, q),
        spec_dominates(q, r),
    ensures
        spec_dominates(p, r),
{
    let k = choose|k: int| 0 <= k < q.len() && q[k] > r[k];
    assert(p[k] > r[k]);
}

/// Executable dominance test; short-circuits to `false` as soon as some
/// coordinate of `p` is strictly below the corresponding one of `q`.
pub fn dominates(p: &[i64], q: &[i64]) -> (r: bool)
    requires
        p@.len() == q@.len(),
    ensures
        r == spec_dominates(p@, q@),
{
    let mut strict: bool = false;
    let mut k: usize = 0;
    while k < p.len()
        invariant
            p@.len() == q@.len(),
            k <= p@.len(),
            forall|t: int| 0 <= t < k ==> p@[t] >= q@[t],
            strict == exists|t: int| 0 <= t < k && p@[t] > q@[t],
        decreases p@.len() - k,
    {
        if p[k] < q[k] {
            return false;
        }
        if p[k] > q[k] {
            strict = true;
        }
        k += 1;
    }
    strict
}

} // verus!
