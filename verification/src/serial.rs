use vstd::prelude::*;

use crate::counting::{count_true, lemma_count_true_push, lemma_count_true_update};
use crate::dominance::{
    dominates, in_skyline, lemma_dominates_irreflexive, lemma_dominates_transitive, skyline_mask,
    spec_dominates,
};
use crate::points::Points;

verus! {

/// Serial quadratic elimination.
///
/// Every point starts active; each still-active point `i` deactivates every
/// active point it dominates, over the full index range. A deactivated point
/// is skipped as a future source of domination, which loses nothing: by
/// transitivity of dominance, whatever it would have eliminated is already
/// eliminated by one of its own dominators.
///
/// The returned mask is exactly the skyline membership mask, and the returned
/// count is exactly the number of `true` entries of the mask.
#[verifier::loop_isolation(false)]
pub fn skyline(points: &Points) -> (res: (Vec<bool>, usize))
    requires
        points.wf(),
    ensures
        res.0@.len() == points.n,
        res.0@ == skyline_mask(points@),
        forall|i: int| 0 <= i < points.n ==> res.0@[i] == in_skyline(points@, i),
        res.1 == count_true(res.0@),
{
    let n: usize = points.n;
    let mut s: Vec<bool> = Vec::new();
    let mut t: usize = 0;
    while t < n
        invariant
            s@.len() == t,
            t <= n,
            forall|x: int| 0 <= x < t ==> s@[x],
            count_true(s@) == t,
        decreases n - t,
    {
        proof {
            lemma_count_true_push(s@, true);
        }
        s.push(true);
        t += 1;
    }
    let mut r: usize = n;
    let mut i: usize = 0;
    while i < n
        invariant
            s@.len() == n,
            i <= n,
            r == count_true(s@),
            // Every deactivated point is dominated by an already-processed point.
            forall|x: int| 0 <= x < n && !(#[trigger] s@[x]) ==> exists|y: int|
                0 <= y < i && y != x && #[trigger] spec_dominates(points@[y], points@[x]),
            // No processed point dominates any still-active point.
            forall|a: int, j: int|
                0 <= a < i && 0 <= j < n && s@[j] ==> !(#[trigger] spec_dominates(
                    points@[a],
                    points@[j],
                )),
        decreases n - i,
    {
        if s[i] {
            let mut j: usize = 0;
            while j < n
                invariant
                    s@.len() == n,
                    j <= n,
                    i < n,
                    s@[i as int],
                    r == count_true(s@),
                    forall|x: int| 0 <= x < n && !(#[trigger] s@[x]) ==> exists|y: int|
                        0 <= y <= i && y != x && #[trigger] spec_dominates(
                            points@[y],
                            points@[x],
                        ),
                    forall|a: int, jj: int|
                        0 <= a < i && 0 <= jj < n && s@[jj] ==> !(#[trigger] spec_dominates(
                            points@[a],
                            points@[jj],
                        )),
                    forall|jj: int|
                        0 <= jj < j && s@[jj] ==> !spec_dominates(
                            points@[i as int],
                            #[trigger] points@[jj],
                        ),
                decreases n - j,
            {
                proof {
                    assert(points@[i as int].len() == points.d);
                    assert(points@[j as int].len() == points.d);
                }
                if s[j] && dominates(points.p[i].as_slice(), points.p[j].as_slice()) {
                    proof {
                        assert(spec_dominates(points@[i as int], points@[j as int]));
                        lemma_dominates_irreflexive(points@[i as int]);
                        assert(i != j);
                        lemma_count_true_update(s@, j as int, false);
                    }
                    s.set(j, false);
                    r = r - 1;
                }
                j += 1;
            }
        } else {
            proof {
                assert forall|jj: int|
                    0 <= jj < n && s@[jj] implies !spec_dominates(
                    points@[i as int],
                    points@[jj],
                ) by {
                    if spec_dominates(points@[i as int], points@[jj]) {
                        let y = choose|y: int|
                            0 <= y < i && y != i as int && spec_dominates(
                                points@[y],
                                points@[i as int],
                            );
                        lemma_dominates_transitive(points@[y], points@[i as int], points@[jj]);
                    }
                }
            }
        }
        i += 1;
    }
    proof {
        assert forall|x: int| 0 <= x < n implies s@[x] == in_skyline(points@, x) by {
            if s@[x] {
                assert forall|jq: int|
                    0 <= jq < points@.len() && jq != x implies !spec_dominates(
                    points@[jq],
                    points@[x],
                ) by {}
            } else {
                let y = choose|y: int|
                    0 <= y < n && y != x && spec_dominates(points@[y], points@[x]);
                assert(!in_skyline(points@, x));
            }
        }
        assert(s@ =~= skyline_mask(points@));
    }
    (s, r)
}

} // verus!
