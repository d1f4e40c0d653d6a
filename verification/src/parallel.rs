use vstd::prelude::*;

use crate::counting::{
    count_true, lemma_count_true_push, lemma_count_true_take_all, lemma_count_true_take_step,
    lemma_count_true_update,
};
use crate::dominance::{
    dominates, in_skyline, lemma_dominates_irreflexive, lemma_dominates_transitive, skyline_mask,
    spec_dominates,
};
use crate::partition::partition;
use crate::points::Points;
use crate::serial;

verus! {

/// Point `i` survives the filter restricted to the index range `[lo, hi)`:
/// no other point of that range dominates it.
pub open spec fn local_in_skyline(pts: Seq<Seq<i64>>, lo: int, hi: int, i: int) -> bool {
    forall|j: int| lo <= j < hi && j != i ==> !spec_dominates(#[trigger] pts[j], pts[i])
}

/// Every global skyline point appears among the candidates.
pub open spec fn candidates_complete(pts: Seq<Seq<i64>>, cands: Seq<usize>) -> bool {
    forall|x: int| 0 <= x < pts.len() && #[trigger] in_skyline(pts, x) ==> cands.contains(x as usize)
}

/// Every point outside the skyline is dominated by some candidate.
pub open spec fn candidates_dominating(pts: Seq<Seq<i64>>, cands: Seq<usize>) -> bool {
    forall|x: int|
        0 <= x < pts.len() && !(#[trigger] in_skyline(pts, x)) ==> exists|k: int|
            0 <= k < cands.len() && spec_dominates(pts[cands[k] as int], pts[x])
}

/// The entries grow strictly; in particular they are pairwise distinct.
pub open spec fn strictly_increasing(s: Seq<usize>) -> bool {
    forall|k1: int, k2: int| 0 <= k1 < k2 < s.len() ==> s[k1] < s[k2]
}

proof fn lemma_seq_push_contains<T>(s: Seq<T>, v: T, x: T)
    ensures
        s.push(v).contains(x) <==> (s.contains(x) || x == v),
{
    if s.push(v).contains(x) {
        let k = choose|k: int| 0 <= k < s.push(v).len() && s.push(v)[k] == x;
        if k < s.len() {
            assert(s[k] == x);
        }
    }
    if s.contains(x) {
        let k = choose|k: int| 0 <= k < s.len() && s[k] == x;
        assert(s.push(v)[k] == x);
    }
    if x == v {
        assert(s.push(v)[s.len() as int] == x);
    }
}

/// Local filter over the index range `[start, end)`: collect, in increasing
/// order, the original indices of the points not dominated by any other point
/// of the same range. Cross-range domination is deliberately ignored; it is
/// resolved later by the merge phase.
#[verifier::loop_isolation(false)]
pub fn local_skyline(points: &Points, start: usize, end: usize) -> (v: Vec<usize>)
    requires
        points.wf(),
        start <= end,
        end <= points.n,
    ensures
        forall|k: int| 0 <= k < v@.len() ==> start <= #[trigger] v@[k] < end,
        strictly_increasing(v@),
        forall|x: usize|
            start <= x < end ==> (#[trigger] v@.contains(x) <==> local_in_skyline(
                points@,
                start as int,
                end as int,
                x as int,
            )),
{
    let mut v: Vec<usize> = Vec::new();
    let mut i: usize = start;
    while i < end
        invariant
            start <= i <= end,
            forall|k: int| 0 <= k < v@.len() ==> start <= #[trigger] v@[k] < i,
            strictly_increasing(v@),
            forall|x: usize|
                start <= x < i ==> (#[trigger] v@.contains(x) <==> local_in_skyline(
                    points@,
                    start as int,
                    end as int,
                    x as int,
                )),
        decreases end - i,
    {
        let mut dominated = false;
        let mut j: usize = start;
        while j < end && !dominated
            invariant
                start <= j <= end,
                i < end,
                dominated ==> exists|j0: int|
                    start <= j0 < end && j0 != i && #[trigger] spec_dominates(
                        points@[j0],
                        points@[i as int],
                    ),
                !dominated ==> forall|j0: int|
                    start <= j0 < j && j0 != i ==> !spec_dominates(
                        #[trigger] points@[j0],
                        points@[i as int],
                    ),
            decreases end - j,
        {
            proof {
                assert(points@[i as int].len() == points.d);
                assert(points@[j as int].len() == points.d);
            }
            if i != j && dominates(points.p[j].as_slice(), points.p[i].as_slice()) {
                dominated = true;
            }
            j += 1;
        }
        if !dominated {
            let ghost oldv = v@;
            v.push(i);
            proof {
                assert(local_in_skyline(points@, start as int, end as int, i as int));
                assert forall|x: usize|
                    start <= x < i + 1 implies (v@.contains(x) <==> local_in_skyline(
                    points@,
                    start as int,
                    end as int,
                    x as int,
                )) by {
                    lemma_seq_push_contains(oldv, i, x);
                }
            }
        } else {
            proof {
                let j0 = choose|j0: int|
                    start <= j0 < end && j0 != i && spec_dominates(
                        points@[j0],
                        points@[i as int],
                    );
                assert(!local_in_skyline(points@, start as int, end as int, i as int));
                if v@.contains(i) {
                    let k = choose|k: int| 0 <= k < v@.len() && v@[k] == i;
                    assert(v@[k] < i);
                }
            }
        }
        i += 1;
    }
    v
}

/// Indices of `[lo, hi)` whose points dominate point `y`.
spec fn dominator_indices(pts: Seq<Seq<i64>>, lo: int, hi: int, y: int) -> Set<int> {
    Set::new(|j: int| lo <= j < hi && spec_dominates(pts[j], pts[y]))
}

/// Within one range, a point that fails the local filter is dominated by a
/// point of the same range that passes it: dominance is transitive, and the
/// range being finite, every chain of dominators ends at a locally
/// undominated point.
proof fn lemma_dominated_by_local_candidate(pts: Seq<Seq<i64>>, lo: int, hi: int, y: int)
    requires
        0 <= lo <= y < hi <= pts.len(),
        !local_in_skyline(pts, lo, hi, y),
    ensures
        exists|z: int|
            lo <= z < hi && #[trigger] local_in_skyline(pts, lo, hi, z) && spec_dominates(
                pts[z],
                pts[y],
            ),
    decreases dominator_indices(pts, lo, hi, y).len(),
{
    let doms_y = dominator_indices(pts, lo, hi, y);
    vstd::set_lib::lemma_int_range(lo, hi);
    vstd::set_lib::lemma_len_subset(doms_y, vstd::set_lib::set_int_range(lo, hi));
    let j = choose|j: int| lo <= j < hi && j != y && spec_dominates(pts[j], pts[y]);
    if local_in_skyline(pts, lo, hi, j) {
        assert(lo <= j < hi && local_in_skyline(pts, lo, hi, j) && spec_dominates(
            pts[j],
            pts[y],
        ));
    } else {
        let doms_j = dominator_indices(pts, lo, hi, j);
        assert forall|w: int| doms_j.contains(w) implies doms_y.remove(j).contains(w) by {
            lemma_dominates_transitive(pts[w], pts[j], pts[y]);
            lemma_dominates_irreflexive(pts[j]);
        }
        assert(doms_y.contains(j));
        vstd::set::axiom_set_remove_len(doms_y, j);
        vstd::set_lib::lemma_len_subset(doms_j, doms_y.remove(j));
        lemma_dominated_by_local_candidate(pts, lo, hi, j);
        let z = choose|z: int|
            lo <= z < hi && #[trigger] local_in_skyline(pts, lo, hi, z) && spec_dominates(
                pts[z],
                pts[j],
            );
        lemma_dominates_transitive(pts[z], pts[j], pts[y]);
        assert(lo <= z < hi && local_in_skyline(pts, lo, hi, z) && spec_dominates(
            pts[z],
            pts[y],
        ));
    }
}

/// The reduced collection holding the candidates' points, in candidate
/// order.
pub open spec fn reduced_points(pts: Seq<Seq<i64>>, cands: Seq<usize>) -> Seq<Seq<i64>> {
    Seq::new(cands.len(), |u: int| pts[cands[u] as int])
}

/// Merge phase: re-filter the surviving candidates against each other with
/// the serial engine and map the surviving positions back to original
/// indices.
///
/// The candidate list must be strictly increasing and in range. Whenever it
/// moreover contains every skyline point and dominates every eliminated
/// point — which the local filters of a partition guarantee — the result is
/// exactly the skyline mask of the full collection; the count always equals
/// the number of `true` entries of the returned mask.
#[verifier::loop_isolation(false)]
pub fn merge_skyline(points: &Points, cands: &Vec<usize>) -> (res: (Vec<bool>, usize))
    requires
        points.wf(),
        strictly_increasing(cands@),
        forall|k: int| 0 <= k < cands@.len() ==> #[trigger] cands@[k] < points.n,
    ensures
        res.0@.len() == points.n,
        res.1 == count_true(res.0@),
        forall|x: int|
            0 <= x < points.n ==> ((#[trigger] res.0@[x]) <==> exists|u: int|
                0 <= u < cands@.len() && cands@[u] as int == x && in_skyline(
                    reduced_points(points@, cands@),
                    u,
                )),
        candidates_complete(points@, cands@) && candidates_dominating(points@, cands@)
            ==> res.0@ == skyline_mask(points@),
{
    let n: usize = points.n;
    let nc: usize = cands.len();
    // Reduced collection holding the candidates' coordinates.
    let mut rp: Vec<Vec<i64>> = Vec::new();
    let mut k: usize = 0;
    while k < nc
        invariant
            rp@.len() == k,
            k <= nc,
            forall|t: int| 0 <= t < k ==> (#[trigger] rp@[t])@ == points@[cands@[t] as int],
        decreases nc - k,
    {
        let idx: usize = cands[k];
        let row = &points.p[idx];
        let mut nr: Vec<i64> = Vec::new();
        let mut t: usize = 0;
        while t < row.len()
            invariant
                nr@.len() == t,
                t <= row@.len(),
                forall|u: int| 0 <= u < t ==> nr@[u] == row@[u],
            decreases row@.len() - t,
        {
            nr.push(row[t]);
            t += 1;
        }
        proof {
            assert(nr@ =~= row@);
            assert(row@ == points@[idx as int]);
        }
        rp.push(nr);
        k += 1;
    }
    let reduced = Points { p: rp, n: nc, d: points.d };
    proof {
        assert forall|t: int| 0 <= t < reduced@.len() implies (#[trigger] reduced@[t]).len()
            == reduced.d by {
            assert(reduced@[t] == points@[cands@[t] as int]);
            assert(points@[cands@[t] as int].len() == points.d);
        }
        assert(reduced.wf());
        assert forall|t: int| 0 <= t < reduced@.len() implies #[trigger] reduced@[t]
            == points@[cands@[t] as int] by {}
    }
    let rres = serial::skyline(&reduced);
    let m = rres.0;
    let mc: usize = rres.1;
    let mut result: Vec<bool> = Vec::new();
    let mut f: usize = 0;
    while f < n
        invariant
            result@.len() == f,
            f <= n,
            forall|x: int| 0 <= x < f ==> !(#[trigger] result@[x]),
            count_true(result@) == 0,
        decreases n - f,
    {
        proof {
            lemma_count_true_push(result@, false);
        }
        result.push(false);
        f += 1;
    }
    let mut k2: usize = 0;
    while k2 < nc
        invariant
            result@.len() == n,
            k2 <= nc,
            m@.len() == nc,
            forall|x: int|
                0 <= x < n ==> ((#[trigger] result@[x]) <==> exists|u: int|
                    0 <= u < k2 && cands@[u] as int == x && m@[u]),
            count_true(result@) == count_true(m@.take(k2 as int)),
        decreases nc - k2,
    {
        let ghost oldr = result@;
        proof {
            lemma_count_true_take_step(m@, k2 as int);
        }
        if m[k2] {
            let pos: usize = cands[k2];
            proof {
                if oldr[pos as int] {
                    let u = choose|u: int| 0 <= u < k2 && cands@[u] as int == pos as int && m@[u];
                    assert(cands@[u] < cands@[k2 as int]);
                }
                lemma_count_true_update(result@, pos as int, true);
            }
            result.set(pos, true);
            proof {
                assert forall|x: int|
                    0 <= x < n implies ((#[trigger] result@[x]) <==> exists|u: int|
                    0 <= u < k2 + 1 && cands@[u] as int == x && m@[u]) by {
                    if x == pos as int {
                        assert(0 <= k2 < k2 + 1 && cands@[k2 as int] as int == x
                            && m@[k2 as int]);
                    } else {
                        if exists|u: int| 0 <= u < k2 + 1 && cands@[u] as int == x && m@[u] {
                            let u = choose|u: int|
                                0 <= u < k2 + 1 && cands@[u] as int == x && m@[u];
                            assert(u < k2);
                            assert(oldr[x]);
                        }
                        if oldr[x] {
                            let u = choose|u: int| 0 <= u < k2 && cands@[u] as int == x && m@[u];
                            assert(0 <= u < k2 + 1 && cands@[u] as int == x && m@[u]);
                        }
                    }
                }
            }
        } else {
            proof {
                assert forall|x: int|
                    0 <= x < n implies ((#[trigger] result@[x]) <==> exists|u: int|
                    0 <= u < k2 + 1 && cands@[u] as int == x && m@[u]) by {
                    if exists|u: int| 0 <= u < k2 + 1 && cands@[u] as int == x && m@[u] {
                        let u = choose|u: int| 0 <= u < k2 + 1 && cands@[u] as int == x && m@[u];
                        assert(u < k2);
                        assert(result@[x]);
                    }
                    if result@[x] {
                        let u = choose|u: int| 0 <= u < k2 && cands@[u] as int == x && m@[u];
                        assert(0 <= u < k2 + 1 && cands@[u] as int == x && m@[u]);
                    }
                }
            }
        }
        k2 += 1;
    }
    proof {
        lemma_count_true_take_all(m@);
        assert(reduced@ =~= reduced_points(points@, cands@));
        assert forall|x: int|
            0 <= x < n implies ((#[trigger] result@[x]) <==> exists|u: int|
            0 <= u < cands@.len() && cands@[u] as int == x && in_skyline(
                reduced_points(points@, cands@),
                u,
            )) by {
            if result@[x] {
                let u = choose|u: int| 0 <= u < nc && cands@[u] as int == x && m@[u];
                assert(m@[u] == in_skyline(reduced@, u));
                assert(0 <= u < cands@.len() && cands@[u] as int == x && in_skyline(
                    reduced_points(points@, cands@),
                    u,
                ));
            }
            if exists|u: int|
                0 <= u < cands@.len() && cands@[u] as int == x && in_skyline(
                    reduced_points(points@, cands@),
                    u,
                ) {
                let u = choose|u: int|
                    0 <= u < cands@.len() && cands@[u] as int == x && in_skyline(
                        reduced_points(points@, cands@),
                        u,
                    );
                assert(m@[u]);
                assert(result@[x]);
            }
        }
        let pts = points@;
        if candidates_complete(pts, cands@) && candidates_dominating(pts, cands@) {
            assert forall|x: int| 0 <= x < n implies result@[x] == in_skyline(pts, x) by {
                if exists|u: int| 0 <= u < nc && cands@[u] as int == x {
                    let u = choose|u: int| 0 <= u < nc && cands@[u] as int == x;
                    assert(reduced@[u] == pts[x]);
                    if in_skyline(pts, x) {
                        assert forall|w: int|
                            0 <= w < reduced@.len() && w != u implies !spec_dominates(
                            #[trigger] reduced@[w],
                            reduced@[u],
                        ) by {
                            assert(reduced@[w] == pts[cands@[w] as int]);
                            assert(cands@[w] != cands@[u]);
                        }
                        assert(in_skyline(reduced@, u));
                        assert(m@[u]);
                        assert(result@[x]);
                    } else {
                        let kd = choose|kk: int|
                            0 <= kk < cands@.len() && spec_dominates(
                                pts[cands@[kk] as int],
                                pts[x],
                            );
                        lemma_dominates_irreflexive(pts[x]);
                        assert(cands@[kd] as int != x);
                        assert(kd != u);
                        assert(reduced@[kd] == pts[cands@[kd] as int]);
                        assert(spec_dominates(reduced@[kd], reduced@[u]));
                        assert(!in_skyline(reduced@, u));
                        assert(!m@[u]);
                        if result@[x] {
                            let u2 = choose|u2: int|
                                0 <= u2 < nc && cands@[u2] as int == x && m@[u2];
                            assert(u2 == u);
                        }
                        assert(!result@[x]);
                    }
                } else {
                    if result@[x] {
                        let u2 = choose|u2: int| 0 <= u2 < nc && cands@[u2] as int == x && m@[u2];
                        assert(0 <= u2 < nc && cands@[u2] as int == x);
                    }
                    if in_skyline(pts, x) {
                        assert(cands@.contains(x as usize));
                        let u3 = choose|u3: int| 0 <= u3 < cands@.len() && cands@[u3] == x as usize;
                        assert(0 <= u3 < nc && cands@[u3] as int == x);
                    }
                    assert(!result@[x] && !in_skyline(pts, x));
                }
            }
            assert(result@ =~= skyline_mask(pts));
        }
    }
    (result, mc)
}

proof fn lemma_seq_add_contains<T>(a: Seq<T>, b: Seq<T>, x: T)
    ensures
        (a + b).contains(x) <==> (a.contains(x) || b.contains(x)),
{
    if (a + b).contains(x) {
        let k = choose|k: int| 0 <= k < (a + b).len() && (a + b)[k] == x;
        if k < a.len() {
            assert(a[k] == x);
        } else {
            assert(b[k - a.len()] == x);
        }
    }
    if a.contains(x) {
        let k = choose|k: int| 0 <= k < a.len() && a[k] == x;
        assert((a + b)[k] == x);
    }
    if b.contains(x) {
        let k = choose|k: int| 0 <= k < b.len() && b[k] == x;
        assert((a + b)[a.len() + k] == x);
    }
}

/// The prefix of `[0, n)` already covered after the first `t` ranges.
spec fn covered_end(ranges: Seq<(usize, usize)>, t: int) -> int {
    if t <= 0 {
        0
    } else {
        ranges[t - 1].1 as int
    }
}

/// Contiguous ranges starting at zero cover every index below the last end.
proof fn lemma_chunk_containing(ranges: Seq<(usize, usize)>, x: int)
    requires
        ranges.len() >= 1,
        ranges[0].0 == 0,
        forall|k: int| 0 <= k < ranges.len() - 1 ==> (#[trigger] ranges[k]).1 == ranges[k + 1].0,
        0 <= x < ranges[ranges.len() - 1].1,
    ensures
        exists|t: int| 0 <= t < ranges.len() && (#[trigger] ranges[t]).0 <= x < ranges[t].1,
    decreases ranges.len(),
{
    let last = ranges.len() - 1;
    if ranges[last].0 <= x {
        assert(0 <= last < ranges.len() && ranges[last].0 <= x < ranges[last].1);
    } else {
        let prefix = ranges.drop_last();
        assert(ranges[last - 1] == prefix[last - 1]);
        lemma_chunk_containing(prefix, x);
        let t = choose|t: int| 0 <= t < prefix.len() && (#[trigger] prefix[t]).0 <= x < prefix[t].1;
        assert(ranges[t] == prefix[t]);
        assert(0 <= t < ranges.len() && ranges[t].0 <= x < ranges[t].1);
    }
}

/// Partition/filter/merge pipeline. The index range is split into contiguous
/// chunks, each chunk is filtered on its own — these filters are independent
/// and share only read-only access to the collection — and the surviving
/// candidates are re-filtered together by the serial engine to resolve
/// cross-chunk domination.
///
/// The result is bit-for-bit the one of [`serial::skyline`], whatever
/// `num_threads` is (a count of zero is treated as one).
#[verifier::loop_isolation(false)]
pub fn parallel_skyline(points: &Points, num_threads: usize) -> (res: (Vec<bool>, usize))
    requires
        points.wf(),
    ensures
        res.0@.len() == points.n,
        res.0@ == skyline_mask(points@),
        forall|i: int| 0 <= i < points.n ==> res.0@[i] == in_skyline(points@, i),
        res.1 == count_true(res.0@),
{
    let n: usize = points.n;
    if n == 0 {
        let empty: Vec<bool> = Vec::new();
        proof {
            assert(empty@ =~= skyline_mask(points@));
        }
        return (empty, 0);
    }
    let workers: usize = if num_threads >= 1 {
        num_threads
    } else {
        1
    };
    let ranges = partition(n, workers);
    let nr: usize = ranges.len();
    let mut cands: Vec<usize> = Vec::new();
    let mut t: usize = 0;
    while t < nr
        invariant
            t <= nr,
            nr == ranges@.len(),
            forall|k: int|
                0 <= k < cands@.len() ==> ((#[trigger] cands@[k]) as int) < covered_end(
                    ranges@,
                    t as int,
                ),
            strictly_increasing(cands@),
            forall|x: usize|
                (#[trigger] cands@.contains(x)) <==> exists|t2: int|
                    0 <= t2 < t && (#[trigger] ranges@[t2]).0 <= x < ranges@[t2].1
                        && local_in_skyline(
                        points@,
                        ranges@[t2].0 as int,
                        ranges@[t2].1 as int,
                        x as int,
                    ),
        decreases nr - t,
    {
        let pr: (usize, usize) = ranges[t];
        let lo: usize = pr.0;
        let hi: usize = pr.1;
        let ghost oldc = cands@;
        let mut local = local_skyline(points, lo, hi);
        let ghost locv = local@;
        cands.append(&mut local);
        proof {
            assert(covered_end(ranges@, t as int) <= lo as int);
            assert forall|k1: int, k2: int|
                0 <= k1 < k2 < cands@.len() implies cands@[k1] < cands@[k2] by {
                if k2 < oldc.len() {
                    assert(cands@[k1] == oldc[k1] && cands@[k2] == oldc[k2]);
                } else if k1 >= oldc.len() {
                    assert(cands@[k1] == locv[k1 - oldc.len()]);
                    assert(cands@[k2] == locv[k2 - oldc.len()]);
                } else {
                    assert(cands@[k1] == oldc[k1]);
                    assert(cands@[k2] == locv[k2 - oldc.len()]);
                    assert((oldc[k1] as int) < covered_end(ranges@, t as int));
                    assert(locv[k2 - oldc.len()] >= lo);
                }
            }
            assert forall|x: usize|
                (#[trigger] cands@.contains(x)) <==> exists|t2: int|
                    0 <= t2 < t + 1 && (#[trigger] ranges@[t2]).0 <= x < ranges@[t2].1
                        && local_in_skyline(
                        points@,
                        ranges@[t2].0 as int,
                        ranges@[t2].1 as int,
                        x as int,
                    ) by {
                lemma_seq_add_contains(oldc, locv, x);
                if cands@.contains(x) {
                    if oldc.contains(x) {
                        let t2 = choose|t2: int|
                            0 <= t2 < t && (#[trigger] ranges@[t2]).0 <= x < ranges@[t2].1
                                && local_in_skyline(
                                points@,
                                ranges@[t2].0 as int,
                                ranges@[t2].1 as int,
                                x as int,
                            );
                        assert(0 <= t2 < t + 1 && ranges@[t2].0 <= x < ranges@[t2].1
                            && local_in_skyline(
                            points@,
                            ranges@[t2].0 as int,
                            ranges@[t2].1 as int,
                            x as int,
                        ));
                    } else {
                        let kk = choose|kk: int| 0 <= kk < locv.len() && locv[kk] == x;
                        assert(lo <= locv[kk] < hi);
                        assert(locv.contains(x));
                        assert(local_in_skyline(points@, lo as int, hi as int, x as int));
                        assert(0 <= t < t + 1 && ranges@[t as int].0 <= x < ranges@[t as int].1
                            && local_in_skyline(
                            points@,
                            ranges@[t as int].0 as int,
                            ranges@[t as int].1 as int,
                            x as int,
                        ));
                    }
                }
                if exists|t2: int|
                    0 <= t2 < t + 1 && (#[trigger] ranges@[t2]).0 <= x < ranges@[t2].1
                        && local_in_skyline(
                        points@,
                        ranges@[t2].0 as int,
                        ranges@[t2].1 as int,
                        x as int,
                    ) {
                    let t2 = choose|t2: int|
                        0 <= t2 < t + 1 && (#[trigger] ranges@[t2]).0 <= x < ranges@[t2].1
                            && local_in_skyline(
                            points@,
                            ranges@[t2].0 as int,
                            ranges@[t2].1 as int,
                            x as int,
                        );
                    if t2 < t {
                        assert(oldc.contains(x));
                    } else {
                        assert(locv.contains(x));
                    }
                }
            }
        }
        t += 1;
    }
    proof {
        let pts = points@;
        let rs = ranges@;
        assert(covered_end(rs, nr as int) == n);
        assert forall|x: int|
            0 <= x < pts.len() && #[trigger] in_skyline(pts, x) implies cands@.contains(
            x as usize,
        ) by {
            lemma_chunk_containing(rs, x);
            let t2 = choose|t2: int| 0 <= t2 < rs.len() && (#[trigger] rs[t2]).0 <= x < rs[t2].1;
            assert(rs[t2].1 <= n);
            assert forall|j: int|
                rs[t2].0 <= j < rs[t2].1 && j != x implies !spec_dominates(
                #[trigger] pts[j],
                pts[x],
            ) by {}
            assert(local_in_skyline(pts, rs[t2].0 as int, rs[t2].1 as int, x));
            assert(0 <= t2 < nr && rs[t2].0 <= (x as usize) < rs[t2].1 && local_in_skyline(
                pts,
                rs[t2].0 as int,
                rs[t2].1 as int,
                x as usize as int,
            ));
        }
        assert(candidates_complete(pts, cands@));
        assert forall|x: int|
            0 <= x < pts.len() && !(#[trigger] in_skyline(pts, x)) implies exists|k: int|
            0 <= k < cands@.len() && spec_dominates(pts[cands@[k] as int], pts[x]) by {
            let y = choose|y: int| 0 <= y < pts.len() && y != x && spec_dominates(pts[y], pts[x]);
            lemma_chunk_containing(rs, y);
            let t2 = choose|t2: int| 0 <= t2 < rs.len() && (#[trigger] rs[t2]).0 <= y < rs[t2].1;
            assert(rs[t2].1 <= n);
            let lo = rs[t2].0 as int;
            let hi = rs[t2].1 as int;
            if local_in_skyline(pts, lo, hi, y) {
                assert(0 <= t2 < nr && rs[t2].0 <= (y as usize) < rs[t2].1 && local_in_skyline(
                    pts,
                    lo,
                    hi,
                    y as usize as int,
                ));
                assert(cands@.contains(y as usize));
                let k = choose|k: int| 0 <= k < cands@.len() && cands@[k] == y as usize;
                assert(0 <= k < cands@.len() && spec_dominates(pts[cands@[k] as int], pts[x]));
            } else {
                lemma_dominated_by_local_candidate(pts, lo, hi, y);
                let z = choose|z: int|
                    lo <= z < hi && #[trigger] local_in_skyline(pts, lo, hi, z)
                        && spec_dominates(pts[z], pts[y]);
                lemma_dominates_transitive(pts[z], pts[y], pts[x]);
                assert(0 <= t2 < nr && rs[t2].0 <= (z as usize) < rs[t2].1 && local_in_skyline(
                    pts,
                    lo,
                    hi,
                    z as usize as int,
                ));
                assert(cands@.contains(z as usize));
                let k = choose|k: int| 0 <= k < cands@.len() && cands@[k] == z as usize;
                assert(0 <= k < cands@.len() && spec_dominates(pts[cands@[k] as int], pts[x]));
            }
        }
        assert(candidates_dominating(pts, cands@));
    }
    let res = merge_skyline(points, &cands);
    proof {
        assert forall|i: int| 0 <= i < points.n implies res.0@[i] == in_skyline(points@, i) by {
            assert(res.0@[i] == skyline_mask(points@)[i]);
        }
    }
    res
}

} // verus!
