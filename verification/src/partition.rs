use vstd::prelude::*;

use vstd::arithmetic::div_mod::{
    lemma_div_decreases, lemma_div_nonincreasing, lemma_div_pos_is_pos,
    lemma_fundamental_div_mod, lemma_mod_bound,
};

verus! {

/// Chunk length used by the partitioner: the ceiling of `n / workers`.
pub open spec fn chunk_len(n: int, workers: int) -> int
    recommends
        workers >= 1,
{
    if n % workers == 0 {
        n / workers
    } else {
        n / workers + 1
    }
}

/// The start of chunk `k`, and its end, capped at `n`.
pub open spec fn chunk_start(n: int, workers: int, k: int) -> int {
    k * chunk_len(n, workers)
}

pub open spec fn chunk_end(n: int, workers: int, k: int) -> int {
    if (k + 1) * chunk_len(n, workers) <= n {
        (k + 1) * chunk_len(n, workers)
    } else {
        n
    }
}

/// The chunk length covers `n` with `workers` chunks and is positive.
pub proof fn lemma_chunk_len_bounds(n: int, workers: int)
    requires
        n >= 1,
        workers >= 1,
    ensures
        1 <= chunk_len(n, workers) <= n,
        workers * chunk_len(n, workers) >= n,
{
    lemma_fundamental_div_mod(n, workers);
    lemma_mod_bound(n, workers);
    lemma_div_pos_is_pos(n, workers);
    let q = n / workers;
    if n % workers == 0 {
        assert(q >= 1) by (nonlinear_arith)
            requires
                n >= 1,
                workers >= 1,
                n == workers * q + 0,
        ;
        lemma_div_nonincreasing(n, workers);
    } else {
        if workers == 1 {
            lemma_mod_bound(n, 1);
            assert(false);
        }
        lemma_div_decreases(n, workers);
        assert(workers * (q + 1) == workers * q + workers) by (nonlinear_arith);
    }
}

/// Split `[0, n)` into contiguous half-open ranges of `chunk_len(n, workers)`
/// indices each (the last one possibly shorter), stopping once `n` is
/// covered; fewer ranges than workers come out when `workers > n`.
/// Deterministic: each range is pinned by its index.
#[verifier::loop_isolation(false)]
pub fn partition(n: usize, workers: usize) -> (r: Vec<(usize, usize)>)
    requires
        workers >= 1,
    ensures
        n == 0 ==> r@.len() == 0,
        n > 0 ==> r@.len() >= 1 && r@[0].0 == 0 && r@[r@.len() - 1].1 == n,
        forall|k: int|
            0 <= k < r@.len() ==> (#[trigger] r@[k]).0 as int == chunk_start(
                n as int,
                workers as int,
                k,
            ) && r@[k].1 as int == chunk_end(n as int, workers as int, k),
        forall|k: int| 0 <= k < r@.len() ==> (#[trigger] r@[k]).0 < r@[k].1 <= n,
        forall|k: int| 0 <= k < r@.len() - 1 ==> (#[trigger] r@[k]).1 == r@[k + 1].0,
{
    if n == 0 {
        return Vec::new();
    }
    proof {
        lemma_chunk_len_bounds(n as int, workers as int);
    }
    let q: usize = n / workers;
    let c: usize = if n % workers == 0 {
        q
    } else {
        proof {
            if workers == 1 {
                lemma_mod_bound(n as int, 1);
            }
            lemma_div_decreases(n as int, workers as int);
        }
        q + 1
    };
    let cl = Ghost(chunk_len(n as int, workers as int));
    proof {
        assert(c as int == cl@);
    }
    let mut r: Vec<(usize, usize)> = Vec::new();
    let mut start: usize = 0;
    while start < n
        invariant
            1 <= c <= n,
            c as int == cl@,
            start <= n,
            start as int == if r@.len() * cl@ <= n {
                r@.len() * cl@
            } else {
                n as int
            },
            forall|k: int|
                0 <= k < r@.len() ==> (#[trigger] r@[k]).0 as int == k * cl@ && r@[k].1 as int
                    == (if (k + 1) * cl@ <= n {
                    (k + 1) * cl@
                } else {
                    n as int
                }),
            forall|k: int| 0 <= k < r@.len() ==> (#[trigger] r@[k]).0 < r@[k].1 <= n,
            r@.len() >= 1 ==> r@[r@.len() - 1].1 == start,
            r@.len() == 0 ==> start == 0,
        decreases n - start,
    {
        proof {
            assert((r@.len() + 1) * cl@ == r@.len() * cl@ + cl@) by (nonlinear_arith);
        }
        let end: usize = if n - start <= c {
            n
        } else {
            start + c
        };
        r.push((start, end));
        start = end;
    }
    proof {
        assert forall|k: int| 0 <= k < r@.len() - 1 implies (#[trigger] r@[k]).1 == r@[k + 1].0 by {
            assert(r@[k + 1].0 as int == (k + 1) * cl@);
            assert(r@[k + 1].0 < r@[k + 1].1);
            assert(r@[k].1 as int == (k + 1) * cl@);
        }
        assert(r@.len() >= 1);
        assert(r@[0].0 as int == 0 * cl@);
    }
    r
}

} // verus!
