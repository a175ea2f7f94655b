//! Decisions of the benchmark driver: how many workers race, which seed
//! each one gets, which result wins, and the timing summary over runs.

use vstd::prelude::*;

use crate::base::rng::{is_permutation, is_rearrangement, slice_swap};
use crate::io::output::ExactCoverResult;
use crate::solver::exact_cover::SolveOptions;

verus! {

/// Multiplier that spreads worker seeds apart.
pub const SEED_RATIO: u64 = 0x9E3779B9;

/// Number of workers when none is requested: one less than the available
/// parallelism (4 when unknown), and at least 2.
pub fn auto_worker_count(available: Option<usize>) -> (n: usize)
    ensures
        n == ({
            let a = match available {
                Some(a) => a as int,
                None => 4,
            };
            if a - 1 > 2 {
                a - 1
            } else {
                2
            }
        }),
{
    let a = match available {
        Some(a) => a,
        None => 4,
    };
    let n = a.saturating_sub(1);
    if n > 2 {
        n
    } else {
        2
    }
}

/// The seed of worker `worker_idx` in a race started from `base`:
/// `base + worker_idx * SEED_RATIO`, wrapping at 2^64.
pub fn worker_seed(base: u64, worker_idx: usize) -> (s: u64)
    ensures
        s as int == (base as int + (worker_idx as int * SEED_RATIO as int) % 0x1_0000_0000_0000_0000)
            % 0x1_0000_0000_0000_0000,
{
    let m = (worker_idx as u64).wrapping_mul(SEED_RATIO);
    base.wrapping_add(m)
}

/// The solver options of one run: the timeout given in seconds becomes
/// milliseconds.
pub fn solve_options(timeout_s: Option<u64>, seed: Option<u64>, luby_base: u64) -> (o: SolveOptions)
    requires
        timeout_s matches Some(t) ==> t <= u64::MAX / 1000,
    ensures
        o.timeout_ms == (match timeout_s {
            Some(t) => Some((t * 1000) as u64),
            None => None,
        }),
        o.seed == seed,
        o.luby_base == luby_base,
{
    let timeout_ms = match timeout_s {
        Some(t) => Some(t * 1000),
        None => None,
    };
    SolveOptions { timeout_ms, seed, luby_base }
}

/// The result in slot `i` reported a solution.
pub open spec fn solved_at(rs: Seq<Option<ExactCoverResult>>, i: int) -> bool {
    rs[i] matches Some(r) && r.solution is Some
}

/// Wall-clock time of the result in slot `i`.
pub open spec fn elapsed_at(rs: Seq<Option<ExactCoverResult>>, i: int) -> u64 {
    rs[i]->0.stats.common.elapsed_ms
}

/// The winner of a race whose results are kept by worker index (`None`
/// for a worker that did not report): the solved result with the least
/// elapsed time, the lowest worker index among equals; `None` when no
/// worker solved.
pub fn pick_winner(results: &[Option<ExactCoverResult>]) -> (w: Option<usize>)
    ensures
        w is None <==> forall|i: int| 0 <= i < results@.len() ==> !solved_at(results@, i),
        w matches Some(k) ==> {
            &&& k < results@.len()
            &&& solved_at(results@, k as int)
            &&& forall|i: int|
                0 <= i < results@.len() && solved_at(results@, i) ==> elapsed_at(results@, k as int)
                    <= elapsed_at(results@, i)
            &&& forall|i: int|
                0 <= i < k && solved_at(results@, i) ==> elapsed_at(results@, k as int) < elapsed_at(
                    results@,
                    i,
                )
        },
{
    let mut best: Option<usize> = None;
    let mut i: usize = 0;
    while i < results.len()
        invariant
            i <= results@.len(),
            best is None <==> forall|j: int| 0 <= j < i ==> !solved_at(results@, j),
            best matches Some(k) ==> {
                &&& k < i
                &&& solved_at(results@, k as int)
                &&& forall|j: int|
                    0 <= j < i && solved_at(results@, j) ==> elapsed_at(results@, k as int)
                        <= elapsed_at(results@, j)
                &&& forall|j: int|
                    0 <= j < k && solved_at(results@, j) ==> elapsed_at(results@, k as int)
                        < elapsed_at(results@, j)
            },
        decreases results.len() - i,
    {
        match &results[i] {
            Some(r) => {
                if r.solution.is_some() {
                    assert(solved_at(results@, i as int));
                    match best {
                        None => {
                            best = Some(i);
                        },
                        Some(k) => {
                            let bk = match &results[k] {
                                Some(b) => b.stats.common.elapsed_ms,
                                None => 0,
                            };
                            if r.stats.common.elapsed_ms < bk {
                                best = Some(i);
                            }
                        },
                    }
                }
            },
            None => {},
        }
        proof {
            if best is None {
                assert(!solved_at(results@, i as int));
            } else {
                let k = best->0;
                assert(solved_at(results@, k as int));
            }
        }
        i = i + 1;
    }
    best
}

/// Sum of the node counts of the first `n` reported results.
pub open spec fn nodes_sum(rs: Seq<Option<ExactCoverResult>>, n: int) -> int
    decreases n,
{
    if n <= 0 {
        0
    } else {
        nodes_sum(rs, n - 1) + match rs[n - 1] {
            Some(r) => r.stats.common.node_count as int,
            None => 0,
        }
    }
}

/// Total nodes searched by all workers that reported, saturating at
/// `u64::MAX`.
pub fn total_nodes(results: &[Option<ExactCoverResult>]) -> (t: u64)
    ensures
        t as int == if nodes_sum(results@, results@.len() as int) <= u64::MAX {
            nodes_sum(results@, results@.len() as int)
        } else {
            u64::MAX as int
        },
{
    let mut t: u64 = 0;
    let mut i: usize = 0;
    while i < results.len()
        invariant
            i <= results@.len(),
            t as int == if nodes_sum(results@, i as int) <= u64::MAX {
                nodes_sum(results@, i as int)
            } else {
                u64::MAX as int
            },
        decreases results.len() - i,
    {
        proof {
            lemma_nodes_sum_monotone(results@, i as int);
        }
        match &results[i] {
            Some(r) => {
                t = t.saturating_add(r.stats.common.node_count);
            },
            None => {},
        }
        i = i + 1;
    }
    t
}

proof fn lemma_nodes_sum_monotone(rs: Seq<Option<ExactCoverResult>>, n: int)
    requires
        0 <= n < rs.len(),
    ensures
        nodes_sum(rs, n + 1) >= nodes_sum(rs, n),
{
}

/// `s` is in ascending order.
pub open spec fn ascending(s: Seq<u64>) -> bool {
    forall|i: int, j: int| 0 <= i <= j < s.len() ==> s[i] <= s[j]
}

/// The elapsed times in ascending order.
pub fn sorted_elapsed(elapsed: &Vec<u64>) -> (r: Vec<u64>)
    ensures
        ascending(r@),
        is_rearrangement(elapsed@, r@),
{
    let mut r = elapsed.clone();
    let n = r.len();
    let ghost mut p: Seq<int> = Seq::new(n as nat, |k: int| k);
    assert(is_permutation(p, n as int));
    let mut i: usize = 0;
    while i < n
        invariant
            i <= n,
            r@.len() == n,
            elapsed@.len() == n,
            is_permutation(p, n as int),
            forall|k: int| 0 <= k < n ==> r@[k] == elapsed@[#[trigger] p[k]],
            forall|a: int, b: int| 0 <= a <= b < i ==> r@[a] <= r@[b],
            forall|a: int, b: int| 0 <= a < i <= b < n ==> r@[a] <= r@[b],
        decreases n - i,
    {
        let mut m = i;
        let mut j = i + 1;
        while j < n
            invariant
                i <= m < n,
                i < j <= n,
                r@.len() == n,
                forall|k: int| i <= k < j ==> r@[m as int] <= r@[k],
            decreases n - j,
        {
            if r[j] < r[m] {
                m = j;
            }
            j = j + 1;
        }
        let ghost pre = r@;
        slice_swap(r.as_mut_slice(), i, m);
        proof {
            let pi = p[i as int];
            let pm = p[m as int];
            let np = p.update(i as int, pm).update(m as int, pi);
            assert forall|a: int, b: int| 0 <= a < b < n implies #[trigger] np[a] != #[trigger] np[b] by {
                assert(p[a] != p[b]);
                if i != m {
                    assert(p[i as int] != p[m as int]);
                }
            }
            assert forall|k: int| 0 <= k < n implies r@[k] == elapsed@[#[trigger] np[k]] by {
                if k == i {
                    assert(r@[k] == pre[m as int]);
                } else if k == m {
                    assert(r@[k] == pre[i as int]);
                } else {
                    assert(r@[k] == pre[k]);
                }
            }
            p = np;
        }
        i = i + 1;
    }
    proof {
        assert(is_rearrangement(elapsed@, r@)) by {
            assert(forall|k: int| 0 <= k < r@.len() ==> r@[k] == elapsed@[#[trigger] p[k]]);
        }
    }
    r
}

/// Sum of the first `n` elapsed times.
pub open spec fn elapsed_sum(s: Seq<u64>, n: int) -> int
    decreases n,
{
    if n <= 0 {
        0
    } else {
        elapsed_sum(s, n - 1) + s[n - 1]
    }
}

/// Mean elapsed time over `runs` runs, rounded down.
pub fn mean_elapsed(elapsed: &Vec<u64>, runs: u32) -> (m: u64)
    requires
        runs > 0,
        elapsed@.len() == runs,
    ensures
        m as int == elapsed_sum(elapsed@, elapsed@.len() as int) / runs as int,
{
    let mut total: u128 = 0;
    let mut i: usize = 0;
    while i < elapsed.len()
        invariant
            i <= elapsed@.len(),
            elapsed@.len() == runs,
            total as int == elapsed_sum(elapsed@, i as int),
            total as int <= i * u64::MAX,
        decreases elapsed.len() - i,
    {
        assert(i * u64::MAX + u64::MAX <= u32::MAX * u64::MAX + u64::MAX) by (nonlinear_arith)
            requires
                i < u32::MAX,
        ;
        total = total + elapsed[i] as u128;
        i = i + 1;
    }
    assert(total / runs as u128 <= u64::MAX) by (nonlinear_arith)
        requires
            total <= runs * u64::MAX,
            runs > 0,
    ;
    (total / runs as u128) as u64
}

} // verus!
