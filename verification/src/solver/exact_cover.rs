//! ExactCover solver: options, solution reconstruction and the restart
//! loop around the backtracking search.

use crate::base::rng::{entropy_seed, lemma_luby_positive, make_rng, luby_state, luby_term, LubyIterator};
use crate::domain::piece::copy_coords;
use crate::domain::placement::Placement;
use crate::error::{Result, SolverError};
use crate::io::common::{PieceInstanceJson, SolverStats};
use crate::io::input::ExactCoverInput;
use crate::io::output::{ExactCoverResult, ExactCoverStats, Solution, SolutionPlacement};
use crate::solver::cancel::CancelFlag;
use crate::solver::context::{
    find_type, id_count, input_ok, input_types, lemma_build_result, lemma_parity_facts, lemma_symmetric_when_solved, lemma_placements_connected, shapes_connected, setup_error, setup_outcome,
    SolveContext,
};
use crate::domain::enumerate::{board_index, is_placement_at, lemma_board_index_bound, placements_match};
use crate::domain::piece::Coord;
use crate::solver::context::{keys_coords, lemma_board_of};
use crate::solver::search::{
    backtrack, placements_connected, parity_facts, legal, lemma_cover_union, lemma_model_facts, lemma_remaining_uses,
    model_of, solved, some_center, uses_of, BacktrackEnv,
};
use vstd::set_lib::{lemma_int_range, set_int_range};
use vstd::prelude::*;
use web_time::Instant;

verus! {

/// Options controlling solver execution.
#[derive(Debug, Clone, Copy)]
pub struct SolveOptions {
    /// Wall-clock timeout in milliseconds. The solver stops restarting once
    /// it elapses, with `timed_out: true` in the stats.
    pub timeout_ms: Option<u64>,
    /// Random seed for the PRNG. If `None`, a seed is drawn from system entropy.
    pub seed: Option<u64>,
    /// Base node budget for the Luby restart sequence: restart `i` gets
    /// `luby_base * t_i` nodes, where `t_i` is the `i`-th Luby term.
    pub luby_base: u64,
}

/// The default Luby base.
pub fn default_luby_base() -> (r: u64)
    ensures
        r == 100_000,
{
    100_000
}

impl Default for SolveOptions {
    fn default() -> (o: Self)
        ensures
            o.timeout_ms is None,
            o.seed is None,
            o.luby_base == 100_000,
    {
        SolveOptions { timeout_ms: None, seed: None, luby_base: default_luby_base() }
    }
}

#[verifier::external_type_specification]
#[verifier::external_body]
pub struct ExInstant(Instant);

/// Reads the clock (`web_time::Instant::now`). Nothing is stated of the
/// instant returned.
#[verifier::external_body]
fn clock_now() -> Instant {
    Instant::now()
}

/// Whole milliseconds since `start` (`Instant::elapsed` then
/// `Duration::as_millis`, truncated to `u64`). The value depends on the
/// clock, so nothing is stated of it.
#[verifier::external_body]
fn elapsed_ms(start: &Instant) -> u64 {
    start.elapsed().as_millis() as u64
}

/// Positions, in input order, of the first `n` pieces whose id is `id`.
pub open spec fn pieces_with_id(pieces: Seq<PieceInstanceJson>, id: Seq<char>, n: int) -> Seq<int>
    decreases n,
{
    if n <= 0 {
        Seq::empty()
    } else {
        let p = pieces_with_id(pieces, id, n - 1);
        if pieces[n - 1].def_id@ == id {
            p.push(n - 1)
        } else {
            p
        }
    }
}

proof fn lemma_pieces_with_id(pieces: Seq<PieceInstanceJson>, id: Seq<char>, n: int)
    requires
        0 <= n <= pieces.len(),
    ensures
        pieces_with_id(pieces, id, n).len() == id_count(pieces, id, n),
        forall|a: int, b: int|
            0 <= a < b < pieces_with_id(pieces, id, n).len() ==> pieces_with_id(pieces, id, n)[a]
                < pieces_with_id(pieces, id, n)[b],
        forall|k: int|
            0 <= k < pieces_with_id(pieces, id, n).len() ==> 0 <= #[trigger] pieces_with_id(
                pieces,
                id,
                n,
            )[k] < n && pieces[pieces_with_id(pieces, id, n)[k]].def_id@ == id,
    decreases n,
{
    if n > 0 {
        lemma_pieces_with_id(pieces, id, n - 1);
    }
}

/// The input piece that reconstruction assigns to the `j`-th applied
/// placement: pieces of a type are handed out in input order.
pub open spec fn assigned_piece(ctx: SolveContext, pieces: Seq<PieceInstanceJson>, r: Seq<usize>, j: int) -> int {
    let t = ctx.placements@[r[j] as int].type_idx as int;
    pieces_with_id(pieces, ctx.type_ids@[t]@, pieces.len() as int)[uses_of(ctx, r, t, j)]
}

/// `sol` is the wire form of the applied placements `r`.
pub open spec fn solution_of(ctx: SolveContext, pieces: Seq<PieceInstanceJson>, r: Seq<usize>, sol: Seq<SolutionPlacement>) -> bool {
    &&& sol.len() == r.len()
    &&& forall|j: int|
        0 <= j < r.len() ==> {
            let pl = ctx.placements@[r[j] as int];
            let a = assigned_piece(ctx, pieces, r, j);
            &&& (#[trigger] sol[j]).piece.def_id == pieces[a].def_id
            &&& sol[j].piece.index == pieces[a].index
            &&& sol[j].cells@ == pl.cells@
            &&& sol[j].mark == pl.mark
        }
}

/// Reconstructs the wire-format solution from the applied placements,
/// handing out the input pieces of each type in input order.
fn reconstruct_solution(ctx: &SolveContext, result: &Vec<usize>, input: &ExactCoverInput) -> (sol: Solution)
    requires
        ctx.wf(),
        ctx.describes(*input),
        input.common.pieces@.len() <= u16::MAX,
        legal(*ctx, result@),
    ensures
        solution_of(*ctx, input.common.pieces@, result@, sol@),
{
    let ghost ps = input.common.pieces@;
    let ghost ids = input_types(*input);
    let nt = ctx.type_ids.len();
    proof {
        crate::solver::context::lemma_distinct_ids_pub(ps, ps.len() as int);
        crate::solver::context::lemma_types_of(*ctx, *input);
    }
    let mut queues: Vec<Vec<usize>> = Vec::with_capacity(nt);
    let mut t: usize = 0;
    while t < nt
        invariant
            t <= nt,
            queues@.len() == t,
            forall|u: int| 0 <= u < t ==> (#[trigger] queues@[u])@.len() == 0,
        decreases nt - t,
    {
        queues.push(Vec::new());
        t = t + 1;
    }
    let mut i: usize = 0;
    while i < input.common.pieces.len()
        invariant
            ctx.wf(),
            ctx.describes(*input),
            ps == input.common.pieces@,
            ids == input_types(*input),
            nt == ctx.type_ids@.len(),
            nt == ids.len(),
            forall|u: int| 0 <= u < nt ==> (#[trigger] ctx.type_ids@[u])@ == ids[u],
            ids.no_duplicates(),
            forall|q: int| 0 <= q < ps.len() ==> ids.contains(#[trigger] ps[q].def_id@),
            i <= ps.len(),
            queues@.len() == nt,
            forall|u: int|
                0 <= u < nt ==> (#[trigger] queues@[u])@.map_values(|x: usize| x as int) == pieces_with_id(
                    ps,
                    ids[u],
                    i as int,
                ),
        decreases ps.len() - i,
    {
        let ti = match find_type(&ctx.type_ids, input.common.pieces[i].def_id.as_str()) {
            Some(t) => t,
            None => {
                proof {
                    assert(ids.contains(ps[i as int].def_id@));
                    let q = choose|q: int| 0 <= q < ids.len() && ids[q] == ps[i as int].def_id@;
                    assert(ctx.type_ids@[q]@ == ids[q]);
                }
                0
            },
        };
        proof {
            if !(ti < nt && ctx.type_ids@[ti as int]@ == ps[i as int].def_id@) {
                assert(ids.contains(ps[i as int].def_id@));
                let q = choose|q: int| 0 <= q < ids.len() && ids[q] == ps[i as int].def_id@;
                assert(ctx.type_ids@[q]@ == ids[q]);
            }
        }
        let ghost before = queues@;
        queues[ti].push(i);
        proof {
            assert forall|u: int| 0 <= u < nt implies (#[trigger] queues@[u])@.map_values(
                |x: usize| x as int,
            ) == pieces_with_id(ps, ids[u], i + 1) by {
                if u == ti as int {
                    assert(queues@[u]@ == before[u]@.push(i));
                    assert(queues@[u]@.map_values(|x: usize| x as int) =~= before[u]@.map_values(
                        |x: usize| x as int,
                    ).push(i as int));
                } else {
                    assert(ids[u] != ids[ti as int]);
                    assert(queues@[u] == before[u]);
                }
            }
        }
        i = i + 1;
    }
    let mut cursor: Vec<usize> = vec![0usize; nt];
    let mut solution: Solution = Vec::with_capacity(result.len());
    let mut j: usize = 0;
    while j < result.len()
        invariant
            ctx.wf(),
            ctx.describes(*input),
            ps == input.common.pieces@,
            ids == input_types(*input),
            nt == ctx.type_ids@.len(),
            nt == ids.len(),
            forall|u: int| 0 <= u < nt ==> (#[trigger] ctx.type_ids@[u])@ == ids[u],
            forall|u: int| 0 <= u < nt ==> #[trigger] ctx.type_counts@[u] as int == id_count(ps, ids[u], ps.len() as int),
            legal(*ctx, result@),
            queues@.len() == nt,
            forall|u: int|
                0 <= u < nt ==> (#[trigger] queues@[u])@.map_values(|x: usize| x as int) == pieces_with_id(
                    ps,
                    ids[u],
                    ps.len() as int,
                ),
            cursor@.len() == nt,
            forall|u: int| 0 <= u < nt ==> #[trigger] cursor@[u] as int == uses_of(*ctx, result@, u, j as int),
            j <= result@.len(),
            solution@.len() == j,
            forall|q: int|
                0 <= q < j ==> {
                    let pl = ctx.placements@[result@[q] as int];
                    let a = assigned_piece(*ctx, ps, result@, q);
                    &&& (#[trigger] solution@[q]).piece.def_id == ps[a].def_id
                    &&& solution@[q].piece.index == ps[a].index
                    &&& solution@[q].cells@ == pl.cells@
                    &&& solution@[q].mark == pl.mark
                },
        decreases result@.len() - j,
    {
        proof {
            lemma_model_facts(*ctx, result@);
        }
        let pl = &ctx.placements[result[j]];
        proof {
            ctx.lemma_placement(result@[j as int] as int);
        }
        let t = pl.type_idx as usize;
        let k = cursor[t];
        proof {
            lemma_remaining_uses(*ctx, result@, t as int);
            lemma_uses_mono(*ctx, result@, t as int, j + 1, result@.len() as int);
            lemma_pieces_with_id(ps, ids[t as int], ps.len() as int);
            assert(queues@[t as int]@.len() == id_count(ps, ids[t as int], ps.len() as int));
            assert(queues@[t as int]@.map_values(|x: usize| x as int)[k as int] == queues@[t as int]@[k as int] as int);
            assert(pieces_with_id(ps, ids[t as int], ps.len() as int)[k as int] < ps.len());
        }
        let pi = queues[t][k];
        let piece = PieceInstanceJson {
            def_id: input.common.pieces[pi].def_id.clone(),
            index: input.common.pieces[pi].index,
        };
        cursor.set(t, k + 1);
        solution.push(SolutionPlacement { piece, cells: copy_coords(&pl.cells), mark: pl.mark });
        proof {
            assert forall|u: int| 0 <= u < nt implies #[trigger] cursor@[u] as int == uses_of(
                *ctx,
                result@,
                u,
                j + 1,
            ) by {}
            assert(pi as int == assigned_piece(*ctx, ps, result@, j as int));
        }
        j = j + 1;
    }
    solution
}

proof fn lemma_uses_mono(ctx: SolveContext, r: Seq<usize>, t: int, a: int, b: int)
    requires
        0 <= a <= b,
    ensures
        uses_of(ctx, r, t, a) <= uses_of(ctx, r, t, b),
    decreases b,
{
    if a < b {
        lemma_uses_mono(ctx, r, t, a, b - 1);
    }
}

/// Builds the public stats object from the search counters. A timeout
/// that races with a cancellation is reported as a cancellation only.
fn build_stats(env: &BacktrackEnv, seed: u64, elapsed_ms: u64, timed_out: bool, cancelled: bool) -> (s: ExactCoverStats)
    ensures
        s.common == (SolverStats {
            node_count: env.total_nodes,
            restarts: env.restarts,
            unit_propagations: env.unit_propagations,
            island_prunes: env.island_prunes,
            dead_cell_prunes: env.dead_cell_prunes,
            neighbor_prunes: env.neighbor_prunes,
            parity_prunes: env.parity_prunes,
            seed,
            timed_out: timed_out && !cancelled,
            elapsed_ms,
            cancelled,
        }),
{
    ExactCoverStats {
        common: SolverStats {
            node_count: env.total_nodes,
            restarts: env.restarts,
            unit_propagations: env.unit_propagations,
            island_prunes: env.island_prunes,
            dead_cell_prunes: env.dead_cell_prunes,
            neighbor_prunes: env.neighbor_prunes,
            parity_prunes: env.parity_prunes,
            seed,
            timed_out: timed_out && !cancelled,
            elapsed_ms,
            cancelled,
        },
    }
}

/// `sol` is the wire form of a complete exact cover found for `input`: a
/// legal sequence of placements of the input's context that covers every
/// target cell and lands some mark on the center region.
pub open spec fn solves(input: ExactCoverInput, sol: Seq<SolutionPlacement>) -> bool {
    exists|ctx: SolveContext, r: Seq<usize>|
        ctx.wf() && ctx.describes(input) && solved(ctx, r) && solution_of(ctx, input.common.pieces@, r, sol)
}

/// The Luby schedule with scale `base` cannot give its term number `k`:
/// the term times the base, or the state after it, does not fit in a `u64`.
pub open spec fn luby_ends(base: u64, k: nat) -> bool {
    luby_term(k) * base > u64::MAX || luby_state(k + 1).0 > u64::MAX || luby_state(k + 1).1 > u64::MAX
}

/// The sum of the first `a` node budgets of the Luby schedule with scale
/// `base`.
pub open spec fn luby_total(base: u64, a: nat) -> int
    decreases a,
{
    if a == 0 {
        0
    } else {
        luby_total(base, (a - 1) as nat) + luby_term((a - 1) as nat) * base
    }
}

/// With no timeout and no cancel flag, a search for `input` over the
/// context `c` that returns no solution, where every piece's shape is
/// connected and some placement sequence solves the puzzle, ran every
/// attempt it made to the end of its node budget: the node count reaches
/// the sum of the budgets of the first `restarts` attempts, unless it
/// saturated.
pub open spec fn attempts_exhausted(
    c: SolveContext,
    input: ExactCoverInput,
    options: SolveOptions,
    cancel_given: bool,
    res: ExactCoverResult,
) -> bool {
    (options.timeout_ms is None && !cancel_given && res.solution is None && shapes_connected(input) && exists|
        r: Seq<usize>,
    | #[trigger] solved(c, r)) ==> res.stats.common.node_count == u64::MAX || res.stats.common.node_count
        >= luby_total(options.luby_base, res.stats.common.restarts as nat)
}

proof fn lemma_luby_total_mono(base: u64, a: nat)
    ensures
        luby_total(base, a) <= luby_total(base, a + 1),
        luby_total(base, a) >= 0,
    decreases a,
{
    lemma_luby_positive(a);
    assert(luby_term(a) * base >= 0) by (nonlinear_arith)
        requires
            luby_term(a) >= 1,
    ;
    if a > 0 {
        lemma_luby_total_mono(base, (a - 1) as nat);
    }
}

/// Solves an ExactCover problem.
///
/// Returns the solution, if one was found, with the search statistics;
/// `solution` is `None` when the search was cancelled, timed out, or ran
/// out of restarts. Fails with the setup error when the input does not
/// pass [`SolveContext::build`]. With no timeout and no cancel flag, a
/// puzzle with connected piece shapes that has a solution gets one
/// unless every attempt ran to the end of its node budget
/// ([`attempts_exhausted`]).
pub fn solve_exact_cover(input: &ExactCoverInput, options: SolveOptions, cancel: Option<&CancelFlag>) -> (r: Result<ExactCoverResult>)
    requires
        input_ok(*input),
        options.luby_base > 0,
    ensures
        match r {
            Err(e) => setup_error(*input, e),
            Ok(res) => {
                &&& setup_outcome(*input) is Ready
                &&& (options.seed matches Some(s) ==> res.stats.common.seed == s)
                &&& (res.stats.common.timed_out ==> options.timeout_ms is Some && !res.stats.common.cancelled)
                &&& (res.solution matches Some(sol) ==> !res.stats.common.timed_out
                    && !res.stats.common.cancelled && solves(*input, sol@) && exact_cover_of(*input, sol@))
                &&& res.stats.common.node_count >= 1
                &&& exists|c: SolveContext| c.wf() && c.describes(*input) && parity_facts(c) && attempts_exhausted(
                    c,
                    *input,
                    options,
                    cancel is Some,
                    res,
                )
                &&& res.stats.common.node_count >= res.stats.common.restarts
                &&& (res.stats.common.cancelled ==> cancel is Some)
                &&& (options.timeout_ms is None && cancel is None && res.solution is None
                    ==> res.stats.common.restarts == u32::MAX || luby_ends(
                    options.luby_base,
                    res.stats.common.restarts as nat,
                ))
                &&& (res.solution is None ==> res.stats.common.timed_out || res.stats.common.cancelled
                    || res.stats.common.restarts == u32::MAX || luby_ends(
                    options.luby_base,
                    res.stats.common.restarts as nat,
                ))
            },
        },
{
    let built = SolveContext::build(input);
    proof {
        lemma_build_result(*input, built);
    }
    let ctx = match built {
        Ok(c) => c,
        Err(e) => {
            return Err(e);
        },
    };
    let seed = match options.seed {
        Some(s) => s,
        None => entropy_seed(),
    };
    let mut rng = make_rng(seed);
    let mut env = BacktrackEnv::new(&ctx);
    let mut luby = LubyIterator::new(options.luby_base);
    let start = clock_now();
    let mut found = false;
    let mut timed_out = false;
    proof {
        lemma_luby_positive(0);
    }
    let first = match luby.next() {
        Some(b) => b,
        None => {
            proof {
                assert(false);
            }
            options.luby_base
        },
    };
    env.node_budget = first;
    proof {
        lemma_parity_facts(ctx, *input);
        lemma_symmetric_when_solved(ctx, *input);
        if shapes_connected(*input) {
            lemma_placements_connected(ctx, *input);
        }
    }
    let ghost cond = options.timeout_ms is None && cancel is None && shapes_connected(*input) && exists|
        r: Seq<usize>,
    | #[trigger] solved(ctx, r);
    proof {
        assert(env.state.result@ =~= Seq::<usize>::empty());
    }
    if backtrack(&ctx, &mut env, cancel) {
        found = true;
    }
    proof {
        if cond && !found {
            lemma_luby_total_mono(options.luby_base, 0);
            if !env.budget_exhausted {
                let r = choose|r: Seq<usize>| #[trigger] solved(ctx, r);
                assert(Seq::<usize>::empty() + r =~= r);
            }
        }
    }
    let mut done = found || env.cancelled;
    let mut restarts: u32 = 0;
    let ghost mut luby_out = false;
    while !done
        invariant
            ctx.wf(),
            ctx.describes(*input),
            env.inv(ctx),
            luby.wf(),
            luby.base() == options.luby_base,
            options.luby_base > 0,
            found ==> solved(ctx, env.state.result@) && !env.cancelled && !timed_out,
            timed_out ==> options.timeout_ms is Some && !env.cancelled,
            !done ==> !found && !env.cancelled && !timed_out,
            env.total_nodes >= 1,
            env.total_nodes + if luby_out { 1int } else { 0int } > restarts,
            env.restarts == restarts,
            env.cancelled ==> cancel is Some,
            !luby_out ==> luby.emitted() == restarts + 1,
            luby_out ==> luby_ends(options.luby_base, restarts as nat) && done,
            done && !found ==> timed_out || env.cancelled || restarts == u32::MAX || luby_out,
            parity_facts(ctx),
            forall|r: Seq<usize>| #[trigger] solved(ctx, r) ==> crate::solver::search::adjacency_symmetric(ctx),
            shapes_connected(*input) ==> placements_connected(ctx),
            cond == (options.timeout_ms is None && cancel is None && shapes_connected(*input) && exists|
                r: Seq<usize>,
            | #[trigger] solved(ctx, r)),
            cond && !found ==> env.total_nodes == u64::MAX || env.total_nodes >= luby_total(
                options.luby_base,
                (restarts + if luby_out {
                    0int
                } else {
                    1int
                }) as nat,
            ),
        decreases if done {
            0
        } else {
            u32::MAX - restarts + 1
        },
    {
        if let Some(timeout_ms) = options.timeout_ms {
            if elapsed_ms(&start) >= timeout_ms {
                timed_out = true;
                done = true;
            }
        }
        if !done {
            if let Some(c) = cancel {
                if c.is_cancelled() {
                    env.cancelled = true;
                    done = true;
                }
            }
        }
        if !done {
            if restarts == u32::MAX {
                done = true;
            } else {
                restarts = restarts + 1;
                env.restarts = restarts;
                let ghost k = luby.emitted();
                proof {
                    lemma_luby_positive(k);
                }
                match luby.next() {
                    Some(b) => {
                        proof {
                            let t = luby_term(k);
                            let base = options.luby_base as int;
                            assert(t * base >= 1) by (nonlinear_arith)
                                requires
                                    t >= 1,
                                    base >= 1,
                            ;
                        }
                        env.reset_for_restart(&ctx, b, &mut rng);
                        let ghost tot0 = env.total_nodes;
                        proof {
                            assert(env.state.result@ =~= Seq::<usize>::empty());
                        }
                        if backtrack(&ctx, &mut env, cancel) {
                            found = true;
                            done = true;
                        } else if env.cancelled {
                            done = true;
                        }
                        proof {
                            if cond && !found {
                                lemma_luby_total_mono(options.luby_base, k);
                                if !env.budget_exhausted {
                                    let r = choose|r: Seq<usize>| #[trigger] solved(ctx, r);
                                    assert(Seq::<usize>::empty() + r =~= r);
                                }
                            }
                        }
                    },
                    None => {
                        done = true;
                        proof {
                            assert(k == restarts as nat);
                            luby_out = true;
                        }
                    },
                }
            }
        }
    }
    proof {
        if cond && !found && !luby_out {
            lemma_luby_total_mono(options.luby_base, restarts as nat);
        }
    }
    let elapsed = elapsed_ms(&start);
    let stats = build_stats(&env, seed, elapsed, timed_out, env.cancelled);
    let solution = if found {
        let sol = reconstruct_solution(&ctx, &env.state.result, input);
        proof {
            lemma_solves_is_exact_cover(*input, sol@);
        }
        Some(sol)
    } else {
        None
    };
    let res = ExactCoverResult { solution, stats };
    proof {
        assert(attempts_exhausted(ctx, *input, options, cancel is Some, res));
    }
    Ok(res)
}

/// `sol` covers the target cells exactly once with pieces of the input,
/// each input piece used at most once, and some mark lands on the center
/// region.
pub open spec fn exact_cover_of(input: ExactCoverInput, sol: Seq<SolutionPlacement>) -> bool {
    let cells = keys_coords(input.target_cells@);
    let centers = keys_coords(input.common.center_cells@);
    let pieces = input.common.pieces@;
    &&& forall|j: int, i: int|
        0 <= j < sol.len() && 0 <= i < sol[j].cells@.len() ==> cells.contains(#[trigger] sol[j].cells@[i])
    &&& forall|c: int|
        #![trigger cells[c]]
        0 <= c < cells.len() ==> exists|j: int, i: int|
            0 <= j < sol.len() && 0 <= i < sol[j].cells@.len() && #[trigger] sol[j].cells@[i] == cells[c]
    &&& forall|j1: int, i1: int, j2: int, i2: int|
        0 <= j1 < sol.len() && 0 <= i1 < sol[j1].cells@.len() && 0 <= j2 < sol.len() && 0 <= i2
            < sol[j2].cells@.len() && (j1 != j2 || i1 != i2) ==> #[trigger] sol[j1].cells@[i1]
            != #[trigger] sol[j2].cells@[i2]
    &&& exists|j: int| 0 <= j < sol.len() && centers.contains(#[trigger] sol[j].mark)
    &&& exists|a: Seq<int>|
        a.len() == sol.len() && (forall|j: int|
            0 <= j < sol.len() ==> 0 <= #[trigger] a[j] < pieces.len() && sol[j].piece.def_id
                == pieces[a[j]].def_id && sol[j].piece.index == pieces[a[j]].index) && (forall|
            j1: int,
            j2: int,
        | 0 <= j1 < j2 < sol.len() ==> #[trigger] a[j1] != #[trigger] a[j2])
}

/// The cells of a placement on the board are the board cells it covers.
proof fn lemma_placement_cells(pl: Placement, board: crate::domain::enumerate::BoardLayout, st: crate::domain::enumerate::Site, i: int)
    requires
        is_placement_at(pl, board, st.0, st.1, st.2),
        0 <= i < pl.cells@.len(),
    ensures
        0 <= pl.cell_indices@[i] < board.cells@.len(),
        board.cells@[pl.cell_indices@[i] as int] == pl.cells@[i],
        crate::domain::enumerate::last_index(board.cells@, pl.cells@[i]) == Some(pl.cell_indices@[i] as int),
{
    let off = crate::domain::enumerate::anchor_offset(board.cells@, st.1.0, st.2);
    let q = crate::domain::enumerate::shifted(st.1.0[i], off);
    assert(board_index(board.cells@, q) == Some(pl.cell_indices@[i] as int));
    lemma_board_index_bound(board.cells@, q);
}

/// The context, placements and board behind a solution.
pub open spec fn solution_setting(
    input: ExactCoverInput,
    sol: Seq<SolutionPlacement>,
    ctx: SolveContext,
    r: Seq<usize>,
    board: crate::domain::enumerate::BoardLayout,
) -> bool {
    &&& ctx.wf()
    &&& ctx.describes(input)
    &&& solved(ctx, r)
    &&& solution_of(ctx, input.common.pieces@, r, sol)
    &&& board.wf()
    &&& board.cells@ == keys_coords(input.target_cells@)
    &&& board.center_cells@ == keys_coords(input.common.center_cells@)
    &&& ctx.total_cells as int == board.cells@.len()
    &&& placements_match(ctx.placements@, board, crate::solver::context::input_sites(input))
}

proof fn lemma_sol_cell(
    input: ExactCoverInput,
    sol: Seq<SolutionPlacement>,
    ctx: SolveContext,
    r: Seq<usize>,
    board: crate::domain::enumerate::BoardLayout,
    j: int,
    i: int,
)
    requires
        solution_setting(input, sol, ctx, r, board),
        0 <= j < sol.len(),
        0 <= i < sol[j].cells@.len(),
    ensures
        ({
            let pl = ctx.placements@[r[j] as int];
            &&& sol[j].cells@ == pl.cells@
            &&& 0 <= pl.cell_indices@[i] < board.cells@.len()
            &&& board.cells@[pl.cell_indices@[i] as int] == sol[j].cells@[i]
            &&& crate::domain::enumerate::last_index(board.cells@, sol[j].cells@[i]) == Some(
                pl.cell_indices@[i] as int,
            )
            &&& pl.bits@.contains(pl.cell_indices@[i] as int)
        }),
{
    lemma_model_facts(ctx, r);
    let sites = crate::solver::context::input_sites(input);
    let pl = ctx.placements@[r[j] as int];
    assert((r[j] as int) < ctx.placements@.len());
    assert(is_placement_at(pl, board, sites[r[j] as int].0, sites[r[j] as int].1, sites[r[j] as int].2));
    lemma_placement_cells(pl, board, sites[r[j] as int], i);
}

proof fn lemma_sol_covers(
    input: ExactCoverInput,
    sol: Seq<SolutionPlacement>,
    ctx: SolveContext,
    r: Seq<usize>,
    board: crate::domain::enumerate::BoardLayout,
    c: int,
)
    requires
        solution_setting(input, sol, ctx, r, board),
        0 <= c < board.cells@.len(),
    ensures
        exists|j: int, i: int|
            0 <= j < sol.len() && 0 <= i < sol[j].cells@.len() && #[trigger] sol[j].cells@[i]
                == board.cells@[c],
{
    let n = ctx.total_cells as int;
    let pls = ctx.placements@;
    lemma_model_facts(ctx, r);
    lemma_cover_union(ctx, r);
    let m = model_of(ctx, r);
    lemma_int_range(0, n);
    vstd::set_lib::lemma_subset_equality(m.covered, set_int_range(0, n));
    assert(set_int_range(0, n).contains(c));
    assert(m.covered.contains(c));
    let k = choose|k: int| 0 <= k < r.len() && pls[r[k] as int].bits@.contains(c);
    let pl = pls[r[k] as int];
    ctx.lemma_placement(r[k] as int);
    let i = choose|i: int| 0 <= i < pl.cell_indices@.len() && pl.cell_indices@[i] as int == c;
    lemma_sol_cell(input, sol, ctx, r, board, k, i);
}

proof fn lemma_sol_distinct(
    input: ExactCoverInput,
    sol: Seq<SolutionPlacement>,
    ctx: SolveContext,
    r: Seq<usize>,
    board: crate::domain::enumerate::BoardLayout,
    j1: int,
    i1: int,
    j2: int,
    i2: int,
)
    requires
        solution_setting(input, sol, ctx, r, board),
        0 <= j1 < sol.len(),
        0 <= i1 < sol[j1].cells@.len(),
        0 <= j2 < sol.len(),
        0 <= i2 < sol[j2].cells@.len(),
        j1 != j2 || i1 != i2,
    ensures
        sol[j1].cells@[i1] != sol[j2].cells@[i2],
{
    lemma_model_facts(ctx, r);
    lemma_cover_union(ctx, r);
    lemma_sol_cell(input, sol, ctx, r, board, j1, i1);
    lemma_sol_cell(input, sol, ctx, r, board, j2, i2);
    let p1 = ctx.placements@[r[j1] as int];
    let p2 = ctx.placements@[r[j2] as int];
    ctx.lemma_placement(r[j1] as int);
    if sol[j1].cells@[i1] == sol[j2].cells@[i2] {
        let c = p1.cell_indices@[i1] as int;
        assert(p2.cell_indices@[i2] as int == c);
        if j1 == j2 {
            assert(p1.cell_indices@[i1] == p1.cell_indices@[i2]);
        } else {
            assert(!p1.bits@.disjoint(p2.bits@));
        }
    }
}

/// A solution found for an input covers its target cells exactly once,
/// with distinct input pieces, and lands a mark on the center region.
pub proof fn lemma_solves_is_exact_cover(input: ExactCoverInput, sol: Seq<SolutionPlacement>)
    requires
        input.common.pieces@.len() <= u16::MAX,
        solves(input, sol),
    ensures
        exact_cover_of(input, sol),
{
    let (ctx, r) = choose|ctx: SolveContext, r: Seq<usize>|
        ctx.wf() && ctx.describes(input) && solved(ctx, r) && solution_of(ctx, input.common.pieces@, r, sol);
    let board = lemma_board_of(ctx, input);
    assert(solution_setting(input, sol, ctx, r, board));
    let cells = keys_coords(input.target_cells@);
    let centers = keys_coords(input.common.center_cells@);
    let pieces = input.common.pieces@;
    let pls = ctx.placements@;
    assert forall|j: int, i: int| 0 <= j < sol.len() && 0 <= i < sol[j].cells@.len() implies cells.contains(
        #[trigger] sol[j].cells@[i],
    ) by {
        lemma_sol_cell(input, sol, ctx, r, board, j, i);
    }
    assert forall|c: int| #![trigger cells[c]] 0 <= c < cells.len() implies exists|j: int, i: int|
        0 <= j < sol.len() && 0 <= i < sol[j].cells@.len() && #[trigger] sol[j].cells@[i] == cells[c] by {
        lemma_sol_covers(input, sol, ctx, r, board, c);
    }
    assert forall|j1: int, i1: int, j2: int, i2: int|
        0 <= j1 < sol.len() && 0 <= i1 < sol[j1].cells@.len() && 0 <= j2 < sol.len() && 0 <= i2
            < sol[j2].cells@.len() && (j1 != j2 || i1 != i2) implies #[trigger] sol[j1].cells@[i1]
        != #[trigger] sol[j2].cells@[i2] by {
        lemma_sol_distinct(input, sol, ctx, r, board, j1, i1, j2, i2);
    }
    lemma_sol_center(input, sol, ctx, r, board);
    lemma_sol_pieces(input, sol, ctx, r);
}

proof fn lemma_sol_center(
    input: ExactCoverInput,
    sol: Seq<SolutionPlacement>,
    ctx: SolveContext,
    r: Seq<usize>,
    board: crate::domain::enumerate::BoardLayout,
)
    requires
        solution_setting(input, sol, ctx, r, board),
    ensures
        exists|j: int| 0 <= j < sol.len() && keys_coords(input.common.center_cells@).contains(#[trigger] sol[j].mark),
{
    lemma_model_facts(ctx, r);
    let pls = ctx.placements@;
    let sites = crate::solver::context::input_sites(input);
    assert(model_of(ctx, r).has_center_mark);
    let k = choose|k: int| 0 <= k < r.len() && pls[#[trigger] r[k] as int].mark_on_center;
    assert((r[k] as int) < pls.len());
    assert(is_placement_at(pls[r[k] as int], board, sites[r[k] as int].0, sites[r[k] as int].1, sites[r[k] as int].2));
    assert(keys_coords(input.common.center_cells@).contains(sol[k].mark));
}

proof fn lemma_sol_pieces(input: ExactCoverInput, sol: Seq<SolutionPlacement>, ctx: SolveContext, r: Seq<usize>)
    requires
        input.common.pieces@.len() <= u16::MAX,
        ctx.wf(),
        ctx.describes(input),
        solved(ctx, r),
        solution_of(ctx, input.common.pieces@, r, sol),
    ensures
        exists|a: Seq<int>|
            a.len() == sol.len() && (forall|j: int|
                0 <= j < sol.len() ==> 0 <= #[trigger] a[j] < input.common.pieces@.len()
                    && sol[j].piece.def_id == input.common.pieces@[a[j]].def_id && sol[j].piece.index
                    == input.common.pieces@[a[j]].index) && (forall|j1: int, j2: int|
                0 <= j1 < j2 < sol.len() ==> #[trigger] a[j1] != #[trigger] a[j2]),
{
    let pieces = input.common.pieces@;
    let pls = ctx.placements@;
    lemma_model_facts(ctx, r);
    crate::solver::context::lemma_types_of(ctx, input);
    crate::solver::context::lemma_distinct_ids_pub(pieces, pieces.len() as int);
    let a = Seq::new(sol.len(), |j: int| assigned_piece(ctx, pieces, r, j));
    assert forall|j: int| 0 <= j < sol.len() implies 0 <= #[trigger] a[j] < pieces.len() && sol[j].piece.def_id
        == pieces[a[j]].def_id && sol[j].piece.index == pieces[a[j]].index by {
        lemma_assigned_in_range(ctx, input, r, j);
    }
    assert forall|j1: int, j2: int| 0 <= j1 < j2 < sol.len() implies #[trigger] a[j1] != #[trigger] a[j2] by {
        lemma_assigned_in_range(ctx, input, r, j1);
        lemma_assigned_in_range(ctx, input, r, j2);
        let t1 = pls[r[j1] as int].type_idx as int;
        let t2 = pls[r[j2] as int].type_idx as int;
        ctx.lemma_placement(r[j1] as int);
        ctx.lemma_placement(r[j2] as int);
        if t1 == t2 {
            lemma_uses_mono(ctx, r, t1, j1 + 1, j2);
            assert(uses_of(ctx, r, t1, j1 + 1) == uses_of(ctx, r, t1, j1) + 1);
            let q = pieces_with_id(pieces, ctx.type_ids@[t1]@, pieces.len() as int);
            lemma_pieces_with_id(pieces, ctx.type_ids@[t1]@, pieces.len() as int);
            lemma_remaining_uses(ctx, r, t1);
            lemma_uses_mono(ctx, r, t1, j2 + 1, r.len() as int);
            assert(uses_of(ctx, r, t1, j2 + 1) == uses_of(ctx, r, t1, j2) + 1);
            lemma_uses_mono(ctx, r, t1, 0, j1);
            let u1 = uses_of(ctx, r, t1, j1);
            let u2 = uses_of(ctx, r, t1, j2);
            assert(0 <= u1 < u2 < q.len());
            assert(q[u1] < q[u2]);
            assert(a[j1] == q[u1]);
            assert(a[j2] == q[u2]);
        } else {
            let ids = input_types(input);
            ctx.lemma_placement(r[j1] as int);
            ctx.lemma_placement(r[j2] as int);
            assert(ids[t1] != ids[t2]);
        }
    }
    assert(a.len() == sol.len());
}

/// The piece assigned to an applied placement is an input piece of the
/// placement's type.
proof fn lemma_assigned_in_range(ctx: SolveContext, input: ExactCoverInput, r: Seq<usize>, j: int)
    requires
        ctx.wf(),
        ctx.describes(input),
        input.common.pieces@.len() <= u16::MAX,
        legal(ctx, r),
        0 <= j < r.len(),
    ensures
        0 <= assigned_piece(ctx, input.common.pieces@, r, j) < input.common.pieces@.len(),
        input.common.pieces@[assigned_piece(ctx, input.common.pieces@, r, j)].def_id@ == input_types(input)[
            ctx.placements@[r[j] as int].type_idx as int
        ],
{
    let pieces = input.common.pieces@;
    lemma_model_facts(ctx, r);
    ctx.lemma_placement(r[j] as int);
    crate::solver::context::lemma_types_of(ctx, input);
    let t = ctx.placements@[r[j] as int].type_idx as int;
    lemma_remaining_uses(ctx, r, t);
    lemma_uses_mono(ctx, r, t, j + 1, r.len() as int);
    lemma_uses_mono(ctx, r, t, 0, j);
    assert(uses_of(ctx, r, t, j + 1) == uses_of(ctx, r, t, j) + 1);
    lemma_pieces_with_id(pieces, ctx.type_ids@[t]@, pieces.len() as int);
    let q = pieces_with_id(pieces, ctx.type_ids@[t]@, pieces.len() as int);
    assert(q.len() == ctx.type_counts@[t]);
    let u = uses_of(ctx, r, t, j);
    assert(0 <= u < q.len());
    assert(0 <= q[u] < pieces.len());
}

} // verus!
