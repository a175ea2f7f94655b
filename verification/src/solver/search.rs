//! Backtracking search for an exact cover: the model of the search state as
//! a function of the applied placements, the unit-propagation cascade, and
//! the recursive search itself.

use crate::base::bitset::CAPACITY;
use crate::domain::enumerate::index_set;
use crate::domain::placement::Placement;
use crate::base::rng::{is_rearrangement, is_permutation, shuffle, SolverRng};
use crate::solver::cancel::CancelFlag;
use crate::solver::context::{
    cells_sum, cm_types, count_sum, groups_cover, lemma_cm_types_bound, lists_covering, lists_covering_of_type, placement_ok,
    SolveContext,
};
use crate::solver::pruning::{
    groups_ok, indexed_for_remaining, island_check, islands_feasible, neighbor_check, neighbors_coverable_in,
    parity_check, piece_sizes, subset_sum, weighted_sum, IslandWorkspace, TypeGroup,
};
use crate::base::connectivity::{closed_set, has_edge, lemma_walk_stays, open_cell, open_cells};
use crate::solver::pruning::min_remaining_size;
use crate::solver::state::{lemma_undo_inverts_apply, PlacementUndo, SearchModel, SearchState};
use vstd::prelude::*;
use vstd::set_lib::{lemma_int_range, lemma_len_subset, set_int_range};

verus! {

broadcast use vstd::set_lib::lemma_set_disjoint_lens;

/// Applying `pl` to `s` uses up the last instance of a type that can land
/// a mark on the center region.
pub open spec fn drop_spec(ctx: SolveContext, s: SearchModel, pl: Placement) -> bool {
    s.remaining[pl.type_idx as int] == 1 && ctx.center_mark_counts@[pl.type_idx as int] > 0
}

/// The search state before any placement.
pub open spec fn initial_model(ctx: SolveContext) -> SearchModel {
    SearchModel::initial(
        ctx.type_counts@,
        cm_types(ctx.type_counts@, ctx.center_mark_counts@, ctx.type_ids@.len() as int),
    )
}

/// The search state after applying the placements `r` in order.
pub open spec fn model_of(ctx: SolveContext, r: Seq<usize>) -> SearchModel
    decreases r.len(),
{
    if r.len() == 0 {
        initial_model(ctx)
    } else {
        let prev = model_of(ctx, r.drop_last());
        let pl = ctx.placements@[r.last() as int];
        prev.after_apply(pl, r.last(), drop_spec(ctx, prev, pl))
    }
}

/// Each placement of `r` could be applied in turn: its type had an
/// instance left and its cells were free.
pub open spec fn legal(ctx: SolveContext, r: Seq<usize>) -> bool
    decreases r.len(),
{
    if r.len() == 0 {
        true
    } else {
        let prev = model_of(ctx, r.drop_last());
        let pl = ctx.placements@[r.last() as int];
        &&& legal(ctx, r.drop_last())
        &&& (r.last() as int) < ctx.placements@.len()
        &&& prev.can_apply(pl, drop_spec(ctx, prev, pl))
    }
}

/// Some placement of `r` lands its mark on the center region.
pub open spec fn some_center(ctx: SolveContext, r: Seq<usize>) -> bool {
    exists|k: int| 0 <= k < r.len() && ctx.placements@[#[trigger] r[k] as int].mark_on_center
}

/// Facts that hold of every reachable search state.
pub open spec fn model_facts(ctx: SolveContext, r: Seq<usize>) -> bool {
    let m = model_of(ctx, r);
    let n = ctx.total_cells as int;
    let nt = ctx.type_ids@.len() as int;
    &&& m.result == r
    &&& m.in_range()
    &&& m.remaining.len() == nt
    &&& forall|t: int| 0 <= t < nt ==> #[trigger] m.remaining[t] <= ctx.type_counts@[t]
    &&& m.covered.subset_of(set_int_range(0, n))
    &&& m.covered.finite()
    &&& m.covered_count == m.covered.len()
    &&& m.covered_black <= m.covered_count
    &&& m.center_mark_type_remaining == cm_types(m.remaining, ctx.center_mark_counts@, nt)
    &&& m.has_center_mark == some_center(ctx, r)
    &&& forall|k: int| 0 <= k < r.len() ==> (#[trigger] r[k] as int) < ctx.placements@.len()
}

proof fn lemma_index_set_len(ci: Seq<u16>)
    requires
        ci.no_duplicates(),
    ensures
        index_set(ci).finite(),
        index_set(ci).len() == ci.len(),
    decreases ci.len(),
{
    if ci.len() == 0 {
        assert(index_set(ci) =~= Set::<int>::empty());
    } else {
        let d = ci.drop_last();
        assert(d.no_duplicates());
        lemma_index_set_len(d);
        assert(index_set(ci) =~= index_set(d).insert(ci.last() as int)) by {
            assert forall|i: int| #[trigger] index_set(ci).contains(i) == index_set(d).insert(
                ci.last() as int,
            ).contains(i) by {
                if index_set(d).contains(i) {
                    let k = choose|k: int| 0 <= k < d.len() && d[k] as int == i;
                    assert(ci[k] == d[k]);
                }
                if index_set(ci).contains(i) && i != ci.last() as int {
                    let k = choose|k: int| 0 <= k < ci.len() && ci[k] as int == i;
                    assert(k < d.len());
                    assert(d[k] == ci[k]);
                }
                if i == ci.last() as int {
                    assert(ci[ci.len() - 1] as int == i);
                }
            }
        }
        assert(!index_set(d).contains(ci.last() as int)) by {
            if index_set(d).contains(ci.last() as int) {
                let k = choose|k: int| 0 <= k < d.len() && d[k] as int == ci.last() as int;
                assert(ci[k] == ci[ci.len() - 1]);
            }
        }
    }
}

/// The cells of a placement form a finite set of board cells, as many as
/// the placement lists.
pub proof fn lemma_placement_bits(pl: Placement, n: int, nt: int)
    requires
        placement_ok(pl, n, nt),
        n >= 0,
    ensures
        pl.bits@.finite(),
        pl.bits@.len() == pl.cell_indices@.len(),
        pl.bits@.subset_of(set_int_range(0, n)),
{
    lemma_index_set_len(pl.cell_indices@);
    assert forall|i: int| pl.bits@.contains(i) implies set_int_range(0, n).contains(i) by {
        let k = choose|k: int| 0 <= k < pl.cell_indices@.len() && pl.cell_indices@[k] as int == i;
        assert(pl.cell_indices@[k] < n);
    }
}

proof fn lemma_cm_types_update(remaining: Seq<u16>, cmc: Seq<u16>, k: int, t: int, v: u16)
    requires
        0 <= t < remaining.len(),
        0 <= k <= remaining.len(),
    ensures
        cm_types(remaining.update(t, v), cmc, k) == cm_types(remaining, cmc, k) - (if t < k
            && remaining[t] > 0 && cmc[t] > 0 {
            1int
        } else {
            0int
        }) + (if t < k && v > 0 && cmc[t] > 0 {
            1int
        } else {
            0int
        }),
    decreases k,
{
    if k > 0 {
        lemma_cm_types_update(remaining, cmc, k - 1, t, v);
    }
}

proof fn lemma_cm_types_positive(remaining: Seq<u16>, cmc: Seq<u16>, k: int, t: int)
    requires
        0 <= t < k,
        remaining[t] > 0,
        cmc[t] > 0,
    ensures
        cm_types(remaining, cmc, k) >= 1,
    decreases k,
{
    lemma_cm_types_bound(remaining, cmc, k - 1);
    if t < k - 1 {
        lemma_cm_types_positive(remaining, cmc, k - 1, t);
    }
}

/// Every reachable state satisfies [`model_facts`].
pub proof fn lemma_model_facts(ctx: SolveContext, r: Seq<usize>)
    requires
        ctx.wf(),
        legal(ctx, r),
    ensures
        model_facts(ctx, r),
    decreases r.len(),
{
    let n = ctx.total_cells as int;
    let nt = ctx.type_ids@.len() as int;
    let cmc = ctx.center_mark_counts@;
    if r.len() == 0 {
        lemma_cm_types_bound(ctx.type_counts@, cmc, nt);
        let m = model_of(ctx, r);
        assert(m.covered =~= Set::<int>::empty());
        assert(m.result =~= r);
        assert(!some_center(ctx, r));
    } else {
        let d = r.drop_last();
        lemma_model_facts(ctx, d);
        let prev = model_of(ctx, d);
        let p = r.last();
        let pl = ctx.placements@[p as int];
        let drop = drop_spec(ctx, prev, pl);
        let m = model_of(ctx, r);
        ctx.lemma_placement(p as int);
        lemma_placement_bits(pl, n, nt);
        let t = pl.type_idx as int;
        assert(m.result =~= r);
        assert(m.covered == prev.covered.union(pl.bits@));
        assert(m.covered.subset_of(set_int_range(0, n)));
        assert(m.covered.len() == prev.covered.len() + pl.bits@.len());
        lemma_cm_types_update(prev.remaining, cmc, nt, t, (prev.remaining[t] - 1) as u16);
        assert forall|q: int| 0 <= q < nt implies #[trigger] m.remaining[q] <= ctx.type_counts@[q] by {
            assert(prev.remaining[q] <= ctx.type_counts@[q]);
        }
        assert(m.has_center_mark == some_center(ctx, r)) by {
            if some_center(ctx, d) {
                let k = choose|k: int| 0 <= k < d.len() && ctx.placements@[#[trigger] d[k] as int].mark_on_center;
                assert(r[k] == d[k]);
            }
            if pl.mark_on_center {
                assert(ctx.placements@[r[r.len() - 1] as int].mark_on_center);
            }
            if some_center(ctx, r) {
                let k = choose|k: int| 0 <= k < r.len() && ctx.placements@[#[trigger] r[k] as int].mark_on_center;
                if k < d.len() {
                    assert(d[k] == r[k]);
                }
            }
        }
        assert forall|k: int| 0 <= k < r.len() implies (#[trigger] r[k] as int) < ctx.placements@.len() by {
            if k < d.len() {
                assert(d[k] == r[k]);
            }
        }
    }
}

/// A placement whose type has an instance left and whose cells are free
/// may be applied to a reachable state.
pub proof fn lemma_can_apply(ctx: SolveContext, r: Seq<usize>, p: int)
    requires
        ctx.wf(),
        legal(ctx, r),
        0 <= p < ctx.placements@.len(),
        model_of(ctx, r).remaining[ctx.placements@[p].type_idx as int] > 0,
        model_of(ctx, r).covered.disjoint(ctx.placements@[p].bits@),
    ensures
        model_of(ctx, r).can_apply(
            ctx.placements@[p],
            drop_spec(ctx, model_of(ctx, r), ctx.placements@[p]),
        ),
{
    lemma_model_facts(ctx, r);
    let m = model_of(ctx, r);
    let n = ctx.total_cells as int;
    let nt = ctx.type_ids@.len() as int;
    let pl = ctx.placements@[p];
    ctx.lemma_placement(p);
    lemma_placement_bits(pl, n, nt);
    let u = m.covered.union(pl.bits@);
    lemma_int_range(0, n);
    assert(u.subset_of(set_int_range(0, n)));
    lemma_len_subset(u, set_int_range(0, n));
    assert(u.len() == m.covered.len() + pl.bits@.len());
    if drop_spec(ctx, m, pl) {
        lemma_cm_types_positive(m.remaining, ctx.center_mark_counts@, nt, pl.type_idx as int);
    }
}

/// Applying a placement that may be applied extends the legal sequence.
pub proof fn lemma_apply_legal(ctx: SolveContext, r: Seq<usize>, p: usize)
    requires
        legal(ctx, r),
        (p as int) < ctx.placements@.len(),
        model_of(ctx, r).can_apply(
            ctx.placements@[p as int],
            drop_spec(ctx, model_of(ctx, r), ctx.placements@[p as int]),
        ),
    ensures
        legal(ctx, r.push(p)),
        model_of(ctx, r.push(p)) == model_of(ctx, r).after_apply(
            ctx.placements@[p as int],
            p,
            drop_spec(ctx, model_of(ctx, r), ctx.placements@[p as int]),
        ),
{
    assert(r.push(p).drop_last() =~= r);
}

/// Undoing the last placement of a legal sequence, with the token its
/// application returned, gives back the state before it.
pub proof fn lemma_undo_legal(ctx: SolveContext, r: Seq<usize>)
    requires
        ctx.wf(),
        legal(ctx, r),
        r.len() > 0,
    ensures
        ({
            let d = r.drop_last();
            let pl = ctx.placements@[r.last() as int];
            let undo = PlacementUndo {
                prev_has_center_mark: model_of(ctx, d).has_center_mark,
                center_mark_type_drop: drop_spec(ctx, model_of(ctx, d), pl),
            };
            &&& model_of(ctx, r).can_undo(pl, undo)
            &&& model_of(ctx, r).after_undo(pl, undo) == model_of(ctx, d)
            &&& legal(ctx, d)
        }),
{
    let d = r.drop_last();
    lemma_model_facts(ctx, d);
    let pl = ctx.placements@[r.last() as int];
    lemma_undo_inverts_apply(model_of(ctx, d), pl, r.last(), drop_spec(ctx, model_of(ctx, d), pl));
}

/// The token that undoes the placement on top of the stack `r`, rebuilt
/// from the rest of the stack.
pub open spec fn undo_token(ctx: SolveContext, r: Seq<usize>) -> PlacementUndo {
    let d = r.drop_last();
    PlacementUndo {
        prev_has_center_mark: model_of(ctx, d).has_center_mark,
        center_mark_type_drop: drop_spec(ctx, model_of(ctx, d), ctx.placements@[r.last() as int]),
    }
}

/// The state reached from the stack `r` by undoing its top `k`
/// placements one by one, each with its rebuilt token.
pub open spec fn undone(ctx: SolveContext, r: Seq<usize>, k: nat) -> SearchModel
    decreases k,
{
    if k == 0 {
        model_of(ctx, r)
    } else {
        let t = undone(ctx, r, (k - 1) as nat);
        let top = r.take(r.len() - (k - 1));
        t.after_undo(ctx.placements@[top.last() as int], undo_token(ctx, top))
    }
}

/// Undoing the top `k` placements of a legal stack, one by one with
/// rebuilt tokens, gives back exactly the state of the stack without them.
pub proof fn lemma_undo_steps(ctx: SolveContext, r: Seq<usize>, k: nat)
    requires
        ctx.wf(),
        legal(ctx, r),
        k <= r.len(),
    ensures
        undone(ctx, r, k) == model_of(ctx, r.take(r.len() - k)),
        legal(ctx, r.take(r.len() - k)),
    decreases k,
{
    if k == 0 {
        assert(r.take(r.len() as int) =~= r);
    } else {
        lemma_undo_steps(ctx, r, (k - 1) as nat);
        let top = r.take(r.len() - (k - 1));
        assert(top.drop_last() =~= r.take(r.len() - k));
        lemma_undo_legal(ctx, top);
    }
}

/// Undoing, one by one, the placements `q` that a cascade pushed on top
/// of a stack `r` restores the state of `r` exactly.
pub proof fn lemma_cascade_undo_restores(ctx: SolveContext, r: Seq<usize>, q: Seq<usize>)
    requires
        ctx.wf(),
        legal(ctx, r + q),
    ensures
        undone(ctx, r + q, q.len()) == model_of(ctx, r),
{
    lemma_undo_steps(ctx, r + q, q.len());
    assert((r + q).take((r + q).len() - q.len()) =~= r);
}

proof fn lemma_weighted_sum_bound(counts: Seq<u16>, weights: Seq<u8>, k: int)
    requires
        0 <= k <= counts.len(),
        k <= weights.len(),
    ensures
        0 <= weighted_sum(counts, weights, k) <= 255 * count_sum(counts, k),
        count_sum(counts, k) >= 0,
    decreases k,
{
    if k > 0 {
        lemma_weighted_sum_bound(counts, weights, k - 1);
        let a = counts[k - 1] as int;
        let b = weights[k - 1] as int;
        assert(a * b <= 255 * a && a * b >= 0) by (nonlinear_arith)
            requires
                0 <= a,
                0 <= b <= 255,
        ;
    }
}

proof fn lemma_count_sum_le(a: Seq<u16>, b: Seq<u16>, k: int)
    requires
        0 <= k <= a.len(),
        k <= b.len(),
        forall|t: int| 0 <= t < k ==> #[trigger] a[t] <= b[t],
    ensures
        count_sum(a, k) <= count_sum(b, k),
    decreases k,
{
    if k > 0 {
        lemma_count_sum_le(a, b, k - 1);
    }
}

/// The cells of every group name existing types and placements.
proof fn lemma_groups_ok(ctx: SolveContext, c: int)
    requires
        ctx.wf(),
        0 <= c < ctx.total_cells,
    ensures
        groups_ok(ctx.cell_pl_by_type@[c]@, ctx.type_ids@.len() as int, ctx.placements@.len() as int),
{
    let groups = ctx.cell_pl_by_type@[c]@;
    let pls = ctx.placements@;
    ctx.lemma_cell(c);
    assert forall|g: int| 0 <= g < groups.len() implies (#[trigger] groups[g]).type_idx < ctx.type_ids@.len()
        && forall|q: int| 0 <= q < groups[g].placements@.len() ==> (#[trigger] groups[g].placements@[q])
        < pls.len() by {
        let v = groups[g].placements@;
        let p = v[0] as int;
        assert(pls[p].bits@.contains(c) && pls[p].type_idx == groups[g].type_idx);
        ctx.lemma_placement(p);
    }
}

/// The cell order lists every board cell exactly once.
pub open spec fn order_ok(order: Seq<u16>, n: int) -> bool {
    &&& order.len() == n
    &&& order.no_duplicates()
    &&& forall|k: int| 0 <= k < order.len() ==> (#[trigger] order[k]) < n
}

proof fn lemma_order_complete(order: Seq<u16>, n: int, c: int)
    requires
        order_ok(order, n),
        0 <= c < n,
    ensures
        exists|k: int| 0 <= k < order.len() && order[k] as int == c,
{
    let s = Set::new(|i: int| exists|k: int| 0 <= k < order.len() && order[k] as int == i);
    let m = order.map_values(|x: u16| x as int);
    assert(m.no_duplicates()) by {
        assert forall|a: int, b: int| 0 <= a < m.len() && 0 <= b < m.len() && a != b implies m[a] != m[b] by {
            assert(order[a] != order[b]);
        }
    }
    m.unique_seq_to_set();
    assert(m.to_set() =~= s) by {
        assert forall|i: int| #[trigger] s.contains(i) == m.to_set().contains(i) by {
            if s.contains(i) {
                let k = choose|k: int| 0 <= k < order.len() && order[k] as int == i;
                assert(m[k] == i);
            }
            if m.to_set().contains(i) {
                let k = choose|k: int| 0 <= k < m.len() && m[k] == i;
                assert(order[k] as int == i);
            }
        }
    }
    lemma_int_range(0, n);
    assert(s.subset_of(set_int_range(0, n)));
    vstd::set_lib::lemma_subset_equality(s, set_int_range(0, n));
    assert(s.contains(c));
}

/// Mutable per-restart environment for the backtracking search.
pub struct BacktrackEnv {
    /// Search state mutated during backtracking.
    pub state: SearchState,
    /// Workspace buffers reused across island checks.
    pub island_ws: IslandWorkspace,
    /// Cell ordering used by the MRV scan; shuffled at each restart.
    pub cell_order: Vec<u16>,
    /// Nodes visited in the current restart.
    pub nodes_this_restart: u64,
    /// Maximum nodes allowed in the current restart.
    pub node_budget: u64,
    /// Set when `nodes_this_restart` reaches `node_budget`.
    pub budget_exhausted: bool,
    /// Nodes visited since the start of the solve.
    pub total_nodes: u64,
    /// Number of restarts after the first attempt.
    pub restarts: u32,
    /// Unit propagations applied.
    pub unit_propagations: u64,
    /// Times the parity check rejected a subtree.
    pub parity_prunes: u64,
    /// Times the island check rejected a subtree.
    pub island_prunes: u64,
    /// Times the neighbor check rejected a placement.
    pub neighbor_prunes: u64,
    /// Times the scan found a cell with no placement.
    pub dead_cell_prunes: u64,
    /// Set when the cancel flag is observed.
    pub cancelled: bool,
}

impl BacktrackEnv {
    /// The state is the one reached by applying its result stack, and the
    /// buffers fit the board.
    pub open spec fn inv(&self, ctx: SolveContext) -> bool {
        &&& legal(ctx, self.state.result@)
        &&& self.state@ == model_of(ctx, self.state.result@)
        &&& self.island_ws.wf_for(ctx.total_cells as int)
        &&& order_ok(self.cell_order@, ctx.total_cells as int)
    }
}

/// A legal sequence of placements that covers every cell and lands some
/// mark on the center region.
pub open spec fn solved(ctx: SolveContext, r: Seq<usize>) -> bool {
    &&& legal(ctx, r)
    &&& model_of(ctx, r).covered_count == ctx.total_cells
    &&& model_of(ctx, r).has_center_mark
}

/// Returns `true` if applying `pl` drops `center_mark_type_remaining`.
fn will_drop_center_mark_type(ctx: &SolveContext, state: &SearchState, pl: &Placement) -> (r: bool)
    requires
        ctx.wf(),
        (pl.type_idx as int) < ctx.type_ids@.len(),
        state.remaining@.len() == ctx.type_ids@.len(),
    ensures
        r == drop_spec(*ctx, state@, *pl),
{
    let ti = pl.type_idx as usize;
    state.remaining[ti] == 1 && ctx.center_mark_counts[ti] > 0
}

/// Placement `p` fits state `s`: its type has an instance left and its
/// cells are free.
pub open spec fn valid_in(ctx: SolveContext, s: SearchModel, p: int) -> bool {
    &&& s.remaining[ctx.placements@[p].type_idx as int] != 0
    &&& s.covered.disjoint(ctx.placements@[p].bits@)
}

/// Number of placements among the first `k` of `list` that fit `s`.
pub open spec fn num_valid(ctx: SolveContext, s: SearchModel, list: Seq<u32>, k: int) -> int
    decreases k,
{
    if k <= 0 {
        0
    } else {
        num_valid(ctx, s, list, k - 1) + if valid_in(ctx, s, list[k - 1] as int) {
            1int
        } else {
            0int
        }
    }
}

/// The first placement of `list`, from position `j` on, that fits `s`.
pub open spec fn first_valid_from(ctx: SolveContext, s: SearchModel, list: Seq<u32>, j: int) -> Option<u32>
    decreases list.len() - j,
{
    if j < 0 || j >= list.len() {
        None
    } else if valid_in(ctx, s, list[j] as int) {
        Some(list[j])
    } else {
        first_valid_from(ctx, s, list, j + 1)
    }
}

proof fn lemma_first_valid(ctx: SolveContext, s: SearchModel, list: Seq<u32>, j: int)
    requires
        0 <= j <= list.len(),
    ensures
        first_valid_from(ctx, s, list, j) matches Some(p) ==> exists|q: int|
            j <= q < list.len() && list[q] == p && valid_in(ctx, s, p as int),
        num_valid(ctx, s, list, list.len() as int) > num_valid(ctx, s, list, j) ==> first_valid_from(
            ctx,
            s,
            list,
            j,
        ) is Some,
    decreases list.len() - j,
{
    if j < list.len() {
        lemma_first_valid(ctx, s, list, j + 1);
        if !valid_in(ctx, s, list[j] as int) {
            assert(num_valid(ctx, s, list, j + 1) == num_valid(ctx, s, list, j));
        }
    }
}

proof fn lemma_first_valid_is(ctx: SolveContext, s: SearchModel, list: Seq<u32>, j: int, q: int)
    requires
        0 <= j <= q < list.len(),
        valid_in(ctx, s, list[q] as int),
        forall|i: int| j <= i < q ==> !valid_in(ctx, s, #[trigger] list[i] as int),
    ensures
        first_valid_from(ctx, s, list, j) == Some(list[q]),
    decreases q - j,
{
    if j < q {
        lemma_first_valid_is(ctx, s, list, j + 1, q);
    }
}

proof fn lemma_num_valid_mono(ctx: SolveContext, s: SearchModel, list: Seq<u32>, a: int, b: int)
    requires
        0 <= a <= b,
    ensures
        0 <= num_valid(ctx, s, list, a) <= num_valid(ctx, s, list, b),
    decreases b,
{
    if a < b {
        lemma_num_valid_mono(ctx, s, list, a, b - 1);
    } else if b > 0 {
        lemma_num_valid_mono(ctx, s, list, a - 1, b - 1);
    }
}

/// Counts the placements of `list` that fit the state, stopping at `cap`,
/// and returns the first one found.
fn count_valid(ctx: &SolveContext, state: &SearchState, list: &Vec<u32>, cap: u64) -> (r: (u64, u32))
    requires
        ctx.wf(),
        state.remaining@.len() == ctx.type_ids@.len(),
        forall|k: int| 0 <= k < list@.len() ==> (#[trigger] list@[k]) < ctx.placements@.len(),
    ensures
        r.0 as int == if num_valid(*ctx, state@, list@, list@.len() as int) < cap {
            num_valid(*ctx, state@, list@, list@.len() as int)
        } else {
            cap as int
        },
        r.0 >= 1 ==> first_valid_from(*ctx, state@, list@, 0) == Some(r.1),
{
    let mut count: u64 = 0;
    let mut first: u32 = 0;
    let mut j: usize = 0;
    while j < list.len() && count < cap
        invariant
            ctx.wf(),
            state.remaining@.len() == ctx.type_ids@.len(),
            forall|k: int| 0 <= k < list@.len() ==> (#[trigger] list@[k]) < ctx.placements@.len(),
            j <= list@.len(),
            count as int == num_valid(*ctx, state@, list@, j as int),
            count <= cap,
            count == 0 ==> forall|i: int| 0 <= i < j ==> !valid_in(*ctx, state@, #[trigger] list@[i] as int),
            count >= 1 ==> first_valid_from(*ctx, state@, list@, 0) == Some(first),
        decreases list@.len() - j,
    {
        let p_idx = list[j];
        let pl = &ctx.placements[p_idx as usize];
        proof {
            ctx.lemma_placement(p_idx as int);
        }
        let ti = pl.type_idx as usize;
        let ok = state.remaining[ti] != 0 && !state.covered.has_overlap(&pl.bits);
        proof {
            assert(ok == valid_in(*ctx, state@, p_idx as int));
        }
        if ok {
            if count == 0 {
                first = p_idx;
                proof {
                    lemma_first_valid_is(*ctx, state@, list@, 0, j as int);
                }
            }
            count = count + 1;
        }
        j = j + 1;
    }
    proof {
        lemma_num_valid_mono(*ctx, state@, list@, j as int, list@.len() as int);
    }
    (count, first)
}

proof fn lemma_num_valid_le(ctx: SolveContext, s: SearchModel, list: Seq<u32>, k: int)
    requires
        0 <= k,
    ensures
        num_valid(ctx, s, list, k) <= k,
    decreases k,
{
    if k > 0 {
        lemma_num_valid_le(ctx, s, list, k - 1);
    }
}

/// A strictly increasing list of `u32` values has at most `2^32` entries.
proof fn lemma_increasing_len(v: Seq<u32>)
    requires
        forall|a: int, b: int| 0 <= a < b < v.len() ==> v[a] < v[b],
    ensures
        v.len() <= u32::MAX + 1,
{
    assert forall|k: int| 0 <= k < v.len() implies k <= #[trigger] v[k] by {
        lemma_increasing_from(v, k);
    }
    if v.len() > u32::MAX + 1 {
        assert(v[u32::MAX as int + 1] >= u32::MAX + 1);
    }
}

proof fn lemma_increasing_from(v: Seq<u32>, k: int)
    requires
        forall|a: int, b: int| 0 <= a < b < v.len() ==> v[a] < v[b],
        0 <= k < v.len(),
    ensures
        k <= v[k],
    decreases k,
{
    if k > 0 {
        lemma_increasing_from(v, k - 1);
    }
}

/// Result of one scan over the uncovered cells.
pub enum MrvOutcome {
    /// Some cell has no valid placement: the subtree is dead.
    DeadCell,
    /// Some cell has exactly one valid placement, which is forced.
    Unit { placement_idx: u32 },
    /// Every uncovered cell has at least two valid placements: branch on
    /// the cell with the fewest.
    Branch { cell_idx: u16 },
    /// No uncovered cell remains.
    AllCovered,
}

/// Number of the placements listed for cell `c` that fit `s`.
pub open spec fn cell_count(ctx: SolveContext, s: SearchModel, c: int) -> int {
    let list = ctx.cell_to_placements@[c]@;
    num_valid(ctx, s, list, list.len() as int)
}

/// Position `k` of the order holds an uncovered cell.
pub open spec fn open_at(s: SearchModel, order: Seq<u16>, k: int) -> bool {
    !s.covered.contains(order[k] as int)
}

/// Position `k` of the order holds an uncovered cell with no valid placement.
pub open spec fn dead_at(ctx: SolveContext, s: SearchModel, order: Seq<u16>, k: int) -> bool {
    open_at(s, order, k) && cell_count(ctx, s, order[k] as int) == 0
}

/// The first of the first `k` positions of the order that holds an
/// uncovered cell with exactly one valid placement.
pub open spec fn unit_upto(ctx: SolveContext, s: SearchModel, order: Seq<u16>, k: int) -> Option<int>
    decreases k,
{
    if k <= 0 {
        None
    } else {
        match unit_upto(ctx, s, order, k - 1) {
            Some(j) => Some(j),
            None => if open_at(s, order, k - 1) && cell_count(ctx, s, order[k - 1] as int) == 1 {
                Some(k - 1)
            } else {
                None
            },
        }
    }
}

/// The first of the first `k` positions of the order whose uncovered cell
/// has the fewest valid placements.
pub open spec fn best_upto(ctx: SolveContext, s: SearchModel, order: Seq<u16>, k: int) -> Option<int>
    decreases k,
{
    if k <= 0 {
        None
    } else {
        let b = best_upto(ctx, s, order, k - 1);
        if !open_at(s, order, k - 1) {
            b
        } else {
            match b {
                None => Some(k - 1),
                Some(j) => if cell_count(ctx, s, order[k - 1] as int) < cell_count(ctx, s, order[j] as int) {
                    Some(k - 1)
                } else {
                    Some(j)
                },
            }
        }
    }
}

/// What a scan of the cells in `order` finds, strongest first: a cell
/// with no valid placement; else the first cell with exactly one, whose
/// placement is forced; else the first cell with the fewest valid
/// placements, to branch on; else no uncovered cell.
pub open spec fn scan_spec(ctx: SolveContext, s: SearchModel, order: Seq<u16>) -> MrvOutcome {
    if exists|k: int| 0 <= k < order.len() && dead_at(ctx, s, order, k) {
        MrvOutcome::DeadCell
    } else {
        match unit_upto(ctx, s, order, order.len() as int) {
            Some(k) => MrvOutcome::Unit {
                placement_idx: first_valid_from(ctx, s, ctx.cell_to_placements@[order[k] as int]@, 0)->0,
            },
            None => match best_upto(ctx, s, order, order.len() as int) {
                Some(k) => MrvOutcome::Branch { cell_idx: order[k] },
                None => MrvOutcome::AllCovered,
            },
        }
    }
}

proof fn lemma_unit_upto(ctx: SolveContext, s: SearchModel, order: Seq<u16>, k: int)
    requires
        0 <= k <= order.len(),
    ensures
        unit_upto(ctx, s, order, k) matches Some(j) ==> 0 <= j < k && open_at(s, order, j) && cell_count(
            ctx,
            s,
            order[j] as int,
        ) == 1,
        unit_upto(ctx, s, order, k) is None ==> forall|j: int|
            0 <= j < k && #[trigger] open_at(s, order, j) ==> cell_count(ctx, s, order[j] as int) != 1,
    decreases k,
{
    if k > 0 {
        lemma_unit_upto(ctx, s, order, k - 1);
    }
}

proof fn lemma_best_upto(ctx: SolveContext, s: SearchModel, order: Seq<u16>, k: int)
    requires
        0 <= k <= order.len(),
    ensures
        best_upto(ctx, s, order, k) matches Some(j) ==> 0 <= j < k && open_at(s, order, j) && forall|i: int|
            0 <= i < k && #[trigger] open_at(s, order, i) ==> cell_count(ctx, s, order[j] as int)
                <= cell_count(ctx, s, order[i] as int),
        best_upto(ctx, s, order, k) is None ==> forall|i: int| 0 <= i < k ==> !#[trigger] open_at(s, order, i),
    decreases k,
{
    if k > 0 {
        lemma_best_upto(ctx, s, order, k - 1);
    }
}

/// What each outcome of a scan says of the uncovered cells: a dead cell
/// wins over everything; a forced placement fits its cell, the only one
/// that does; a branch cell has the fewest valid placements, at least
/// two, of all uncovered cells; and all covered means no uncovered cell.
pub proof fn lemma_scan_spec(ctx: SolveContext, s: SearchModel, order: Seq<u16>)
    ensures
        (scan_spec(ctx, s, order) is DeadCell) == (exists|k: int|
            0 <= k < order.len() && dead_at(ctx, s, order, k)),
        scan_spec(ctx, s, order) matches MrvOutcome::Unit { placement_idx } ==> exists|k: int|
            0 <= k < order.len() && open_at(s, order, k) && cell_count(ctx, s, order[k] as int) == 1
                && first_valid_from(ctx, s, ctx.cell_to_placements@[order[k] as int]@, 0) == Some(
                placement_idx,
            ),
        scan_spec(ctx, s, order) matches MrvOutcome::Branch { cell_idx } ==> exists|k: int|
            0 <= k < order.len() && open_at(s, order, k) && order[k] == cell_idx && forall|i: int|
                0 <= i < order.len() && #[trigger] open_at(s, order, i) ==> 2 <= cell_count(
                    ctx,
                    s,
                    cell_idx as int,
                ) <= cell_count(ctx, s, order[i] as int),
        (scan_spec(ctx, s, order) is AllCovered) == (forall|i: int|
            0 <= i < order.len() ==> !#[trigger] open_at(s, order, i)),
{
    let n = order.len() as int;
    lemma_unit_upto(ctx, s, order, n);
    lemma_best_upto(ctx, s, order, n);
    let dead = exists|k: int| 0 <= k < order.len() && dead_at(ctx, s, order, k);
    if !dead {
        if let Some(k) = unit_upto(ctx, s, order, n) {
            let list = ctx.cell_to_placements@[order[k] as int]@;
            lemma_first_valid(ctx, s, list, 0);
            lemma_num_valid_mono(ctx, s, list, 0, list.len() as int);
            assert(first_valid_from(ctx, s, list, 0) is Some);
            assert(!(forall|i: int| 0 <= i < order.len() ==> !#[trigger] open_at(s, order, i)));
        } else if let Some(k) = best_upto(ctx, s, order, n) {
            assert forall|i: int| 0 <= i < order.len() && #[trigger] open_at(s, order, i) implies 2
                <= cell_count(ctx, s, order[k] as int) <= cell_count(ctx, s, order[i] as int) by {
                let lk = ctx.cell_to_placements@[order[k] as int]@;
                lemma_num_valid_mono(ctx, s, lk, 0, lk.len() as int);
                assert(!dead_at(ctx, s, order, k));
            }
            assert(!(forall|i: int| 0 <= i < order.len() ==> !#[trigger] open_at(s, order, i)));
        }
    } else {
        let k = choose|k: int| 0 <= k < order.len() && dead_at(ctx, s, order, k);
        assert(open_at(s, order, k));
    }
}

/// Scans the uncovered cells once, in the environment's cell order, and
/// reports the strongest outcome: a dead cell, else a forced placement,
/// else the cell with the fewest valid placements.
fn scan_uncovered(ctx: &SolveContext, env: &BacktrackEnv) -> (r: MrvOutcome)
    requires
        ctx.wf(),
        env.inv(*ctx),
    ensures
        r == scan_spec(*ctx, env.state@, env.cell_order@),
{
    let ghost s = env.state@;
    let ghost order = env.cell_order@;
    proof {
        lemma_model_facts(*ctx, env.state.result@);
    }
    let mut unit: Option<u32> = None;
    let mut best: Option<(u16, u64)> = None;
    let mut k: usize = 0;
    while k < env.cell_order.len()
        invariant
            ctx.wf(),
            env.inv(*ctx),
            s == env.state@,
            order == env.cell_order@,
            model_facts(*ctx, env.state.result@),
            k <= order.len(),
            forall|j: int| 0 <= j < k ==> !#[trigger] dead_at(*ctx, s, order, j),
            unit is Some == unit_upto(*ctx, s, order, k as int) is Some,
            unit matches Some(p) ==> first_valid_from(
                *ctx,
                s,
                ctx.cell_to_placements@[order[unit_upto(*ctx, s, order, k as int)->0] as int]@,
                0,
            ) == Some(p),
            unit is None ==> match best {
                None => best_upto(*ctx, s, order, k as int) is None,
                Some((c, b)) => best_upto(*ctx, s, order, k as int) is Some && order[best_upto(
                    *ctx,
                    s,
                    order,
                    k as int,
                )->0] == c && b as int == cell_count(
                    *ctx,
                    s,
                    order[best_upto(*ctx, s, order, k as int)->0] as int,
                ) && b >= 2,
            },
        decreases order.len() - k,
    {
        let cell_idx = env.cell_order[k];
        proof {
            assert(order[k as int] < ctx.total_cells);
        }
        if env.state.covered.test(cell_idx as usize) {
            proof {
                assert(!open_at(s, order, k as int));
                assert(!dead_at(*ctx, s, order, k as int));
                assert(best_upto(*ctx, s, order, k + 1) == best_upto(*ctx, s, order, k as int));
                assert(unit_upto(*ctx, s, order, k + 1) == unit_upto(*ctx, s, order, k as int));
            }
            k = k + 1;
            continue;
        }
        proof {
            assert(open_at(s, order, k as int));
        }
        let list = &ctx.cell_to_placements[cell_idx as usize];
        proof {
            ctx.lemma_cell(cell_idx as int);
        }
        let cap: u64 = match unit {
            Some(_) => 1,
            None => match best {
                Some((_, b)) => b,
                None => u64::MAX,
            },
        };
        let (count, first) = count_valid(ctx, &env.state, list, cap);
        proof {
            lemma_num_valid_mono(*ctx, s, list@, 0, list@.len() as int);
            lemma_num_valid_le(*ctx, s, list@, list@.len() as int);
            lemma_increasing_len(list@);
        }
        if count == 0 {
            proof {
                assert(dead_at(*ctx, s, order, k as int));
            }
            return MrvOutcome::DeadCell;
        }
        proof {
            assert(!dead_at(*ctx, s, order, k as int));
        }
        if unit.is_none() {
            if count == 1 {
                unit = Some(first);
                proof {
                    assert(unit_upto(*ctx, s, order, k + 1) == Some(k as int));
                }
            } else {
                proof {
                    assert(unit_upto(*ctx, s, order, k + 1) is None);
                }
                let ghost bj = best_upto(*ctx, s, order, k as int);
                match best {
                    Some((_, b)) => {
                        if count < b {
                            best = Some((cell_idx, count));
                            proof {
                                assert(best_upto(*ctx, s, order, k + 1) == Some(k as int));
                            }
                        } else {
                            proof {
                                assert(best_upto(*ctx, s, order, k + 1) == bj);
                            }
                        }
                    },
                    None => {
                        best = Some((cell_idx, count));
                        proof {
                            assert(best_upto(*ctx, s, order, k + 1) == Some(k as int));
                        }
                    },
                }
            }
        }
        k = k + 1;
    }
    proof {
        assert(!exists|j: int| 0 <= j < order.len() && dead_at(*ctx, s, order, j));
    }
    match unit {
        Some(p) => MrvOutcome::Unit { placement_idx: p },
        None => match best {
            Some((c, _)) => MrvOutcome::Branch { cell_idx: c },
            None => MrvOutcome::AllCovered,
        },
    }
}

/// Returns `true` if one of the first `upto` applied placements lands its
/// mark on the center region.
fn any_center_below(ctx: &SolveContext, result: &Vec<usize>, upto: usize) -> (r: bool)
    requires
        upto <= result@.len(),
        forall|k: int| 0 <= k < result@.len() ==> (#[trigger] result@[k] as int) < ctx.placements@.len(),
    ensures
        r == some_center(*ctx, result@.take(upto as int)),
{
    let mut k: usize = 0;
    while k < upto
        invariant
            upto <= result@.len(),
            forall|q: int| 0 <= q < result@.len() ==> (#[trigger] result@[q] as int) < ctx.placements@.len(),
            k <= upto,
            forall|q: int| 0 <= q < k ==> !ctx.placements@[#[trigger] result@[q] as int].mark_on_center,
        decreases upto - k,
    {
        if ctx.placements[result[k]].mark_on_center {
            proof {
                assert(result@.take(upto as int)[k as int] == result@[k as int]);
            }
            return true;
        }
        k = k + 1;
    }
    proof {
        if some_center(*ctx, result@.take(upto as int)) {
            let q = choose|q: int|
                0 <= q < upto && ctx.placements@[#[trigger] result@.take(upto as int)[q] as int].mark_on_center;
            assert(result@.take(upto as int)[q] == result@[q]);
        }
    }
    false
}

/// Undoes the last placement on the result stack, rebuilding the undo
/// token from the remaining stack.
fn undo_last(ctx: &SolveContext, env: &mut BacktrackEnv)
    requires
        ctx.wf(),
        old(env).inv(*ctx),
        old(env).state.result@.len() > 0,
    ensures
        final(env).inv(*ctx),
        final(env).state.result@ == old(env).state.result@.drop_last(),
        final(env).cell_order@ == old(env).cell_order@,
        final(env).nodes_this_restart == old(env).nodes_this_restart,
        final(env).node_budget == old(env).node_budget,
        final(env).restarts == old(env).restarts,
        final(env).total_nodes == old(env).total_nodes,
        final(env).budget_exhausted == old(env).budget_exhausted,
        final(env).cancelled == old(env).cancelled,
{
    let ghost r = env.state.result@;
    let ghost d = r.drop_last();
    proof {
        lemma_model_facts(*ctx, r);
        lemma_model_facts(*ctx, d);
        lemma_undo_legal(*ctx, r);
    }
    let len = env.state.result.len();
    let p_idx = env.state.result[len - 1];
    let pl = &ctx.placements[p_idx];
    proof {
        ctx.lemma_placement(p_idx as int);
    }
    let prev_has_center_mark = if pl.mark_on_center {
        any_center_below(ctx, &env.state.result, len - 1)
    } else {
        env.state.has_center_mark
    };
    let ti = pl.type_idx as usize;
    let center_mark_type_drop = env.state.remaining[ti] == 0 && ctx.center_mark_counts[ti] > 0;
    let undo = PlacementUndo { prev_has_center_mark, center_mark_type_drop };
    proof {
        assert(r.take(len - 1) =~= d);
        assert(undo.prev_has_center_mark == model_of(*ctx, d).has_center_mark);
        assert(undo.center_mark_type_drop == drop_spec(*ctx, model_of(*ctx, d), *pl));
    }
    env.state.undo_placement(pl, undo);
}

/// Undoes the last `depth` placements applied by a unit-propagation
/// cascade.
pub fn undo_cascade(ctx: &SolveContext, env: &mut BacktrackEnv, depth: u32)
    requires
        ctx.wf(),
        old(env).inv(*ctx),
        depth <= old(env).state.result@.len(),
    ensures
        final(env).inv(*ctx),
        final(env).state.result@ == old(env).state.result@.take(old(env).state.result@.len() - depth),
        final(env).state@ == undone(*ctx, old(env).state.result@, depth as nat),
        final(env).cell_order@ == old(env).cell_order@,
        final(env).nodes_this_restart == old(env).nodes_this_restart,
        final(env).node_budget == old(env).node_budget,
        final(env).restarts == old(env).restarts,
        final(env).total_nodes == old(env).total_nodes,
        final(env).budget_exhausted == old(env).budget_exhausted,
        final(env).cancelled == old(env).cancelled,
{
    let ghost r0 = env.state.result@;
    let mut k: u32 = 0;
    proof {
        lemma_undo_steps(*ctx, r0, 0);
    }
    while k < depth
        invariant
            ctx.wf(),
            env.inv(*ctx),
            legal(*ctx, r0),
            k <= depth,
            depth <= r0.len(),
            env.state.result@ == r0.take(r0.len() - k),
            env.state@ == undone(*ctx, r0, k as nat),
            env.cell_order@ == old(env).cell_order@,
            env.nodes_this_restart == old(env).nodes_this_restart,
            env.node_budget == old(env).node_budget,
            env.restarts == old(env).restarts,
            env.total_nodes == old(env).total_nodes,
            env.budget_exhausted == old(env).budget_exhausted,
            env.cancelled == old(env).cancelled,
        decreases depth - k,
    {
        undo_last(ctx, env);
        proof {
            assert(r0.take(r0.len() - k).drop_last() =~= r0.take(r0.len() - (k + 1)));
            lemma_undo_steps(*ctx, r0, (k + 1) as nat);
        }
        k = k + 1;
    }
}

/// `a` is a prefix of `b`.
pub open spec fn extends(a: Seq<usize>, b: Seq<usize>) -> bool {
    a.len() <= b.len() && b.take(a.len() as int) == a
}

/// A state whose cells in the order are all covered covers the board.
proof fn lemma_all_covered(ctx: SolveContext, env: BacktrackEnv)
    requires
        ctx.wf(),
        env.inv(ctx),
        scan_spec(ctx, env.state@, env.cell_order@) is AllCovered,
    ensures
        env.state.covered_count == ctx.total_cells,
{
    let n = ctx.total_cells as int;
    let s = env.state@;
    let order = env.cell_order@;
    lemma_model_facts(ctx, env.state.result@);
    lemma_scan_spec(ctx, s, order);
    assert forall|c: int| set_int_range(0, n).contains(c) implies s.covered.contains(c) by {
        lemma_order_complete(order, n, c);
        let k = choose|k: int| 0 <= k < order.len() && order[k] as int == c;
        assert(!open_at(s, order, k));
    }
    assert(s.covered =~= set_int_range(0, n));
    lemma_int_range(0, n);
}

/// The outcome of a unit-propagation cascade.
pub enum CascadeEnd {
    /// A dead cell or a failed neighbour check; the cascade was undone.
    Failed,
    /// The cascade covered the board with a mark on the center region.
    Solved,
    /// Branch on `cell_idx`; `depth` forced placements stay applied.
    Branch { cell_idx: u16, depth: u32 },
}

proof fn lemma_covered_bound(ctx: SolveContext, r: Seq<usize>)
    requires
        ctx.wf(),
        legal(ctx, r),
    ensures
        model_facts(ctx, r),
        model_of(ctx, r).covered_count <= ctx.total_cells,
{
    lemma_model_facts(ctx, r);
    lemma_int_range(0, ctx.total_cells as int);
    lemma_len_subset(model_of(ctx, r).covered, set_int_range(0, ctx.total_cells as int));
}

/// The cell a scan branches on is a board cell.
proof fn lemma_branch_cell(ctx: SolveContext, s: SearchModel, order: Seq<u16>, c: u16)
    requires
        order_ok(order, ctx.total_cells as int),
        scan_spec(ctx, s, order) == (MrvOutcome::Branch { cell_idx: c }),
    ensures
        c < ctx.total_cells,
{
    lemma_scan_spec(ctx, s, order);
}

/// The placement a scan forces fits the state.
proof fn lemma_unit_valid(ctx: SolveContext, s: SearchModel, order: Seq<u16>, p: u32)
    requires
        ctx.wf(),
        order_ok(order, ctx.total_cells as int),
        scan_spec(ctx, s, order) == (MrvOutcome::Unit { placement_idx: p }),
    ensures
        (p as int) < ctx.placements@.len(),
        valid_in(ctx, s, p as int),
{
    lemma_scan_spec(ctx, s, order);
    let k = choose|k: int|
        0 <= k < order.len() && open_at(s, order, k) && cell_count(ctx, s, order[k] as int) == 1
            && first_valid_from(ctx, s, ctx.cell_to_placements@[order[k] as int]@, 0) == Some(p);
    let c = order[k] as int;
    ctx.lemma_cell(c);
    let list = ctx.cell_to_placements@[c]@;
    lemma_first_valid(ctx, s, list, 0);
    let q = choose|q: int| 0 <= q < list.len() && list[q] == p && valid_in(ctx, s, p as int);
}

/// Once placement `p` is applied on top of the stack `r`, every
/// neighbouring cell of `p` is covered or still has a placement that fits.
pub open spec fn keeps_neighbors(ctx: SolveContext, r: Seq<usize>, p: int) -> bool {
    let m = model_of(ctx, r.push(p as usize));
    neighbors_coverable_in(
        ctx.placements@[p],
        m.covered,
        m.remaining,
        ctx.cell_pl_by_type@,
        ctx.placements@,
    )
}

/// `c` plus one, held at `u64::MAX`.
pub open spec fn bumped(c: u64) -> u64 {
    if c < u64::MAX {
        (c + 1) as u64
    } else {
        c
    }
}

/// Applies placement `p`, which fits the state, and keeps it when no
/// neighbouring cell is left without a placement; otherwise undoes it.
fn apply_checked(ctx: &SolveContext, env: &mut BacktrackEnv, p: u32) -> (ok: bool)
    requires
        ctx.wf(),
        old(env).inv(*ctx),
        (p as int) < ctx.placements@.len(),
        valid_in(*ctx, old(env).state@, p as int),
    ensures
        final(env).inv(*ctx),
        final(env).cell_order@ == old(env).cell_order@,
        final(env).nodes_this_restart == old(env).nodes_this_restart,
        final(env).node_budget == old(env).node_budget,
        final(env).restarts == old(env).restarts,
        final(env).total_nodes == old(env).total_nodes,
        final(env).budget_exhausted == old(env).budget_exhausted,
        final(env).cancelled == old(env).cancelled,
        ok == keeps_neighbors(*ctx, old(env).state.result@, p as int),
        ok ==> final(env).state.result@ == old(env).state.result@.push(p as usize),
        ok ==> final(env).state.covered_count > old(env).state.covered_count,
        !ok ==> final(env).state.result@ == old(env).state.result@,
        final(env).neighbor_prunes == if ok {
            old(env).neighbor_prunes
        } else {
            bumped(old(env).neighbor_prunes)
        },
{
    let ghost cur = env.state.result@;
    let ghost n = ctx.total_cells as int;
    proof {
        lemma_can_apply(*ctx, cur, p as int);
        lemma_model_facts(*ctx, cur);
    }
    let pl = &ctx.placements[p as usize];
    proof {
        ctx.lemma_placement(p as int);
        lemma_placement_bits(*pl, n, ctx.type_ids@.len() as int);
    }
    let drop = will_drop_center_mark_type(ctx, &env.state, pl);
    let undo = env.state.apply_placement(pl, p as usize, drop);
    proof {
        lemma_apply_legal(*ctx, cur, p as usize);
        lemma_model_facts(*ctx, env.state.result@);
        assert forall|j: int| 0 <= j < pl.neighbor_indices@.len() implies (
        #[trigger] pl.neighbor_indices@[j]) < CAPACITY && (!env.state.covered@.contains(
            pl.neighbor_indices@[j] as int,
        ) ==> (pl.neighbor_indices@[j] as int) < ctx.cell_pl_by_type@.len() && groups_ok(
            ctx.cell_pl_by_type@[pl.neighbor_indices@[j] as int]@,
            env.state.remaining@.len() as int,
            ctx.placements@.len() as int,
        )) by {
            lemma_groups_ok(*ctx, pl.neighbor_indices@[j] as int);
        }
    }
    if neighbor_check(pl, &env.state, &ctx.cell_pl_by_type, &ctx.placements) {
        true
    } else {
        env.neighbor_prunes = env.neighbor_prunes.saturating_add(1);
        proof {
            lemma_undo_legal(*ctx, env.state.result@);
            assert(env.state.result@.drop_last() =~= cur);
        }
        env.state.undo_placement(pl, undo);
        false
    }
}

/// Where the cascade from the stack `r` ends, scanning the cells in
/// `order`, with `exhausted` the budget flag and at most `fuel` scans:
/// `None` when it fails (a dead cell, a board covered without a center
/// mark, a forced placement that leaves a neighbour without one, or a
/// forced placement with the budget spent); otherwise the stack it ends
/// with and, when it branches, the cell it branches on.
pub open spec fn cascade_run(
    ctx: SolveContext,
    order: Seq<u16>,
    r: Seq<usize>,
    exhausted: bool,
    fuel: nat,
) -> Option<(Seq<usize>, Option<u16>)>
    decreases fuel,
{
    if fuel == 0 {
        None
    } else {
        let m = model_of(ctx, r);
        match scan_spec(ctx, m, order) {
            MrvOutcome::DeadCell => None,
            MrvOutcome::AllCovered => if m.has_center_mark {
                Some((r, None))
            } else {
                None
            },
            MrvOutcome::Unit { placement_idx } => if keeps_neighbors(ctx, r, placement_idx as int)
                && !exhausted {
                cascade_run(ctx, order, r.push(placement_idx as usize), exhausted, (fuel - 1) as nat)
            } else {
                None
            },
            MrvOutcome::Branch { cell_idx } => Some((r, Some(cell_idx))),
        }
    }
}

/// The stack a cascade ends with, if it does not fail.
pub open spec fn cascade_stack(run: Option<(Seq<usize>, Option<u16>)>) -> Seq<usize> {
    match run {
        Some((s, _)) => s,
        None => Seq::empty(),
    }
}

/// Applies forced placements until some cell is dead, the board is
/// covered, or every uncovered cell has two or more placements.
#[verifier::rlimit(40)]
fn unit_cascade(ctx: &SolveContext, env: &mut BacktrackEnv) -> (r: CascadeEnd)
    requires
        ctx.wf(),
        old(env).inv(*ctx),
    ensures
        final(env).inv(*ctx),
        final(env).cell_order@ == old(env).cell_order@,
        final(env).nodes_this_restart == old(env).nodes_this_restart,
        final(env).node_budget == old(env).node_budget,
        final(env).restarts == old(env).restarts,
        final(env).total_nodes == old(env).total_nodes,
        final(env).budget_exhausted == old(env).budget_exhausted,
        final(env).cancelled == old(env).cancelled,
        ({
            let run = cascade_run(
                *ctx,
                old(env).cell_order@,
                old(env).state.result@,
                old(env).budget_exhausted,
                (ctx.total_cells + 1) as nat,
            );
            match r {
                CascadeEnd::Failed => {
                    &&& run is None
                    &&& final(env).state.result@ == old(env).state.result@
                    &&& !old(env).budget_exhausted ==> forall|q: Seq<usize>|
                        !solved(*ctx, old(env).state.result@ + q)
                },
                CascadeEnd::Solved => {
                    &&& run == Some((final(env).state.result@, None::<u16>))
                    &&& solved(*ctx, final(env).state.result@)
                    &&& extends(old(env).state.result@, final(env).state.result@)
                },
                CascadeEnd::Branch { cell_idx, depth } => {
                    &&& run == Some((final(env).state.result@, Some(cell_idx)))
                    &&& final(env).state.result@.len() == old(env).state.result@.len() + depth
                    &&& extends(old(env).state.result@, final(env).state.result@)
                    &&& cell_idx < ctx.total_cells
                },
            }
        }),
{
    let ghost r0 = env.state.result@;
    let ghost n = ctx.total_cells as int;
    let ghost order0 = env.cell_order@;
    let ghost ex0 = env.budget_exhausted;
    let ghost run0 = cascade_run(*ctx, order0, r0, ex0, (n + 1) as nat);
    let mut depth: u32 = 0;
    let mut end: Option<CascadeEnd> = None;
    proof {
        lemma_covered_bound(*ctx, r0);
        assert(r0.take(r0.len() as int) =~= r0);
    }
    while end.is_none()
        invariant
            ctx.wf(),
            env.inv(*ctx),
            n == ctx.total_cells,
            env.cell_order@ == old(env).cell_order@,
            env.nodes_this_restart == old(env).nodes_this_restart,
            env.node_budget == old(env).node_budget,
            env.restarts == old(env).restarts,
            env.total_nodes == old(env).total_nodes,
            env.budget_exhausted == old(env).budget_exhausted,
            env.cancelled == old(env).cancelled,
            r0 == old(env).state.result@,
            end is None ==> env.state.result@.len() == r0.len() + depth && extends(r0, env.state.result@)
                && depth <= env.state.covered_count,
            end is None ==> env.state.covered_count <= n,
            order0 == env.cell_order@,
            ex0 == env.budget_exhausted,
            run0 == cascade_run(*ctx, order0, r0, ex0, (n + 1) as nat),
            match end {
                None => run0 == cascade_run(*ctx, order0, env.state.result@, ex0, (n + 1 - depth) as nat),
                Some(CascadeEnd::Failed) => run0 is None && env.state.result@ == r0,
                Some(CascadeEnd::Solved) => run0 == Some((env.state.result@, None::<u16>)) && solved(
                    *ctx,
                    env.state.result@,
                ) && extends(r0, env.state.result@),
                Some(CascadeEnd::Branch { cell_idx, depth: d }) => run0 == Some(
                    (env.state.result@, Some(cell_idx)),
                ) && env.state.result@.len() == r0.len() + d && extends(r0, env.state.result@) && cell_idx
                    < n,
            },
        decreases if end is None {
            n - env.state.covered_count + 1
        } else {
            0
        },
    {
        let ghost cur = env.state.result@;
        match scan_uncovered(ctx, env) {
            MrvOutcome::DeadCell => {
                env.dead_cell_prunes = env.dead_cell_prunes.saturating_add(1);
                undo_cascade(ctx, env, depth);
                proof {
                    assert(cur.take(cur.len() - depth) =~= r0);
                }
                end = Some(CascadeEnd::Failed);
            },
            MrvOutcome::AllCovered => {
                if env.state.has_center_mark {
                    proof {
                        lemma_all_covered(*ctx, *env);
                    }
                    end = Some(CascadeEnd::Solved);
                } else {
                    undo_cascade(ctx, env, depth);
                    proof {
                        assert(cur.take(cur.len() - depth) =~= r0);
                    }
                    end = Some(CascadeEnd::Failed);
                }
            },
            MrvOutcome::Unit { placement_idx } => {
                proof {
                    lemma_unit_valid(*ctx, env.state@, env.cell_order@, placement_idx);
                }
                let ok = apply_checked(ctx, env, placement_idx);
                env.unit_propagations = env.unit_propagations.saturating_add(1);
                if !ok {
                    undo_cascade(ctx, env, depth);
                    proof {
                        assert(cur.take(cur.len() - depth) =~= r0);
                    }
                    end = Some(CascadeEnd::Failed);
                } else {
                    proof {
                        lemma_covered_bound(*ctx, env.state.result@);
                    }
                    depth = depth + 1;
                    if env.budget_exhausted {
                        undo_cascade(ctx, env, depth);
                        proof {
                            assert(cur.push(placement_idx as usize).take(cur.len() + 1 - depth) =~= r0);
                        }
                        end = Some(CascadeEnd::Failed);
                    } else {
                        proof {
                            assert(env.state.result@.take(r0.len() as int) =~= cur.take(r0.len() as int));
                        }
                    }
                }
            },
            MrvOutcome::Branch { cell_idx } => {
                proof {
                    lemma_branch_cell(*ctx, env.state@, env.cell_order@, cell_idx);
                }
                end = Some(CascadeEnd::Branch { cell_idx, depth });
            },
        }
    }
    proof {
        if run0 is None && !ex0 {
            assert forall|q: Seq<usize>| !solved(*ctx, r0 + q) by {
                if solved(*ctx, r0 + q) {
                    lemma_cascade_complete(*ctx, order0, r0, q, (n + 1) as nat);
                }
            }
        }
    }
    match end {
        Some(e) => e,
        None => CascadeEnd::Failed,
    }
}

/// The pruning checks' preconditions hold in every reachable state.
proof fn lemma_pruning_ready(ctx: SolveContext, env: BacktrackEnv)
    requires
        ctx.wf(),
        env.inv(ctx),
    ensures
        indexed_for_remaining(env.state.remaining@, ctx.type_min_black@),
        indexed_for_remaining(env.state.remaining@, ctx.type_max_black@),
        indexed_for_remaining(env.state.remaining@, ctx.size_of_type@),
        weighted_sum(env.state.remaining@, ctx.type_min_black@, env.state.remaining@.len() as int)
            <= u32::MAX,
        weighted_sum(env.state.remaining@, ctx.type_max_black@, env.state.remaining@.len() as int)
            <= u32::MAX,
        env.state.covered@.subset_of(set_int_range(0, ctx.total_cells as int)),
        env.state.covered_count as int == env.state.covered@.len(),
{
    let nt = ctx.type_ids@.len() as int;
    lemma_model_facts(ctx, env.state.result@);
    lemma_count_sum_le(env.state.remaining@, ctx.type_counts@, nt);
    lemma_weighted_sum_bound(env.state.remaining@, ctx.type_min_black@, nt);
    lemma_weighted_sum_bound(env.state.remaining@, ctx.type_max_black@, nt);
}

/// Recursive backtracking. Returns `true` when the applied placements
/// cover every cell with a mark on the center region.
///
/// At each node: budget and cancel checks, the termination test, the
/// pruning checks (center mark, parity, islands), the unit-propagation
/// cascade, and finally a branch over the placements of the chosen cell.
///
/// Every candidate is tried when its subtree fails: returning `false` with
/// the budget left and no cancellation means that no extension of the
/// current stack is solved, for a context whose placements are connected
/// and which holds the facts the parity check relies on
/// ([`search_complete_for`]); every context built from an input whose piece
/// shapes are connected is one
/// ([`crate::solver::context::lemma_search_complete_for`]).
pub fn backtrack(ctx: &SolveContext, env: &mut BacktrackEnv, cancel: Option<&CancelFlag>) -> (found: bool)
    requires
        ctx.wf(),
        old(env).inv(*ctx),
        old(env).nodes_this_restart < old(env).node_budget,
        !old(env).budget_exhausted,
    ensures
        final(env).inv(*ctx),
        final(env).cell_order@ == old(env).cell_order@,
        final(env).node_budget == old(env).node_budget,
        final(env).restarts == old(env).restarts,
        final(env).total_nodes >= 1,
        final(env).total_nodes >= old(env).total_nodes,
        final(env).total_nodes > old(env).total_nodes || old(env).total_nodes == u64::MAX,
        final(env).nodes_this_restart > old(env).nodes_this_restart,
        !final(env).budget_exhausted ==> final(env).nodes_this_restart < final(env).node_budget,
        final(env).budget_exhausted ==> final(env).nodes_this_restart >= final(env).node_budget,
        final(env).total_nodes == u64::MAX || final(env).total_nodes - old(env).total_nodes
            >= final(env).nodes_this_restart - old(env).nodes_this_restart,
        old(env).cancelled ==> final(env).cancelled,
        final(env).cancelled ==> old(env).cancelled || cancel is Some,
        found ==> solved(*ctx, final(env).state.result@) && extends(
            old(env).state.result@,
            final(env).state.result@,
        ) && !final(env).cancelled,
        !found ==> final(env).state.result@ == old(env).state.result@,
        search_complete_for(*ctx) && !found && !final(env).budget_exhausted && !final(env).cancelled
            ==> forall|q: Seq<usize>| !solved(*ctx, old(env).state.result@ + q),
    decreases old(env).node_budget - old(env).nodes_this_restart,
{
    env.nodes_this_restart = env.nodes_this_restart + 1;
    env.total_nodes = env.total_nodes.saturating_add(1);
    let ghost t1 = env.total_nodes;
    if env.nodes_this_restart >= env.node_budget {
        env.budget_exhausted = true;
        return false;
    }
    if !env.cancelled {
        if let Some(c) = cancel {
            if c.is_cancelled() {
                env.cancelled = true;
            }
        }
    }
    if env.cancelled {
        return false;
    }
    proof {
        lemma_model_facts(*ctx, env.state.result@);
        assert(env.state.result@.take(env.state.result@.len() as int) =~= env.state.result@);
    }
    let ghost r0 = env.state.result@;
    if env.state.is_fully_covered(ctx.total_cells) {
        proof {
            if !env.state.has_center_mark {
                assert forall|q: Seq<usize>| !solved(*ctx, r0 + q) by {
                    if solved(*ctx, r0 + q) {
                        lemma_full_board_final(*ctx, r0, q);
                    }
                }
            }
        }
        return env.state.has_center_mark;
    }
    if env.state.center_mark_unreachable() {
        proof {
            assert forall|q: Seq<usize>| !solved(*ctx, r0 + q) by {
                lemma_center_unreachable(*ctx, r0, q);
            }
        }
        return false;
    }
    proof {
        lemma_pruning_ready(*ctx, *env);
    }
    if !parity_check(&env.state, ctx.total_black, ctx.total_white, &ctx.type_min_black, &ctx.type_max_black) {
        proof {
            if search_complete_for(*ctx) {
                assert forall|q: Seq<usize>| !solved(*ctx, r0 + q) by {
                    if solved(*ctx, r0 + q) {
                        lemma_parity_sound(*ctx, r0, q);
                    }
                }
            }
        }
        env.parity_prunes = env.parity_prunes.saturating_add(1);
        return false;
    }
    let ghost s0 = env.state;
    if !island_check(&env.state, &ctx.adj_list, &ctx.size_of_type, ctx.total_cells, &mut env.island_ws) {
        proof {
            if search_complete_for(*ctx) {
                assert forall|q: Seq<usize>| !solved(*ctx, r0 + q) by {
                    if solved(*ctx, r0 + q) {
                        lemma_islands_sound(*ctx, r0, q, s0);
                    }
                }
            }
        }
        env.island_prunes = env.island_prunes.saturating_add(1);
        return false;
    }
    let ghost order0 = env.cell_order@;
    let (branch, depth) = match unit_cascade(ctx, env) {
        CascadeEnd::Failed => {
            return false;
        },
        CascadeEnd::Solved => {
            return true;
        },
        CascadeEnd::Branch { cell_idx, depth } => (cell_idx, depth),
    };
    let ghost r1 = env.state.result@;
    let ghost run0 = cascade_run(*ctx, order0, r0, false, (ctx.total_cells + 1) as nat);
    proof {
        ctx.lemma_cell(branch as int);
        lemma_cascade_branch_open(*ctx, order0, r0, false, (ctx.total_cells + 1) as nat);
        assert(!model_of(*ctx, r1).covered.contains(branch as int));
    }
    let candidates = &ctx.cell_to_placements[branch as usize];
    let mut i: usize = 0;
    let mut found = false;
    let mut stop = false;
    while i < candidates.len() && !stop
        invariant
            ctx.wf(),
            env.inv(*ctx),
            forall|k: int| 0 <= k < candidates@.len() ==> (#[trigger] candidates@[k]) < ctx.placements@.len(),
            env.cell_order@ == old(env).cell_order@,
            env.node_budget == old(env).node_budget,
            env.restarts == old(env).restarts,
            env.total_nodes >= 1,
            env.total_nodes >= t1,
            t1 > old(env).total_nodes || old(env).total_nodes == u64::MAX,
            !env.budget_exhausted ==> env.nodes_this_restart < env.node_budget,
            env.budget_exhausted ==> env.nodes_this_restart >= env.node_budget,
            env.total_nodes == u64::MAX || env.total_nodes - old(env).total_nodes >= env.nodes_this_restart
                - old(env).nodes_this_restart,
            old(env).nodes_this_restart < env.nodes_this_restart,
            !stop ==> !env.budget_exhausted,
            env.cancelled ==> old(env).cancelled || cancel is Some,
            !stop ==> env.state.result@ == r1,
            found ==> stop && solved(*ctx, env.state.result@) && extends(r1, env.state.result@)
                && !env.cancelled,
            stop && !found ==> env.state.result@ == r1,
            r1.len() == r0.len() + depth,
            extends(r0, r1),
            old(env).state.result@ == r0,
            i <= candidates@.len(),
            stop && !found ==> env.budget_exhausted,
            search_complete_for(*ctx) && !stop && !env.cancelled ==> forall|i2: int|
                0 <= i2 < i ==> (valid_in(*ctx, model_of(*ctx, r1), #[trigger] candidates@[i2] as int)
                    ==> forall|q: Seq<usize>| !#[trigger] solved(*ctx, r1.push(candidates@[i2] as usize) + q)),
        decreases candidates@.len() - i + if stop { 0int } else { 1int },
    {
        let p_idx = candidates[i];
        let pl = &ctx.placements[p_idx as usize];
        proof {
            ctx.lemma_placement(p_idx as int);
            lemma_model_facts(*ctx, env.state.result@);
        }
        let ti = pl.type_idx as usize;
        if env.state.remaining[ti] == 0 || env.state.covered.has_overlap(&pl.bits) {
            i = i + 1;
        } else {
            proof {
                assert(valid_in(*ctx, env.state@, p_idx as int));
            }
            let ghost c_before = env.cancelled;
            proof {
                lemma_can_apply(*ctx, r1, p_idx as int);
                lemma_apply_legal(*ctx, r1, p_idx as usize);
            }
            let ok = apply_checked(ctx, env, p_idx);
            if ok {
                let ghost r2 = env.state.result@;
                if backtrack(ctx, env, cancel) {
                    found = true;
                    stop = true;
                    proof {
                        assert(env.state.result@.take(r1.len() as int) =~= r2.take(r1.len() as int));
                        assert(r2.take(r1.len() as int) =~= r1);
                    }
                } else {
                    proof {
                        lemma_undo_legal(*ctx, env.state.result@);
                        lemma_model_facts(*ctx, env.state.result@);
                        assert(env.state.result@.drop_last() =~= r1);
                    }
                    undo_last(ctx, env);
                    if env.budget_exhausted {
                        stop = true;
                    }
                    i = i + 1;
                }
            } else {
                proof {
                    assert forall|q: Seq<usize>| !#[trigger] solved(*ctx, r1.push(p_idx as usize) + q) by {
                        lemma_neighbor_check_sound(*ctx, r1, p_idx as usize, q);
                    }
                }
                i = i + 1;
            }
        }
    }
    if found {
        proof {
            assert(env.state.result@.take(r0.len() as int) =~= r1.take(r0.len() as int));
        }
        return true;
    }
    proof {
        if search_complete_for(*ctx) && !stop && !env.cancelled {
            assert forall|q: Seq<usize>| !solved(*ctx, r0 + q) by {
                if solved(*ctx, r0 + q) {
                    lemma_cascade_complete(*ctx, order0, r0, q, (ctx.total_cells + 1) as nat);
                    let q2 = choose|q2: Seq<usize>| #[trigger] solved(*ctx, cascade_stack(run0) + q2);
                    assert(cascade_stack(run0) == r1);
                    let (ii, q3) = lemma_branch_complete(*ctx, r1, q2, branch as int);
                    assert(candidates@ == ctx.cell_to_placements@[branch as int]@);
                    assert(valid_in(*ctx, model_of(*ctx, r1), candidates@[ii] as int));
                }
            }
        }
    }
    undo_cascade(ctx, env, depth);
    proof {
        assert(r1.take(r1.len() - depth) =~= r0);
    }
    false
}

/// Returns a copy of `v`.
fn copy_counts(v: &Vec<u16>) -> (r: Vec<u16>)
    ensures
        r@ == v@,
{
    let mut r: Vec<u16> = Vec::with_capacity(v.len());
    let mut i: usize = 0;
    while i < v.len()
        invariant
            i <= v@.len(),
            r@ == v@.take(i as int),
        decreases v@.len() - i,
    {
        r.push(v[i]);
        i = i + 1;
        proof {
            assert(r@ =~= v@.take(i as int));
        }
    }
    proof {
        assert(v@.take(i as int) =~= v@);
    }
    r
}

proof fn lemma_rearranged_order(before: Seq<u16>, after: Seq<u16>, n: int)
    requires
        order_ok(before, n),
        is_rearrangement(before, after),
    ensures
        order_ok(after, n),
{
    let p = choose|p: Seq<int>|
        is_permutation(p, before.len() as int) && after.len() == before.len() && forall|k: int|
            0 <= k < after.len() ==> after[k] == before[#[trigger] p[k]];
    assert forall|a: int, b: int| 0 <= a < after.len() && 0 <= b < after.len() && a != b implies after[a]
        != after[b] by {
        assert(after[a] == before[p[a]]);
        assert(after[b] == before[p[b]]);
        if a < b {
            assert(p[a] != p[b]);
        } else {
            assert(p[b] != p[a]);
        }
    }
    assert forall|k: int| 0 <= k < after.len() implies (#[trigger] after[k]) < n by {
        assert(after[k] == before[p[k]]);
    }
}

impl BacktrackEnv {
    /// A fresh environment: nothing applied, cells in index order, all
    /// counters zero.
    pub fn new(ctx: &SolveContext) -> (env: Self)
        requires
            ctx.wf(),
        ensures
            env.inv(*ctx),
            env.state.result@.len() == 0,
            env.nodes_this_restart == 0,
            env.node_budget == 0,
            !env.budget_exhausted,
            env.total_nodes == 0,
            env.restarts == 0,
            env.unit_propagations == 0,
            env.parity_prunes == 0,
            env.island_prunes == 0,
            env.neighbor_prunes == 0,
            env.dead_cell_prunes == 0,
            !env.cancelled,
    {
        let n = ctx.total_cells;
        let mut cell_order: Vec<u16> = Vec::with_capacity(n as usize);
        let mut c: u16 = 0;
        while c < n
            invariant
                c <= n,
                cell_order@.len() == c,
                forall|k: int| 0 <= k < c ==> cell_order@[k] == k,
            decreases n - c,
        {
            cell_order.push(c);
            c = c + 1;
        }
        let initial_cmtr = ctx.initial_center_mark_type_remaining();
        let state = SearchState::new(copy_counts(&ctx.type_counts), initial_cmtr);
        let env = BacktrackEnv {
            state,
            island_ws: IslandWorkspace::new(n as usize),
            cell_order,
            nodes_this_restart: 0,
            node_budget: 0,
            budget_exhausted: false,
            total_nodes: 0,
            restarts: 0,
            unit_propagations: 0,
            parity_prunes: 0,
            island_prunes: 0,
            neighbor_prunes: 0,
            dead_cell_prunes: 0,
            cancelled: false,
        };
        proof {
            assert(env.state.result@ =~= Seq::<usize>::empty());
            assert(env.state@ =~= model_of(*ctx, env.state.result@));
        }
        env
    }

    /// Resets the state and the per-restart counters before a new restart,
    /// with a new node budget and a freshly shuffled cell order.
    pub fn reset_for_restart(&mut self, ctx: &SolveContext, node_budget: u64, rng: &mut SolverRng)
        requires
            ctx.wf(),
            old(self).inv(*ctx),
        ensures
            final(self).inv(*ctx),
            final(self).state.result@.len() == 0,
            final(self).nodes_this_restart == 0,
            final(self).node_budget == node_budget,
            !final(self).budget_exhausted,
            is_rearrangement(old(self).cell_order@, final(self).cell_order@),
            final(self).total_nodes == old(self).total_nodes,
            final(self).restarts == old(self).restarts,
            final(self).unit_propagations == old(self).unit_propagations,
            final(self).parity_prunes == old(self).parity_prunes,
            final(self).island_prunes == old(self).island_prunes,
            final(self).neighbor_prunes == old(self).neighbor_prunes,
            final(self).dead_cell_prunes == old(self).dead_cell_prunes,
            final(self).cancelled == old(self).cancelled,
    {
        let initial_cmtr = ctx.initial_center_mark_type_remaining();
        self.state.reset(ctx.type_counts.as_slice(), initial_cmtr);
        self.nodes_this_restart = 0;
        self.node_budget = node_budget;
        self.budget_exhausted = false;
        let ghost before = self.cell_order@;
        shuffle(self.cell_order.as_mut_slice(), rng);
        proof {
            lemma_rearranged_order(before, self.cell_order@, ctx.total_cells as int);
            assert(self.state.result@ =~= Seq::<usize>::empty());
            assert(self.state@ =~= model_of(*ctx, self.state.result@));
        }
    }
}

/// Number of the first `k` placements of `r` whose piece type is `t`.
pub open spec fn uses_of(ctx: SolveContext, r: Seq<usize>, t: int, k: int) -> int
    decreases k,
{
    if k <= 0 {
        0
    } else {
        uses_of(ctx, r, t, k - 1) + if ctx.placements@[r[k - 1] as int].type_idx as int == t {
            1int
        } else {
            0int
        }
    }
}

proof fn lemma_uses_prefix(ctx: SolveContext, r: Seq<usize>, s: Seq<usize>, t: int, k: int)
    requires
        0 <= k <= r.len(),
        k <= s.len(),
        forall|i: int| 0 <= i < k ==> r[i] == s[i],
    ensures
        uses_of(ctx, r, t, k) == uses_of(ctx, s, t, k),
    decreases k,
{
    if k > 0 {
        lemma_uses_prefix(ctx, r, s, t, k - 1);
    }
}

/// In a reachable state, the instances of each type left plus those used
/// by the applied placements make up the type's count.
pub proof fn lemma_remaining_uses(ctx: SolveContext, r: Seq<usize>, t: int)
    requires
        ctx.wf(),
        legal(ctx, r),
        0 <= t < ctx.type_ids@.len(),
    ensures
        model_of(ctx, r).remaining[t] + uses_of(ctx, r, t, r.len() as int) == ctx.type_counts@[t],
        uses_of(ctx, r, t, r.len() as int) >= 0,
    decreases r.len(),
{
    if r.len() > 0 {
        let d = r.drop_last();
        lemma_remaining_uses(ctx, d, t);
        lemma_model_facts(ctx, d);
        lemma_uses_prefix(ctx, r, d, t, d.len() as int);
    }
}

/// The cells covered after applying `r` are those of its placements, and
/// the placements of `r` cover pairwise disjoint cells.
pub proof fn lemma_cover_union(ctx: SolveContext, r: Seq<usize>)
    requires
        ctx.wf(),
        legal(ctx, r),
    ensures
        forall|c: int|
            #![trigger model_of(ctx, r).covered.contains(c)]
            model_of(ctx, r).covered.contains(c) <==> exists|k: int|
                0 <= k < r.len() && ctx.placements@[r[k] as int].bits@.contains(c),
        forall|k1: int, k2: int|
            0 <= k1 < r.len() && 0 <= k2 < r.len() && k1 != k2 ==> ctx.placements@[r[k1] as int].bits@.disjoint(
                ctx.placements@[r[k2] as int].bits@,
            ),
    decreases r.len(),
{
    if r.len() > 0 {
        let d = r.drop_last();
        lemma_cover_union(ctx, d);
        let last = r.len() - 1;
        let pl = ctx.placements@[r[last] as int];
        let m0 = model_of(ctx, d);
        assert forall|c: int|
            #![trigger model_of(ctx, r).covered.contains(c)]
            model_of(ctx, r).covered.contains(c) <==> exists|k: int|
                0 <= k < r.len() && ctx.placements@[r[k] as int].bits@.contains(c) by {
            if m0.covered.contains(c) {
                let k = choose|k: int| 0 <= k < d.len() && ctx.placements@[d[k] as int].bits@.contains(c);
                assert(r[k] == d[k]);
            }
            if pl.bits@.contains(c) {
                assert(ctx.placements@[r[last] as int].bits@.contains(c));
            }
            if exists|k: int| 0 <= k < r.len() && ctx.placements@[r[k] as int].bits@.contains(c) {
                let k = choose|k: int| 0 <= k < r.len() && ctx.placements@[r[k] as int].bits@.contains(c);
                if k < d.len() {
                    assert(r[k] == d[k]);
                }
            }
        }
        assert forall|k1: int, k2: int|
            0 <= k1 < r.len() && 0 <= k2 < r.len() && k1 != k2 implies ctx.placements@[r[k1] as int].bits@.disjoint(
            ctx.placements@[r[k2] as int].bits@,
        ) by {
            if k1 < d.len() && k2 < d.len() {
                assert(r[k1] == d[k1] && r[k2] == d[k2]);
            } else if k1 == last {
                assert(r[k2] == d[k2]);
                assert forall|c: int| !(pl.bits@.contains(c) && ctx.placements@[r[k2] as int].bits@.contains(c)) by {
                    if ctx.placements@[d[k2] as int].bits@.contains(c) {
                        assert(m0.covered.contains(c));
                    }
                }
            } else {
                assert(r[k1] == d[k1]);
                assert forall|c: int| !(ctx.placements@[r[k1] as int].bits@.contains(c) && pl.bits@.contains(c)) by {
                    if ctx.placements@[d[k1] as int].bits@.contains(c) {
                        assert(m0.covered.contains(c));
                    }
                }
            }
        }
    } else {
        assert(model_of(ctx, r).covered =~= Set::<int>::empty());
    }
}

/// Placements applied after the stack `r` only take cells and instances
/// away: the cells covered at `r` stay covered, and no type has more
/// instances left than at `r`.
proof fn lemma_extension_monotone(ctx: SolveContext, r: Seq<usize>, q: Seq<usize>)
    requires
        ctx.wf(),
        legal(ctx, r + q),
    ensures
        legal(ctx, r),
        model_of(ctx, r).covered.subset_of(model_of(ctx, r + q).covered),
        model_of(ctx, r + q).remaining.len() == model_of(ctx, r).remaining.len(),
        forall|t: int|
            0 <= t < model_of(ctx, r).remaining.len() ==> #[trigger] model_of(ctx, r + q).remaining[t]
                <= model_of(ctx, r).remaining[t],
    decreases q.len(),
{
    if q.len() == 0 {
        assert(r + q =~= r);
    } else {
        let a = r + q;
        let d = q.drop_last();
        assert(a.drop_last() =~= r + d);
        lemma_extension_monotone(ctx, r, d);
        lemma_model_facts(ctx, r + d);
        let pl = ctx.placements@[a.last() as int];
        ctx.lemma_placement(a.last() as int);
    }
}

/// Every placement applied after the stack `r`, in a legal extension of
/// it, already fits the state reached by `r`.
proof fn lemma_extension_fits(ctx: SolveContext, r: Seq<usize>, q: Seq<usize>, k: int)
    requires
        ctx.wf(),
        legal(ctx, r + q),
        0 <= k < q.len(),
    ensures
        (q[k] as int) < ctx.placements@.len(),
        valid_in(ctx, model_of(ctx, r), q[k] as int),
    decreases q.len(),
{
    let a = r + q;
    let d = q.drop_last();
    assert(a.drop_last() =~= r + d);
    if k < q.len() - 1 {
        assert(d[k] == q[k]);
        lemma_extension_fits(ctx, r, d, k);
    } else {
        lemma_extension_monotone(ctx, r, d);
        lemma_model_facts(ctx, r);
        let pl = ctx.placements@[q[k] as int];
        ctx.lemma_placement(q[k] as int);
        assert(a.last() == q[k]);
    }
}

/// A solved stack covers every board cell.
pub proof fn lemma_solved_covers(ctx: SolveContext, r: Seq<usize>, c: int)
    requires
        ctx.wf(),
        solved(ctx, r),
        0 <= c < ctx.total_cells,
    ensures
        model_of(ctx, r).covered.contains(c),
{
    let n = ctx.total_cells as int;
    lemma_model_facts(ctx, r);
    lemma_int_range(0, n);
    vstd::set_lib::lemma_subset_equality(model_of(ctx, r).covered, set_int_range(0, n));
    assert(set_int_range(0, n).contains(c));
}

/// In a solved extension of the stack `r`, a cell left uncovered by `r`
/// is covered by some placement applied after `r`, which fits the state
/// of `r`.
proof fn lemma_cell_taken_later(ctx: SolveContext, r: Seq<usize>, q: Seq<usize>, c: int) -> (k: int)
    requires
        ctx.wf(),
        solved(ctx, r + q),
        0 <= c < ctx.total_cells,
        !model_of(ctx, r).covered.contains(c),
    ensures
        0 <= k < q.len(),
        (q[k] as int) < ctx.placements@.len(),
        ctx.placements@[q[k] as int].bits@.contains(c),
        valid_in(ctx, model_of(ctx, r), q[k] as int),
{
    let a = r + q;
    lemma_solved_covers(ctx, a, c);
    lemma_cover_union(ctx, a);
    lemma_extension_monotone(ctx, r, q);
    lemma_cover_union(ctx, r);
    let j = choose|j: int| 0 <= j < a.len() && ctx.placements@[a[j] as int].bits@.contains(c);
    if j < r.len() {
        assert(a[j] == r[j]);
        assert(model_of(ctx, r).covered.contains(c));
    }
    let k = j - r.len();
    assert(a[j] == q[k]);
    lemma_extension_fits(ctx, r, q, k);
    k
}

proof fn lemma_num_valid_found(ctx: SolveContext, s: SearchModel, list: Seq<u32>, j: int)
    requires
        0 <= j < list.len(),
        valid_in(ctx, s, list[j] as int),
    ensures
        num_valid(ctx, s, list, list.len() as int) >= 1,
{
    lemma_num_valid_mono(ctx, s, list, 0, j);
    lemma_num_valid_mono(ctx, s, list, j + 1, list.len() as int);
}

/// A dead cell rules out every completion: when a board cell left
/// uncovered by the stack `r` has no placement that fits the state of
/// `r`, no extension of `r` is solved.
pub proof fn lemma_dead_cell_unsolvable(ctx: SolveContext, r: Seq<usize>, q: Seq<usize>, c: int)
    requires
        ctx.wf(),
        legal(ctx, r),
        0 <= c < ctx.total_cells,
        !model_of(ctx, r).covered.contains(c),
        cell_count(ctx, model_of(ctx, r), c) == 0,
    ensures
        !solved(ctx, r + q),
{
    if solved(ctx, r + q) {
        let k = lemma_cell_taken_later(ctx, r, q, c);
        ctx.lemma_cell(c);
        let list = ctx.cell_to_placements@[c]@;
        let p = q[k] as int;
        let j = choose|j: int| 0 <= j < list.len() && list[j] as int == p;
        lemma_num_valid_found(ctx, model_of(ctx, r), list, j);
    }
}

/// The neighbour check rules out every completion: when placement `p`,
/// applied on top of the stack `r`, leaves some neighbouring cell
/// uncovered with no placement that fits, no extension of `r` with `p`
/// on top is solved.
pub proof fn lemma_neighbor_check_sound(ctx: SolveContext, r: Seq<usize>, p: usize, q: Seq<usize>)
    requires
        ctx.wf(),
        legal(ctx, r.push(p)),
        !keeps_neighbors(ctx, r, p as int),
    ensures
        !solved(ctx, r.push(p) + q),
{
    let rp = r.push(p);
    let m = model_of(ctx, rp);
    let pl = ctx.placements@[p as int];
    lemma_model_facts(ctx, rp);
    ctx.lemma_placement(p as int);
    if solved(ctx, rp + q) {
        let j = choose|j: int|
            0 <= j < pl.neighbor_indices@.len() && !(m.covered.contains(
                #[trigger] pl.neighbor_indices@[j] as int,
            ) || crate::solver::pruning::has_valid_placement_in(
                m.covered,
                m.remaining,
                ctx.cell_pl_by_type@[pl.neighbor_indices@[j] as int]@,
                ctx.placements@,
            ));
        let c = pl.neighbor_indices@[j] as int;
        let k = lemma_cell_taken_later(ctx, rp, q, c);
        let p2 = q[k] as int;
        ctx.lemma_cell(c);
        let groups = ctx.cell_pl_by_type@[c]@;
        let g = choose|g: int| 0 <= g < groups.len() && groups[g].type_idx == ctx.placements@[p2].type_idx;
        assert(lists_covering_of_type(groups[g].placements@, ctx.placements@, c, groups[g].type_idx));
        let i = choose|i: int| 0 <= i < groups[g].placements@.len() && groups[g].placements@[i] as int == p2;
        assert(ctx.placements@[groups[g].placements@[i] as int].bits@.disjoint(m.covered));
    }
}

/// A search state with its stack of applied placements left out.
pub open spec fn unstacked(m: SearchModel) -> SearchModel {
    SearchModel {
        covered: m.covered,
        remaining: m.remaining,
        covered_count: m.covered_count,
        covered_black: m.covered_black,
        has_center_mark: m.has_center_mark,
        center_mark_type_remaining: m.center_mark_type_remaining,
        result: Seq::empty(),
    }
}

/// Two stacks that reach the same state, stack aside, stay alike under
/// any further placements: each extension is legal for one exactly when it
/// is for the other, and again reaches the same state.
proof fn lemma_same_core_extend(ctx: SolveContext, a: Seq<usize>, b: Seq<usize>, q: Seq<usize>)
    requires
        legal(ctx, a),
        legal(ctx, b),
        unstacked(model_of(ctx, a)) == unstacked(model_of(ctx, b)),
    ensures
        legal(ctx, a + q) == legal(ctx, b + q),
        unstacked(model_of(ctx, a + q)) == unstacked(model_of(ctx, b + q)),
    decreases q.len(),
{
    if q.len() == 0 {
        assert(a + q =~= a);
        assert(b + q =~= b);
    } else {
        let d = q.drop_last();
        lemma_same_core_extend(ctx, a, b, d);
        assert((a + q).drop_last() =~= a + d);
        assert((b + q).drop_last() =~= b + d);
        assert((a + q).last() == q.last());
        assert((b + q).last() == q.last());
        let ma = model_of(ctx, a + d);
        let mb = model_of(ctx, b + d);
        let pl = ctx.placements@[q.last() as int];
        assert(drop_spec(ctx, ma, pl) == drop_spec(ctx, mb, pl));
        assert(unstacked(model_of(ctx, a + q)) =~= unstacked(model_of(ctx, b + q)));
    }
}

/// Two placements applied one after the other may be applied in the other
/// order, to the same state.
proof fn lemma_swap_pair(ctx: SolveContext, a: Seq<usize>, x: usize, y: usize)
    requires
        ctx.wf(),
        legal(ctx, a.push(x).push(y)),
    ensures
        legal(ctx, a.push(y).push(x)),
        unstacked(model_of(ctx, a.push(x).push(y))) == unstacked(model_of(ctx, a.push(y).push(x))),
{
    let n = ctx.total_cells as int;
    let nt = ctx.type_ids@.len() as int;
    let ax = a.push(x);
    let axy = ax.push(y);
    assert(axy.drop_last() =~= ax);
    assert(ax.drop_last() =~= a);
    assert(axy.last() == y);
    assert(ax.last() == x);
    assert(legal(ctx, ax));
    assert(legal(ctx, a));
    lemma_model_facts(ctx, axy);
    lemma_model_facts(ctx, ax);
    lemma_model_facts(ctx, a);
    let m = model_of(ctx, a);
    let m1 = model_of(ctx, ax);
    let m2 = model_of(ctx, axy);
    let px = ctx.placements@[x as int];
    let py = ctx.placements@[y as int];
    ctx.lemma_placement(x as int);
    ctx.lemma_placement(y as int);
    lemma_placement_bits(px, n, nt);
    lemma_placement_bits(py, n, nt);
    let tx = px.type_idx as int;
    let ty = py.type_idx as int;
    assert(m1 == m.after_apply(px, x, drop_spec(ctx, m, px)));
    assert(m2 == m1.after_apply(py, y, drop_spec(ctx, m1, py)));
    // `y` fits the state of `a`.
    assert(m.remaining[ty] > 0) by {
        if tx == ty {
            assert(m1.remaining[ty] == m.remaining[ty] - 1);
        } else {
            assert(m1.remaining[ty] == m.remaining[ty]);
        }
    }
    assert(m.covered.disjoint(py.bits@));
    lemma_can_apply(ctx, a, y as int);
    lemma_apply_legal(ctx, a, y);
    let ay = a.push(y);
    let n1 = model_of(ctx, ay);
    lemma_model_facts(ctx, ay);
    // `x` fits the state of `a` with `y` applied.
    assert(n1.remaining[tx] > 0) by {
        if tx == ty {
            assert(m2.remaining[tx] == m.remaining[tx] - 2);
        } else {
            assert(n1.remaining[tx] == m.remaining[tx]);
        }
    }
    assert(n1.covered.disjoint(px.bits@)) by {
        assert(px.bits@.subset_of(m1.covered));
    }
    lemma_can_apply(ctx, ay, x as int);
    lemma_apply_legal(ctx, ay, x);
    let ayx = ay.push(x);
    let n2 = model_of(ctx, ayx);
    lemma_model_facts(ctx, ayx);
    assert(n2.covered =~= m2.covered);
    assert(n2.remaining =~= m2.remaining);
    assert(n2.center_mark_type_remaining == m2.center_mark_type_remaining);
    assert(unstacked(n2) =~= unstacked(m2));
}

/// In a legal extension `q` of the stack `r`, the placement at position
/// `k` may be applied first, right on top of `r`, with the others after it
/// in their order: the result is legal and reaches the same state.
proof fn lemma_move_first(ctx: SolveContext, r: Seq<usize>, q: Seq<usize>, k: int)
    requires
        ctx.wf(),
        legal(ctx, r + q),
        0 <= k < q.len(),
    ensures
        legal(ctx, r.push(q[k]) + q.remove(k)),
        unstacked(model_of(ctx, r.push(q[k]) + q.remove(k))) == unstacked(model_of(ctx, r + q)),
    decreases k,
{
    if k == 0 {
        assert(r.push(q[0]) + q.remove(0) =~= r + q);
    } else {
        // Swap positions `k - 1` and `k`.
        let a = r + q.take(k - 1);
        let x = q[k - 1];
        let y = q[k];
        let tail = q.skip(k + 1);
        assert(r + q =~= a.push(x).push(y) + tail);
        lemma_extension_monotone(ctx, a.push(x).push(y), tail);
        lemma_swap_pair(ctx, a, x, y);
        lemma_same_core_extend(ctx, a.push(x).push(y), a.push(y).push(x), tail);
        let q2 = q.take(k - 1).push(y).push(x) + tail;
        assert(a.push(y).push(x) + tail =~= r + q2);
        assert(q2[k - 1] == y);
        lemma_move_first(ctx, r, q2, k - 1);
        assert(q2.remove(k - 1) =~= q.remove(k));
    }
}

proof fn lemma_num_valid_two(ctx: SolveContext, s: SearchModel, list: Seq<u32>, i: int, j: int)
    requires
        0 <= i < j < list.len(),
        valid_in(ctx, s, list[i] as int),
        valid_in(ctx, s, list[j] as int),
    ensures
        num_valid(ctx, s, list, list.len() as int) >= 2,
{
    lemma_num_valid_mono(ctx, s, list, 0, i);
    lemma_num_valid_mono(ctx, s, list, i + 1, j);
    lemma_num_valid_mono(ctx, s, list, j + 1, list.len() as int);
}

/// A cell with exactly one placement that fits forces that placement:
/// any fitting placement listed for the cell is it.
proof fn lemma_forced_unique(ctx: SolveContext, s: SearchModel, list: Seq<u32>, p: u32, j: int)
    requires
        forall|a: int, b: int| 0 <= a < b < list.len() ==> list[a] < list[b],
        num_valid(ctx, s, list, list.len() as int) == 1,
        first_valid_from(ctx, s, list, 0) == Some(p),
        0 <= j < list.len(),
        valid_in(ctx, s, list[j] as int),
    ensures
        list[j] == p,
{
    lemma_first_valid(ctx, s, list, 0);
    let i = choose|i: int| 0 <= i < list.len() && list[i] == p && valid_in(ctx, s, p as int);
    if i < j {
        lemma_num_valid_two(ctx, s, list, i, j);
    } else if j < i {
        lemma_num_valid_two(ctx, s, list, j, i);
    }
}

/// Two stacks reaching the same state, stack aside, are solved alike.
proof fn lemma_solved_unstacked(ctx: SolveContext, a: Seq<usize>, b: Seq<usize>)
    requires
        legal(ctx, a),
        legal(ctx, b),
        unstacked(model_of(ctx, a)) == unstacked(model_of(ctx, b)),
    ensures
        solved(ctx, a) == solved(ctx, b),
{
    assert(model_of(ctx, a).covered_count == unstacked(model_of(ctx, a)).covered_count);
    assert(model_of(ctx, b).covered_count == unstacked(model_of(ctx, b)).covered_count);
    assert(model_of(ctx, a).has_center_mark == unstacked(model_of(ctx, a)).has_center_mark);
    assert(model_of(ctx, b).has_center_mark == unstacked(model_of(ctx, b)).has_center_mark);
}

/// Branching on an uncovered cell loses no completion: when some extension
/// `q` of the stack `r` is solved and cell `c` is uncovered at `r`, some
/// placement listed for `c` fits the state of `r` and, applied on top of
/// `r`, still has a solved extension.
pub proof fn lemma_branch_complete(ctx: SolveContext, r: Seq<usize>, q: Seq<usize>, c: int) -> (res: (int, Seq<usize>))
    requires
        ctx.wf(),
        solved(ctx, r + q),
        0 <= c < ctx.total_cells,
        !model_of(ctx, r).covered.contains(c),
    ensures
        0 <= res.0 < ctx.cell_to_placements@[c]@.len(),
        valid_in(ctx, model_of(ctx, r), ctx.cell_to_placements@[c]@[res.0] as int),
        solved(ctx, r.push(ctx.cell_to_placements@[c]@[res.0] as usize) + res.1),
{
    let k = lemma_cell_taken_later(ctx, r, q, c);
    ctx.lemma_cell(c);
    let list = ctx.cell_to_placements@[c]@;
    let p = q[k];
    let i = choose|i: int| 0 <= i < list.len() && list[i] as int == p as int;
    lemma_move_first(ctx, r, q, k);
    lemma_solved_unstacked(ctx, r.push(p) + q.remove(k), r + q);
    assert(list[i] as usize == p);
    (i, q.remove(k))
}

/// The unit-propagation cascade loses no completion: started, with the
/// budget not spent, from a stack that has a solved extension, and with
/// more scans allowed than cells left to cover, it does not fail.
pub proof fn lemma_cascade_complete(ctx: SolveContext, order: Seq<u16>, r: Seq<usize>, q: Seq<usize>, fuel: nat)
    requires
        ctx.wf(),
        order_ok(order, ctx.total_cells as int),
        solved(ctx, r + q),
        fuel > ctx.total_cells - model_of(ctx, r).covered_count,
    ensures
        cascade_run(ctx, order, r, false, fuel) is Some,
        exists|q2: Seq<usize>| #[trigger] solved(ctx, cascade_stack(cascade_run(ctx, order, r, false, fuel)) + q2),
    decreases fuel,
{
    let n = ctx.total_cells as int;
    let m = model_of(ctx, r);
    lemma_extension_monotone(ctx, r, q);
    lemma_covered_bound(ctx, r);
    lemma_scan_spec(ctx, m, order);
    assert(fuel > 0);
    match scan_spec(ctx, m, order) {
        MrvOutcome::DeadCell => {
            let k = choose|k: int| 0 <= k < order.len() && dead_at(ctx, m, order, k);
            lemma_dead_cell_unsolvable(ctx, r, q, order[k] as int);
        },
        MrvOutcome::AllCovered => {
            if q.len() > 0 {
                lemma_extension_fits(ctx, r, q, 0);
                let pl = ctx.placements@[q[0] as int];
                ctx.lemma_placement(q[0] as int);
                let c = pl.cell_indices@[0] as int;
                assert(pl.bits@.contains(c));
                lemma_order_complete(order, n, c);
                let j = choose|j: int| 0 <= j < order.len() && order[j] as int == c;
                assert(!open_at(m, order, j));
            } else {
                assert(r + q =~= r);
                assert(cascade_stack(cascade_run(ctx, order, r, false, fuel)) == r);
                assert(solved(ctx, cascade_stack(cascade_run(ctx, order, r, false, fuel)) + q));
            }
        },
        MrvOutcome::Unit { placement_idx } => {
            let k = choose|k: int|
                0 <= k < order.len() && open_at(m, order, k) && cell_count(ctx, m, order[k] as int) == 1
                    && first_valid_from(ctx, m, ctx.cell_to_placements@[order[k] as int]@, 0) == Some(
                    placement_idx,
                );
            let c = order[k] as int;
            let j = lemma_cell_taken_later(ctx, r, q, c);
            ctx.lemma_cell(c);
            let list = ctx.cell_to_placements@[c]@;
            let i = choose|i: int| 0 <= i < list.len() && list[i] as int == q[j] as int;
            lemma_forced_unique(ctx, m, list, placement_idx, i);
            let p = placement_idx as usize;
            assert(q[j] == p);
            let q2 = q.remove(j);
            lemma_move_first(ctx, r, q, j);
            lemma_solved_unstacked(ctx, r.push(p) + q2, r + q);
            lemma_extension_monotone(ctx, r.push(p), q2);
            if !keeps_neighbors(ctx, r, p as int) {
                lemma_neighbor_check_sound(ctx, r, p, q2);
            }
            lemma_apply_step(ctx, r, p);
            lemma_cascade_complete(ctx, order, r.push(p), q2, (fuel - 1) as nat);
            assert(cascade_run(ctx, order, r, false, fuel) == cascade_run(
                ctx,
                order,
                r.push(p),
                false,
                (fuel - 1) as nat,
            ));
        },
        MrvOutcome::Branch { cell_idx } => {
            assert(cascade_stack(cascade_run(ctx, order, r, false, fuel)) == r);
            assert(solved(ctx, cascade_stack(cascade_run(ctx, order, r, false, fuel)) + q));
        },
    }
}

/// Applying one more placement covers more cells.
proof fn lemma_apply_step(ctx: SolveContext, r: Seq<usize>, p: usize)
    requires
        ctx.wf(),
        legal(ctx, r.push(p)),
    ensures
        model_of(ctx, r.push(p)).covered_count > model_of(ctx, r).covered_count,
{
    assert(r.push(p).drop_last() =~= r);
    lemma_model_facts(ctx, r.push(p));
    ctx.lemma_placement(p as int);
}

/// A covered board ends the search: when the stack `r` covers every cell,
/// its only solved extension is `r` itself, and that only when a mark
/// already lands on the center region.
pub proof fn lemma_full_board_final(ctx: SolveContext, r: Seq<usize>, q: Seq<usize>)
    requires
        ctx.wf(),
        legal(ctx, r),
        model_of(ctx, r).covered_count == ctx.total_cells,
        solved(ctx, r + q),
    ensures
        q.len() == 0,
        model_of(ctx, r).has_center_mark,
{
    let n = ctx.total_cells as int;
    lemma_model_facts(ctx, r);
    lemma_int_range(0, n);
    vstd::set_lib::lemma_subset_equality(model_of(ctx, r).covered, set_int_range(0, n));
    if q.len() > 0 {
        lemma_extension_fits(ctx, r, q, 0);
        let pl = ctx.placements@[q[0] as int];
        ctx.lemma_placement(q[0] as int);
        let c = pl.cell_indices@[0] as int;
        assert(pl.bits@.contains(c));
        assert(set_int_range(0, n).contains(c));
    } else {
        assert(r + q =~= r);
    }
}

/// No mark can reach the center region any more: when no mark of the stack
/// `r` lands on it and no type with an instance left has a placement whose
/// mark does, no extension of `r` is solved.
pub proof fn lemma_center_unreachable(ctx: SolveContext, r: Seq<usize>, q: Seq<usize>)
    requires
        ctx.wf(),
        legal(ctx, r),
        !model_of(ctx, r).has_center_mark,
        model_of(ctx, r).center_mark_type_remaining == 0,
    ensures
        !solved(ctx, r + q),
{
    if solved(ctx, r + q) {
        let a = r + q;
        lemma_model_facts(ctx, a);
        lemma_model_facts(ctx, r);
        let k = choose|k: int| 0 <= k < a.len() && ctx.placements@[#[trigger] a[k] as int].mark_on_center;
        if k < r.len() {
            assert(a[k] == r[k]);
            assert(some_center(ctx, r));
        } else {
            let j = k - r.len();
            assert(a[k] == q[j]);
            lemma_extension_fits(ctx, r, q, j);
            let p = q[j] as int;
            ctx.lemma_center_type(p);
            ctx.lemma_placement(p);
            lemma_cm_types_positive(
                model_of(ctx, r).remaining,
                ctx.center_mark_counts@,
                ctx.type_ids@.len() as int,
                ctx.placements@[p].type_idx as int,
            );
        }
    }
}

/// The cell a cascade branches on is uncovered by the stack it ends with.
proof fn lemma_cascade_branch_open(ctx: SolveContext, order: Seq<u16>, r: Seq<usize>, ex: bool, fuel: nat)
    ensures
        cascade_run(ctx, order, r, ex, fuel) matches Some((s, Some(c))) ==> !model_of(ctx, s).covered.contains(
            c as int,
        ),
    decreases fuel,
{
    if fuel > 0 {
        let m = model_of(ctx, r);
        lemma_scan_spec(ctx, m, order);
        match scan_spec(ctx, m, order) {
            MrvOutcome::Unit { placement_idx } => {
                lemma_cascade_branch_open(ctx, order, r.push(placement_idx as usize), ex, (fuel - 1) as nat);
            },
            MrvOutcome::Branch { cell_idx } => {
                let k = choose|k: int| 0 <= k < order.len() && open_at(m, order, k) && order[k] == cell_idx && forall|i: int|
                    0 <= i < order.len() && #[trigger] open_at(m, order, i) ==> 2 <= cell_count(
                        ctx,
                        m,
                        cell_idx as int,
                    ) <= cell_count(ctx, m, order[i] as int);
            },
            _ => {},
        }
    }
}

/// What [`parity_check`] accepts, for a search state.
pub open spec fn parity_holds(ctx: SolveContext, m: SearchModel) -> bool {
    let n = m.remaining.len() as int;
    let need_black = if ctx.total_black >= m.covered_black {
        ctx.total_black - m.covered_black
    } else {
        0
    };
    let covered_white = if m.covered_count >= m.covered_black {
        m.covered_count - m.covered_black
    } else {
        0
    };
    &&& ctx.total_white >= covered_white
    &&& weighted_sum(m.remaining, ctx.type_min_black@, n) <= need_black
    &&& need_black <= weighted_sum(m.remaining, ctx.type_max_black@, n)
}

/// The facts under which the search finds a solution whenever one
/// exists: those the parity check relies on, every placement's cells
/// connected, and edges between board cells going both ways whenever
/// some placement sequence solves the puzzle.
pub open spec fn search_complete_for(ctx: SolveContext) -> bool {
    &&& parity_facts(ctx)
    &&& placements_connected(ctx)
    &&& forall|r: Seq<usize>| #[trigger] solved(ctx, r) ==> adjacency_symmetric(ctx)
}

/// `b` is the set of black cells of the board of `ctx`: as many as
/// `total_black`, and each placement covers as many of them as its
/// black-cell count says.
pub open spec fn black_set(ctx: SolveContext, b: Set<int>) -> bool {
    &&& b.subset_of(set_int_range(0, ctx.total_cells as int))
    &&& b.finite()
    &&& b.len() == ctx.total_black
    &&& forall|p: int|
        0 <= p < ctx.placements@.len() ==> (#[trigger] ctx.placements@[p]).b_count == ctx.placements@[p].bits@.intersect(
            b,
        ).len()
}

/// What the parity check relies on: the pieces' cells add up to the board,
/// every type has at least one cell, each placement has the cells of its
/// type and a black-cell count within its type's bounds, and the black
/// cells are known.
pub open spec fn parity_facts(ctx: SolveContext) -> bool {
    let nt = ctx.type_ids@.len() as int;
    let pls = ctx.placements@;
    &&& cells_sum(ctx.size_of_type@, ctx.type_counts@, nt) == ctx.total_cells
    &&& forall|t: int| 0 <= t < nt ==> #[trigger] ctx.size_of_type@[t] >= 1
    &&& forall|p: int|
        0 <= p < pls.len() ==> (#[trigger] pls[p]).cell_indices@.len() == ctx.size_of_type@[pls[p].type_idx as int]
            && ctx.type_min_black@[pls[p].type_idx as int] <= pls[p].b_count <= ctx.type_max_black@[pls[p].type_idx as int]
    &&& exists|b: Set<int>| black_set(ctx, b)
}

proof fn lemma_cells_sum_update(sizes: Seq<u8>, counts: Seq<u16>, t: int, k: int)
    requires
        0 <= t < counts.len(),
        counts[t] >= 1,
        0 <= k <= counts.len(),
    ensures
        cells_sum(sizes, counts.update(t, (counts[t] - 1) as u16), k) == cells_sum(sizes, counts, k) - if t < k {
            sizes[t] as int
        } else {
            0
        },
    decreases k,
{
    if k > 0 {
        lemma_cells_sum_update(sizes, counts, t, k - 1);
        if t == k - 1 {
            let c = counts[t] as int;
            let v = counts.update(t, (counts[t] - 1) as u16)[t] as int;
            let x = sizes[t] as int;
            assert(v == c - 1);
            assert(x * v == x * c - x) by (nonlinear_arith)
                requires
                    v == c - 1,
            ;
        }
    }
}

proof fn lemma_weighted_sum_update(counts: Seq<u16>, w: Seq<u8>, t: int, k: int)
    requires
        0 <= t < counts.len(),
        counts[t] >= 1,
        0 <= k <= counts.len(),
    ensures
        weighted_sum(counts.update(t, (counts[t] - 1) as u16), w, k) == weighted_sum(counts, w, k) - if t < k {
            w[t] as int
        } else {
            0
        },
    decreases k,
{
    if k > 0 {
        lemma_weighted_sum_update(counts, w, t, k - 1);
        if t == k - 1 {
            let c = counts[t] as int;
            let v = counts.update(t, (counts[t] - 1) as u16)[t] as int;
            let x = w[t] as int;
            assert(v == c - 1);
            assert(v * x == c * x - x) by (nonlinear_arith)
                requires
                    v == c - 1,
            ;
            assert(c != 0);
            if v == 0 {
                assert(c * x - x == 0) by (nonlinear_arith)
                    requires
                        c == 1,
                ;
            }
        }
    }
}

proof fn lemma_cells_sum_zero(sizes: Seq<u8>, counts: Seq<u16>, w: Seq<u8>, k: int)
    requires
        0 <= k <= counts.len(),
        k <= sizes.len(),
        forall|t: int| 0 <= t < k ==> #[trigger] sizes[t] >= 1,
        cells_sum(sizes, counts, k) <= 0,
    ensures
        weighted_sum(counts, w, k) == 0,
    decreases k,
{
    if k > 0 {
        crate::solver::context::lemma_cells_sum_nonneg(sizes, counts, k - 1);
        assert(sizes[k - 1] as int * counts[k - 1] as int >= counts[k - 1] as int) by (nonlinear_arith)
            requires
                sizes[k - 1] >= 1,
        ;
        lemma_cells_sum_zero(sizes, counts, w, k - 1);
    }
}

/// Along every reachable stack, the cells of the pieces still to place and
/// the covered cells add up to the board, and the black-cell count is the
/// number of covered black cells.
proof fn lemma_parity_invariants(ctx: SolveContext, r: Seq<usize>, b: Set<int>)
    requires
        ctx.wf(),
        parity_facts(ctx),
        black_set(ctx, b),
        legal(ctx, r),
    ensures
        cells_sum(ctx.size_of_type@, model_of(ctx, r).remaining, ctx.type_ids@.len() as int)
            + model_of(ctx, r).covered_count == ctx.total_cells,
        model_of(ctx, r).covered_black == model_of(ctx, r).covered.intersect(b).len(),
    decreases r.len(),
{
    let nt = ctx.type_ids@.len() as int;
    if r.len() == 0 {
        assert(model_of(ctx, r).covered.intersect(b) =~= Set::<int>::empty());
    } else {
        let d = r.drop_last();
        lemma_parity_invariants(ctx, d, b);
        lemma_model_facts(ctx, d);
        lemma_model_facts(ctx, r);
        let m0 = model_of(ctx, d);
        let p = r.last() as int;
        let pl = ctx.placements@[p];
        ctx.lemma_placement(p);
        lemma_placement_bits(pl, ctx.total_cells as int, nt);
        lemma_cells_sum_update(ctx.size_of_type@, m0.remaining, pl.type_idx as int, nt);
        assert(pl.cell_indices@.len() == ctx.size_of_type@[pl.type_idx as int]);
        let u = m0.covered.union(pl.bits@);
        assert(u.intersect(b) =~= m0.covered.intersect(b).union(pl.bits@.intersect(b)));
        vstd::set_lib::lemma_set_disjoint_lens(m0.covered.intersect(b), pl.bits@.intersect(b));
    }
}

/// Placing more pieces after the stack `r` only raises the black cells
/// covered plus the least the remaining pieces could still cover, only
/// lowers it with the most instead, and only raises the white cells
/// covered.
proof fn lemma_parity_potentials(ctx: SolveContext, r: Seq<usize>, q: Seq<usize>)
    requires
        ctx.wf(),
        parity_facts(ctx),
        legal(ctx, r + q),
    ensures
        ({
            let nt = ctx.type_ids@.len() as int;
            let a = model_of(ctx, r);
            let z = model_of(ctx, r + q);
            &&& weighted_sum(z.remaining, ctx.type_min_black@, nt) + z.covered_black >= weighted_sum(
                a.remaining,
                ctx.type_min_black@,
                nt,
            ) + a.covered_black
            &&& weighted_sum(z.remaining, ctx.type_max_black@, nt) + z.covered_black <= weighted_sum(
                a.remaining,
                ctx.type_max_black@,
                nt,
            ) + a.covered_black
            &&& z.covered_count - z.covered_black >= a.covered_count - a.covered_black
        }),
    decreases q.len(),
{
    if q.len() == 0 {
        assert(r + q =~= r);
    } else {
        let nt = ctx.type_ids@.len() as int;
        let d = q.drop_last();
        assert((r + q).drop_last() =~= r + d);
        lemma_parity_potentials(ctx, r, d);
        lemma_model_facts(ctx, r + d);
        let m0 = model_of(ctx, r + d);
        let p = q.last() as int;
        assert((r + q).last() == q.last());
        let pl = ctx.placements@[p];
        ctx.lemma_placement(p);
        lemma_weighted_sum_update(m0.remaining, ctx.type_min_black@, pl.type_idx as int, nt);
        lemma_weighted_sum_update(m0.remaining, ctx.type_max_black@, pl.type_idx as int, nt);
    }
}

/// The parity check never rejects a state with a solved extension, given
/// the facts it relies on.
pub proof fn lemma_parity_sound(ctx: SolveContext, r: Seq<usize>, q: Seq<usize>)
    requires
        ctx.wf(),
        parity_facts(ctx),
        legal(ctx, r),
        solved(ctx, r + q),
    ensures
        parity_holds(ctx, model_of(ctx, r)),
{
    let nt = ctx.type_ids@.len() as int;
    let n = ctx.total_cells as int;
    let b = choose|b: Set<int>| black_set(ctx, b);
    let z = model_of(ctx, r + q);
    let a = model_of(ctx, r);
    lemma_model_facts(ctx, r + q);
    lemma_model_facts(ctx, r);
    lemma_parity_invariants(ctx, r + q, b);
    lemma_parity_invariants(ctx, r, b);
    lemma_parity_potentials(ctx, r, q);
    crate::solver::context::lemma_cells_sum_nonneg(ctx.size_of_type@, z.remaining, nt);
    lemma_cells_sum_zero(ctx.size_of_type@, z.remaining, ctx.type_min_black@, nt);
    lemma_cells_sum_zero(ctx.size_of_type@, z.remaining, ctx.type_max_black@, nt);
    lemma_int_range(0, n);
    vstd::set_lib::lemma_subset_equality(z.covered, set_int_range(0, n));
    assert(z.covered.intersect(b) =~= b);
    lemma_weighted_sum_bound(a.remaining, ctx.type_min_black@, nt);
    lemma_weighted_sum_bound(a.remaining, ctx.type_max_black@, nt);
    lemma_len_subset(a.covered.intersect(b), b);
}

/// Any two cells of placement `p` are joined by a walk through its own
/// cells along the adjacency list.
pub open spec fn placement_connected(ctx: SolveContext, p: int) -> bool {
    let bits = ctx.placements@[p].bits@;
    forall|x: int, y: int|
        #![trigger bits.contains(x), bits.contains(y)]
        bits.contains(x) && bits.contains(y) ==> exists|w: Seq<int>|
            #[trigger] w.len() > 0 && w[0] == x && w.last() == y && (forall|i: int|
                0 <= i < w.len() ==> bits.contains(#[trigger] w[i])) && (forall|i: int|
                0 <= i < w.len() - 1 ==> has_edge(ctx.adj_list@, #[trigger] w[i], w[i + 1]))
}

/// Every placement's cells are connected.
pub open spec fn placements_connected(ctx: SolveContext) -> bool {
    forall|p: int| 0 <= p < ctx.placements@.len() ==> #[trigger] placement_connected(ctx, p)
}

/// Edges between board cells go both ways.
pub open spec fn adjacency_symmetric(ctx: SolveContext) -> bool {
    forall|x: int, y: int|
        #![trigger has_edge(ctx.adj_list@, x, y)]
        0 <= x < ctx.total_cells && 0 <= y < ctx.total_cells && has_edge(ctx.adj_list@, x, y) ==> has_edge(
            ctx.adj_list@,
            y,
            x,
        )
}

/// Sum over the first `k` types of `m[t]` pieces of size `sizes[t]`.
pub open spec fn msum(m: Seq<int>, sizes: Seq<u8>, k: int) -> int
    decreases k,
{
    if k <= 0 {
        0
    } else {
        msum(m, sizes, k - 1) + m[k - 1] * sizes[k - 1] as int
    }
}

proof fn lemma_msum_update(m: Seq<int>, sizes: Seq<u8>, t: int, k: int)
    requires
        0 <= t < m.len(),
        0 <= k <= m.len(),
    ensures
        msum(m.update(t, m[t] + 1), sizes, k) == msum(m, sizes, k) + if t < k {
            sizes[t] as int
        } else {
            0
        },
    decreases k,
{
    if k > 0 {
        lemma_msum_update(m, sizes, t, k - 1);
        if t == k - 1 {
            assert((m[t] + 1) * sizes[t] as int == m[t] * sizes[t] as int + sizes[t] as int) by (nonlinear_arith);
        }
    }
}

proof fn lemma_msum_zero(sizes: Seq<u8>, k: int)
    requires
        0 <= k,
    ensures
        msum(Seq::new(k as nat, |t: int| 0int), sizes, k) == 0,
    decreases k,
{
    if k > 0 {
        let z = Seq::new(k as nat, |t: int| 0int);
        let z1 = Seq::new((k - 1) as nat, |t: int| 0int);
        lemma_msum_zero(sizes, k - 1);
        lemma_msum_prefix(z, z1, sizes, k - 1);
    }
}

proof fn lemma_msum_prefix(a: Seq<int>, b: Seq<int>, sizes: Seq<u8>, k: int)
    requires
        0 <= k <= a.len(),
        k <= b.len(),
        forall|t: int| 0 <= t < k ==> a[t] == b[t],
    ensures
        msum(a, sizes, k) == msum(b, sizes, k),
    decreases k,
{
    if k > 0 {
        lemma_msum_prefix(a, b, sizes, k - 1);
    }
}

/// A placement whose cells are connected, free and on the board either
/// lies inside a closed set of open cells or misses it.
proof fn lemma_inside_or_apart(ctx: SolveContext, cov: Set<int>, c: Set<int>, p: int, x: int)
    requires
        placement_connected(ctx, p),
        closed_set(ctx.adj_list@, cov, ctx.total_cells as int, c),
        ctx.placements@[p].bits@.disjoint(cov),
        ctx.placements@[p].bits@.subset_of(set_int_range(0, ctx.total_cells as int)),
        ctx.placements@[p].bits@.contains(x),
        c.contains(x),
    ensures
        ctx.placements@[p].bits@.subset_of(c),
{
    let bits = ctx.placements@[p].bits@;
    let n = ctx.total_cells as int;
    assert forall|y: int| bits.contains(y) implies c.contains(y) by {
        let w = choose|w: Seq<int>|
            #[trigger] w.len() > 0 && w[0] == x && w.last() == y && (forall|i: int|
                0 <= i < w.len() ==> bits.contains(#[trigger] w[i])) && (forall|i: int|
                0 <= i < w.len() - 1 ==> has_edge(ctx.adj_list@, #[trigger] w[i], w[i + 1]));
        assert forall|i: int| 0 <= i < w.len() implies open_cell(cov, n, #[trigger] w[i]) by {
            assert(bits.contains(w[i]));
            assert(set_int_range(0, n).contains(w[i]));
        }
        lemma_walk_stays(ctx.adj_list@, cov, n, c, w, w.len() - 1);
    }
}

/// Applying the placements `q` after the stack `r`, the cells they cover
/// in a closed set `c` of cells open at `r` are whole placements: their
/// number is a sum of type sizes over at most as many pieces of each type
/// as were placed.
proof fn lemma_component_count(ctx: SolveContext, r: Seq<usize>, q: Seq<usize>, c: Set<int>) -> (m: Seq<int>)
    requires
        ctx.wf(),
        parity_facts(ctx),
        placements_connected(ctx),
        legal(ctx, r + q),
        closed_set(ctx.adj_list@, model_of(ctx, r).covered, ctx.total_cells as int, c),
        c.subset_of(open_cells(model_of(ctx, r).covered, ctx.total_cells as int)),
        c.finite(),
    ensures
        m.len() == ctx.type_ids@.len(),
        forall|t: int|
            0 <= t < m.len() ==> 0 <= #[trigger] m[t] <= model_of(ctx, r).remaining[t] - model_of(
                ctx,
                r + q,
            ).remaining[t],
        c.intersect(model_of(ctx, r + q).covered).len() == msum(m, ctx.size_of_type@, ctx.type_ids@.len() as int),
    decreases q.len(),
{
    let nt = ctx.type_ids@.len() as int;
    let n = ctx.total_cells as int;
    if q.len() == 0 {
        assert(r + q =~= r);
        let z = Seq::new(nt as nat, |t: int| 0int);
        lemma_msum_zero(ctx.size_of_type@, nt);
        assert(c.intersect(model_of(ctx, r).covered) =~= Set::<int>::empty());
        z
    } else {
        let d = q.drop_last();
        assert((r + q).drop_last() =~= r + d);
        let m0 = lemma_component_count(ctx, r, d, c);
        lemma_extension_monotone(ctx, r, d);
        lemma_model_facts(ctx, r + d);
        lemma_model_facts(ctx, r + q);
        lemma_model_facts(ctx, r);
        let a = model_of(ctx, r + d);
        let z = model_of(ctx, r + q);
        let p = q.last() as int;
        assert((r + q).last() == q.last());
        let pl = ctx.placements@[p];
        ctx.lemma_placement(p);
        lemma_placement_bits(pl, n, nt);
        let t = pl.type_idx as int;
        assert(z.covered == a.covered.union(pl.bits@));
        assert(pl.bits@.subset_of(set_int_range(0, n))) by {
            assert forall|y: int| pl.bits@.contains(y) implies set_int_range(0, n).contains(y) by {
                let k = choose|k: int| 0 <= k < pl.cell_indices@.len() && pl.cell_indices@[k] as int == y;
            }
        }
        let ca = c.intersect(a.covered);
        if exists|x: int| pl.bits@.contains(x) && c.contains(x) {
            let x = choose|x: int| pl.bits@.contains(x) && c.contains(x);
            lemma_inside_or_apart(ctx, model_of(ctx, r).covered, c, p, x);
            let m = m0.update(t, m0[t] + 1);
            lemma_msum_update(m0, ctx.size_of_type@, t, nt);
            assert(c.intersect(z.covered) =~= ca.union(pl.bits@));
            assert(ca.disjoint(pl.bits@));
            vstd::set_lib::lemma_set_disjoint_lens(ca, pl.bits@);
            assert(pl.cell_indices@.len() == ctx.size_of_type@[t]);
            assert forall|t2: int| 0 <= t2 < m.len() implies 0 <= #[trigger] m[t2] <= model_of(ctx, r).remaining[t2]
                - z.remaining[t2] by {
                if t2 == t {
                    assert(m[t2] == m0[t2] + 1);
                } else {
                    assert(m[t2] == m0[t2]);
                }
            }
            m
        } else {
            assert(c.intersect(z.covered) =~= ca);
            assert forall|t2: int| 0 <= t2 < m0.len() implies 0 <= #[trigger] m0[t2] <= model_of(ctx, r).remaining[t2]
                - z.remaining[t2] by {
            }
            m0
        }
    }
}

proof fn lemma_subset_sum_repeat(a: Seq<int>, s: int, x: int, c: nat, j: int)
    requires
        subset_sum(a, s),
        0 <= j <= c,
    ensures
        subset_sum(a + Seq::new(c, |i: int| x), s + j * x),
    decreases c,
{
    let b = a + Seq::new(c, |i: int| x);
    if c == 0 {
        assert(b =~= a);
        assert(j * x == 0) by (nonlinear_arith)
            requires
                j == 0,
        ;
    } else {
        let b1 = a + Seq::new((c - 1) as nat, |i: int| x);
        assert(b.drop_last() =~= b1);
        assert(b.last() == x);
        assert(b.len() > 0);
        if j < c {
            lemma_subset_sum_repeat(a, s, x, (c - 1) as nat, j);
            assert(subset_sum(b.drop_last(), s + j * x));
        } else {
            lemma_subset_sum_repeat(a, s, x, (c - 1) as nat, j - 1);
            assert(s + j * x - x == s + (j - 1) * x) by (nonlinear_arith);
            assert(subset_sum(b.drop_last(), s + j * x - b.last()));
        }
    }
}

/// Taking, of each type, at most as many pieces as remain gives a sum of
/// some of the remaining piece sizes.
proof fn lemma_subset_sum_counts(rem: Seq<u16>, sizes: Seq<u8>, m: Seq<int>, k: int)
    requires
        0 <= k <= rem.len(),
        k <= m.len(),
        forall|t: int| 0 <= t < k ==> 0 <= #[trigger] m[t] <= rem[t],
    ensures
        subset_sum(piece_sizes(rem, sizes, k), msum(m, sizes, k)),
    decreases k,
{
    if k > 0 {
        lemma_subset_sum_counts(rem, sizes, m, k - 1);
        lemma_subset_sum_repeat(
            piece_sizes(rem, sizes, k - 1),
            msum(m, sizes, k - 1),
            sizes[k - 1] as int,
            rem[k - 1] as nat,
            m[k - 1],
        );
        assert(m[k - 1] * sizes[k - 1] as int == m[k - 1] * (sizes[k - 1] as int));
    }
}

proof fn lemma_min_remaining_le(rem: Seq<u16>, sizes: Seq<u8>, k: int, t: int)
    requires
        0 <= t < k,
        rem[t] > 0,
    ensures
        min_remaining_size(rem, sizes, k) matches Some(mn) && mn <= sizes[t],
    decreases k,
{
    if t < k - 1 {
        lemma_min_remaining_le(rem, sizes, k - 1, t);
    }
}

/// A positive sum of counts times sizes has a type with a positive count,
/// and is at least that type's size.
proof fn lemma_msum_witness(m: Seq<int>, sizes: Seq<u8>, k: int)
    requires
        0 <= k <= m.len(),
        forall|t: int| 0 <= t < k ==> #[trigger] m[t] >= 0,
    ensures
        msum(m, sizes, k) >= 0,
        msum(m, sizes, k) > 0 ==> exists|t: int| 0 <= t < k && #[trigger] m[t] >= 1 && msum(m, sizes, k) >= sizes[t],
    decreases k,
{
    if k > 0 {
        lemma_msum_witness(m, sizes, k - 1);
        assert(m[k - 1] * sizes[k - 1] as int >= 0) by (nonlinear_arith)
            requires
                m[k - 1] >= 0,
        ;
        if m[k - 1] >= 1 {
            assert(m[k - 1] * sizes[k - 1] as int >= sizes[k - 1] as int) by (nonlinear_arith)
                requires
                    m[k - 1] >= 1,
            ;
        }
    }
}

/// The island check never rejects a state with a solved extension, when
/// edges between board cells go both ways and every placement's cells are
/// connected.
pub proof fn lemma_islands_sound(ctx: SolveContext, r: Seq<usize>, q: Seq<usize>, s: SearchState)
    requires
        ctx.wf(),
        parity_facts(ctx),
        placements_connected(ctx),
        adjacency_symmetric(ctx),
        legal(ctx, r),
        solved(ctx, r + q),
        s@ == model_of(ctx, r),
    ensures
        islands_feasible(s, ctx.adj_list@, ctx.size_of_type@, ctx.total_cells as int),
{
    let n = ctx.total_cells as int;
    let nt = ctx.type_ids@.len() as int;
    let cov = model_of(ctx, r).covered;
    let adj = ctx.adj_list@;
    lemma_model_facts(ctx, r);
    lemma_model_facts(ctx, r + q);
    let cs = crate::base::connectivity::components(adj, cov, n);
    assert(crate::base::connectivity::symmetric_on(adj, cov, n));
    assert(closed_set(adj, cov, n, Set::<int>::empty()));
    crate::base::connectivity::lemma_components_closed(adj, cov, n, 0, Set::empty());
    crate::base::connectivity::lemma_components_bounded(adj, cov, n, 0, Set::empty());
    let items = piece_sizes(s.remaining@, ctx.size_of_type@, nt);
    assert forall|j: int| 0 <= j < cs.len() implies (crate::solver::pruning::min_remaining_size(
        s.remaining@,
        ctx.size_of_type@,
        nt,
    ) matches Some(mn) ==> (#[trigger] cs[j]).len() >= mn) && subset_sum(items, cs[j].len() as int) by {
        let c = cs[j];
        let m = lemma_component_count(ctx, r, q, c);
        let z = model_of(ctx, r + q);
        assert(c.intersect(z.covered) =~= c) by {
            assert forall|x: int| c.contains(x) implies z.covered.contains(x) by {
                assert(open_cells(cov, n).contains(x));
                lemma_solved_covers(ctx, r + q, x);
            }
        }
        assert forall|t: int| 0 <= t < nt implies 0 <= #[trigger] m[t] <= s.remaining@[t] by {
            assert(z.remaining[t] >= 0);
        }
        lemma_subset_sum_counts(s.remaining@, ctx.size_of_type@, m, nt);
        lemma_msum_witness(m, ctx.size_of_type@, nt);
        if c.len() > 0 {
            let t = choose|t: int| 0 <= t < nt && #[trigger] m[t] >= 1 && msum(m, ctx.size_of_type@, nt)
                >= ctx.size_of_type@[t];
            lemma_min_remaining_le(s.remaining@, ctx.size_of_type@, nt, t);
        }
    }
}

} // verus!
