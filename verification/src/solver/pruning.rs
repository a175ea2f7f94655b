//! Feasibility checks that prune infeasible subtrees during backtracking.
//!
//! - [`parity_check`]: the black cells still to cover must be reachable
//!   from the remaining pieces' black-cell contribution range.
//! - [`island_check`]: every component of uncovered cells must have a size
//!   expressible as a sum of remaining piece sizes.
//! - [`neighbor_check`]: after a placement, no adjacent uncovered cell may be
//!   left without a valid placement.

use crate::base::bitset::{BitSet, CAPACITY};
use crate::base::connectivity::{
    adjacency_ok, clear_marks, components, explore_components, lemma_components_bounded,
    lemma_open_cells_len, open_cells,
};
use crate::domain::placement::Placement;
use crate::solver::state::SearchState;
use vstd::prelude::*;
use vstd::set_lib::{lemma_int_range, lemma_len_subset, set_int_range};

verus! {

/// The placements of one piece type that cover some cell.
pub struct TypeGroup {
    pub type_idx: u16,
    pub placements: Vec<u32>,
}

/// Workspace buffers reused across [`island_check`] calls.
pub struct IslandWorkspace {
    /// `visited[i]` is non-zero when cell `i` has been seen by the search.
    pub visited: Vec<u8>,
    /// Search frontier stack.
    pub stack: Vec<u32>,
    /// Sizes of discovered components.
    pub comp_sizes: Vec<u32>,
    /// Subset-sum table: `dp[k]` is non-zero iff some sub-multiset of the
    /// remaining pieces has exactly `k` cells.
    pub dp: Vec<u8>,
    /// Component label of each cell.
    pub membership: Vec<u16>,
}

impl IslandWorkspace {
    /// Allocates buffers sized for `total_cells` board cells.
    pub fn new(total_cells: usize) -> (ws: Self)
        requires
            total_cells < usize::MAX,
        ensures
            ws.wf_for(total_cells as int),
    {
        Self {
            visited: vec![0u8; total_cells],
            stack: Vec::with_capacity(total_cells),
            comp_sizes: Vec::with_capacity(64),
            dp: vec![0u8; total_cells + 1],
            membership: vec![u16::MAX; total_cells],
        }
    }

    /// The buffers are large enough for a board of `n` cells.
    pub open spec fn wf_for(&self, n: int) -> bool {
        &&& self.visited@.len() >= n
        &&& self.dp@.len() > n
        &&& self.membership@.len() == n
    }
}

/// Sum over piece types `t < k` with remaining instances of
/// `counts[t] * weights[t]`.
pub open spec fn weighted_sum(counts: Seq<u16>, weights: Seq<u8>, k: int) -> int
    decreases k,
{
    if k <= 0 {
        0
    } else {
        weighted_sum(counts, weights, k - 1) + if counts[k - 1] == 0 {
            0
        } else {
            counts[k - 1] as int * weights[k - 1] as int
        }
    }
}

/// Every type with a remaining instance has an entry in `table`.
pub open spec fn indexed_for_remaining<T>(remaining: Seq<u16>, table: Seq<T>) -> bool {
    forall|t: int| 0 <= t < remaining.len() && remaining[t] > 0 ==> t < table.len()
}

proof fn lemma_weighted_sum_monotone(counts: Seq<u16>, weights: Seq<u8>, j: int, k: int)
    requires
        0 <= j <= k,
    ensures
        weighted_sum(counts, weights, j) <= weighted_sum(counts, weights, k),
        weighted_sum(counts, weights, j) >= 0,
    decreases k,
{
    if j < k {
        lemma_weighted_sum_monotone(counts, weights, j, k - 1);
        if counts[k - 1] != 0 {
            assert(counts[k - 1] as int * weights[k - 1] as int >= 0) by (nonlinear_arith);
        }
    } else if k > 0 {
        lemma_weighted_sum_monotone(counts, weights, k - 1, k - 1);
        if counts[k - 1] != 0 {
            assert(counts[k - 1] as int * weights[k - 1] as int >= 0) by (nonlinear_arith);
        }
    }
}

/// Parity (checkerboard color) feasibility check.
///
/// Returns `true` if the number of black cells still to cover lies within
/// the range of black cells the remaining pieces can contribute, and no
/// more white cells are covered than exist.
pub fn parity_check(
    state: &SearchState,
    total_black: u16,
    total_white: u16,
    type_min_black: &[u8],
    type_max_black: &[u8],
) -> (r: bool)
    requires
        indexed_for_remaining(state.remaining@, type_min_black@),
        indexed_for_remaining(state.remaining@, type_max_black@),
        weighted_sum(state.remaining@, type_min_black@, state.remaining@.len() as int) <= u32::MAX,
        weighted_sum(state.remaining@, type_max_black@, state.remaining@.len() as int) <= u32::MAX,
    ensures
        ({
            let n = state.remaining@.len() as int;
            let need_black = if total_black >= state.covered_black {
                total_black - state.covered_black
            } else {
                0
            };
            let covered_white = if state.covered_count >= state.covered_black {
                state.covered_count - state.covered_black
            } else {
                0
            };
            r == (total_white >= covered_white && weighted_sum(
                state.remaining@,
                type_min_black@,
                n,
            ) <= need_black <= weighted_sum(state.remaining@, type_max_black@, n))
        }),
{
    let need_black = total_black.saturating_sub(state.covered_black);
    let covered_white = state.covered_count.saturating_sub(state.covered_black);
    if total_white < covered_white {
        return false;
    }
    let ghost n = state.remaining@.len() as int;
    let mut pieces_min_black: u32 = 0;
    let mut pieces_max_black: u32 = 0;
    let mut ti: usize = 0;
    while ti < state.remaining.len()
        invariant
            ti <= n,
            n == state.remaining@.len(),
            indexed_for_remaining(state.remaining@, type_min_black@),
            indexed_for_remaining(state.remaining@, type_max_black@),
            weighted_sum(state.remaining@, type_min_black@, n) <= u32::MAX,
            weighted_sum(state.remaining@, type_max_black@, n) <= u32::MAX,
            pieces_min_black as int == weighted_sum(state.remaining@, type_min_black@, ti as int),
            pieces_max_black as int == weighted_sum(state.remaining@, type_max_black@, ti as int),
        decreases n - ti,
    {
        let count = state.remaining[ti];
        proof {
            lemma_weighted_sum_monotone(state.remaining@, type_min_black@, ti + 1, n);
            lemma_weighted_sum_monotone(state.remaining@, type_max_black@, ti + 1, n);
        }
        if count != 0 {
            let lo = type_min_black[ti];
            let hi = type_max_black[ti];
            proof {
                assert(count as int * lo as int <= 65535 * 255) by (nonlinear_arith)
                    requires
                        count <= 65535,
                        lo <= 255,
                ;
                assert(count as int * hi as int <= 65535 * 255) by (nonlinear_arith)
                    requires
                        count <= 65535,
                        hi <= 255,
                ;
            }
            pieces_min_black = pieces_min_black + count as u32 * lo as u32;
            pieces_max_black = pieces_max_black + count as u32 * hi as u32;
        }
        ti = ti + 1;
    }
    let need = need_black as u32;
    need >= pieces_min_black && need <= pieces_max_black
}

/// The sizes of the remaining pieces, one entry per instance, for types
/// `t < k` in type order.
pub open spec fn piece_sizes(remaining: Seq<u16>, sizes: Seq<u8>, k: int) -> Seq<int>
    decreases k,
{
    if k <= 0 {
        Seq::empty()
    } else {
        piece_sizes(remaining, sizes, k - 1) + Seq::new(
            remaining[k - 1] as nat,
            |i: int| sizes[k - 1] as int,
        )
    }
}

/// Some sub-multiset of `items` sums to exactly `s`.
pub open spec fn subset_sum(items: Seq<int>, s: int) -> bool
    decreases items.len(),
{
    if items.len() == 0 {
        s == 0
    } else {
        subset_sum(items.drop_last(), s) || subset_sum(items.drop_last(), s - items.last())
    }
}

/// Smallest size among piece types `t < k` with remaining instances.
pub open spec fn min_remaining_size(remaining: Seq<u16>, sizes: Seq<u8>, k: int) -> Option<int>
    decreases k,
{
    if k <= 0 {
        None
    } else {
        let prev = min_remaining_size(remaining, sizes, k - 1);
        if remaining[k - 1] > 0 {
            let s = sizes[k - 1] as int;
            match prev {
                None => Some(s),
                Some(m) => Some(if s < m { s } else { m }),
            }
        } else {
            prev
        }
    }
}

/// The island condition: nothing is covered yet, or every component of
/// uncovered cells can hold the smallest remaining piece and has a size
/// that is a sum of remaining piece sizes.
pub open spec fn islands_feasible(
    state: SearchState,
    adj: Seq<Vec<u16>>,
    sizes: Seq<u8>,
    n: int,
) -> bool {
    let cs = components(adj, state.covered@, n);
    let k = state.remaining@.len() as int;
    let items = piece_sizes(state.remaining@, sizes, k);
    state.covered_count == 0 || forall|j: int|
        0 <= j < cs.len() ==> (min_remaining_size(state.remaining@, sizes, k) matches Some(m)
            ==> (#[trigger] cs[j]).len() >= m) && subset_sum(items, cs[j].len() as int)
}

proof fn lemma_subset_sum_negative(items: Seq<int>, s: int)
    requires
        s < 0,
        forall|i: int| 0 <= i < items.len() ==> items[i] >= 0,
    ensures
        !subset_sum(items, s),
    decreases items.len(),
{
    if items.len() > 0 {
        let d = items.drop_last();
        assert forall|i: int| 0 <= i < d.len() implies d[i] >= 0 by {
            assert(d[i] == items[i]);
        }
        lemma_subset_sum_negative(d, s);
        lemma_subset_sum_negative(d, s - items.last());
    }
}

proof fn lemma_subset_sum_push(items: Seq<int>, x: int, s: int)
    ensures
        subset_sum(items.push(x), s) == (subset_sum(items, s) || subset_sum(items, s - x)),
{
    assert(items.push(x).drop_last() =~= items);
}

proof fn lemma_piece_sizes_nonneg(remaining: Seq<u16>, sizes: Seq<u8>, k: int)
    ensures
        forall|i: int|
            0 <= i < piece_sizes(remaining, sizes, k).len() ==> #[trigger] piece_sizes(
                remaining,
                sizes,
                k,
            )[i] >= 0,
    decreases k,
{
    if k > 0 {
        lemma_piece_sizes_nonneg(remaining, sizes, k - 1);
        let a = piece_sizes(remaining, sizes, k - 1);
        let b = Seq::new(remaining[k - 1] as nat, |i: int| sizes[k - 1] as int);
        assert forall|i: int| 0 <= i < (a + b).len() implies (a + b)[i] >= 0 by {
            if i < a.len() {
                assert((a + b)[i] == a[i]);
            } else {
                assert((a + b)[i] == b[i - a.len()]);
            }
        }
    }
}

/// Sets every entry of `v` to `val`.
fn fill_u16(v: &mut Vec<u16>, val: u16)
    ensures
        final(v)@.len() == old(v)@.len(),
        forall|i: int| 0 <= i < final(v)@.len() ==> final(v)@[i] == val,
{
    let mut i: usize = 0;
    while i < v.len()
        invariant
            i <= v@.len(),
            v@.len() == old(v)@.len(),
            forall|j: int| 0 <= j < i ==> v@[j] == val,
        decreases v@.len() - i,
    {
        v[i] = val;
        i = i + 1;
    }
}

/// One 0/1-knapsack step over `dp[0..=cap]` for an item of size `sz`.
fn knapsack_step(dp: &mut Vec<u8>, sz: usize, cap: usize)
    requires
        cap < old(dp)@.len(),
        cap < usize::MAX,
    ensures
        final(dp)@.len() == old(dp)@.len(),
        forall|s: int|
            0 <= s <= cap ==> (#[trigger] final(dp)@[s] != 0 <==> (old(dp)@[s] != 0 || (s >= sz
                && old(dp)@[s - sz] != 0))),
{
    if sz > cap {
        return;
    }
    let mut s: usize = cap + 1;
    while s > sz
        invariant
            sz <= s <= cap + 1,
            cap < dp@.len(),
            dp@.len() == old(dp)@.len(),
            forall|t: int| 0 <= t < s ==> #[trigger] dp@[t] == old(dp)@[t],
            forall|t: int|
                s <= t <= cap ==> (#[trigger] dp@[t] != 0 <==> (old(dp)@[t] != 0 || (t >= sz
                    && old(dp)@[t - sz] != 0))),
        decreases s,
    {
        s = s - 1;
        if dp[s - sz] != 0 {
            dp[s] = 1;
        }
    }
}

/// Island (connected component) feasibility check.
///
/// Partitions uncovered cells into components, then requires each
/// component to be at least as large as the smallest remaining piece and
/// its size to be a sum of some of the remaining piece sizes.
/// Returns `true` if the subtree may still be feasible.
pub fn island_check(
    state: &SearchState,
    adj_list: &[Vec<u16>],
    size_of_type: &[u8],
    total_cells: u16,
    workspace: &mut IslandWorkspace,
) -> (r: bool)
    requires
        total_cells as int <= CAPACITY,
        adjacency_ok(adj_list@, total_cells as int),
        old(workspace).wf_for(total_cells as int),
        state.covered@.subset_of(set_int_range(0, total_cells as int)),
        state.covered_count as int == state.covered@.len(),
        indexed_for_remaining(state.remaining@, size_of_type@),
    ensures
        final(workspace).wf_for(total_cells as int),
        r == islands_feasible(*state, adj_list@, size_of_type@, total_cells as int),
{
    if state.covered_count == 0 {
        return true;
    }
    let n = total_cells as usize;
    let ghost nn = total_cells as int;
    let ghost cs = components(adj_list@, state.covered@, nn);
    clear_marks(&mut workspace.visited);
    workspace.stack.clear();
    workspace.comp_sizes.clear();
    fill_u16(&mut workspace.membership, u16::MAX);
    let _count = explore_components(
        &state.covered,
        adj_list,
        total_cells,
        &mut workspace.visited,
        &mut workspace.stack,
        &mut workspace.comp_sizes,
        &mut workspace.membership,
    );
    assert(workspace.wf_for(nn));
    if workspace.comp_sizes.len() == 0 {
        return true;
    }
    let ghost k = state.remaining@.len() as int;
    let ghost rem = state.remaining@;
    let ghost sizes = size_of_type@;
    // Smallest size among remaining piece types.
    let mut min_size: Option<u32> = None;
    let mut ti: usize = 0;
    while ti < state.remaining.len() && ti < size_of_type.len()
        invariant
            ti <= k,
            k == state.remaining@.len(),
            rem == state.remaining@,
            sizes == size_of_type@,
            indexed_for_remaining(rem, sizes),
            workspace.wf_for(nn),
            min_remaining_size(rem, sizes, ti as int) == match min_size {
                None => None::<int>,
                Some(m) => Some(m as int),
            },
        decreases k - ti,
    {
        if state.remaining[ti] > 0 {
            let sz = size_of_type[ti] as u32;
            min_size = match min_size {
                None => Some(sz),
                Some(m) => Some(if sz < m { sz } else { m }),
            };
        }
        ti = ti + 1;
    }
    proof {
        if ti < k {
            lemma_min_stable(rem, sizes, ti as int, k);
        }
    }
    let ghost nc = cs.len();
    if let Some(ms) = min_size {
        let mut j: usize = 0;
        let mut fits = true;
        while j < workspace.comp_sizes.len() && fits
            invariant
                j <= workspace.comp_sizes@.len(),
                workspace.wf_for(nn),
                workspace.comp_sizes@.len() == cs.len(),
                forall|q: int| 0 <= q < cs.len() ==> workspace.comp_sizes@[q] as int == #[trigger] cs[q].len(),
                forall|q: int| 0 <= q < j ==> (#[trigger] cs[q]).len() >= ms,
                !fits ==> j < cs.len() && cs[j as int].len() < ms,
            decreases workspace.comp_sizes@.len() - j + if fits { 1int } else { 0int },
        {
            if workspace.comp_sizes[j] < ms {
                fits = false;
            } else {
                j = j + 1;
            }
        }
        if !fits {
            return false;
        }
    }
    // Subset-sum table of reachable sums of remaining pieces.
    proof {
        lemma_open_cells_len(state.covered@, nn);
        lemma_int_range(0, nn);
        lemma_len_subset(state.covered@, set_int_range(0, nn));
    }
    let total_cap = n - state.covered_count as usize;
    let mut s: usize = 0;
    while s <= total_cap
        invariant
            total_cap < workspace.dp@.len(),
            total_cap <= nn,
            nn <= CAPACITY,
            workspace.wf_for(nn),
            workspace.comp_sizes@.len() == cs.len(),
            forall|q: int| 0 <= q < cs.len() ==> workspace.comp_sizes@[q] as int == #[trigger] cs[q].len(),
            s <= total_cap + 1,
            forall|t: int| 0 <= t < s ==> workspace.dp@[t] == 0,
        decreases total_cap + 1 - s,
    {
        workspace.dp[s] = 0;
        s = s + 1;
    }
    workspace.dp[0] = 1;
    let ghost mut items: Seq<int> = Seq::empty();
    proof {
        assert forall|t: int| 0 <= t <= total_cap implies (#[trigger] workspace.dp@[t] != 0 <==> subset_sum(items, t)) by {}
    }
    let mut ti: usize = 0;
    while ti < state.remaining.len()
        invariant
            ti <= k,
            k == state.remaining@.len(),
            rem == state.remaining@,
            sizes == size_of_type@,
            indexed_for_remaining(rem, sizes),
            total_cap < workspace.dp@.len(),
            total_cap <= nn,
            nn <= CAPACITY,
            workspace.wf_for(nn),
            workspace.comp_sizes@.len() == cs.len(),
            forall|q: int| 0 <= q < cs.len() ==> workspace.comp_sizes@[q] as int == #[trigger] cs[q].len(),
            items == piece_sizes(rem, sizes, ti as int),
            forall|t: int| 0 <= t <= total_cap ==> (#[trigger] workspace.dp@[t] != 0 <==> subset_sum(items, t)),
        decreases k - ti,
    {
        let count = state.remaining[ti];
        if count == 0 {
            proof {
                assert(piece_sizes(rem, sizes, ti + 1) =~= items);
            }
            ti = ti + 1;
            continue;
        }
        let sz = size_of_type[ti] as usize;
        let mut c: u16 = 0;
        while c < count
            invariant
                c <= count,
                count == rem[ti as int],
                sz == sizes[ti as int],
                ti < k,
                total_cap < workspace.dp@.len(),
                total_cap <= nn,
                nn <= CAPACITY,
                workspace.wf_for(nn),
                workspace.comp_sizes@.len() == cs.len(),
                forall|q: int| 0 <= q < cs.len() ==> workspace.comp_sizes@[q] as int == #[trigger] cs[q].len(),
                items == piece_sizes(rem, sizes, ti as int) + Seq::new(c as nat, |i: int| sz as int),
                forall|t: int| 0 <= t <= total_cap ==> (#[trigger] workspace.dp@[t] != 0 <==> subset_sum(items, t)),
            decreases count - c,
        {
            knapsack_step(&mut workspace.dp, sz, total_cap);
            proof {
                lemma_piece_sizes_nonneg(rem, sizes, ti as int);
                assert forall|i: int| 0 <= i < items.len() implies items[i] >= 0 by {
                    let a = piece_sizes(rem, sizes, ti as int);
                    if i < a.len() {
                        assert(items[i] == a[i]);
                    }
                }
                assert forall|t: int| 0 <= t <= total_cap implies (#[trigger] workspace.dp@[t] != 0
                    <==> subset_sum(items.push(sz as int), t)) by {
                    lemma_subset_sum_push(items, sz as int, t);
                    if t < sz {
                        lemma_subset_sum_negative(items, t - sz);
                    }
                }
                assert(piece_sizes(rem, sizes, ti as int) + Seq::new((c + 1) as nat, |i: int| sz as int)
                    =~= items.push(sz as int));
                items = items.push(sz as int);
            }
            c = c + 1;
        }
        proof {
            assert(piece_sizes(rem, sizes, ti + 1) =~= items);
        }
        ti = ti + 1;
    }
    proof {
        lemma_components_bounded(adj_list@, state.covered@, nn, 0, Set::empty());
        lemma_open_cells_len(state.covered@, nn);
    }
    let mut j: usize = 0;
    let mut found_all = true;
    while j < workspace.comp_sizes.len() && found_all
        invariant
            j <= workspace.comp_sizes@.len(),
            workspace.comp_sizes@.len() == cs.len(),
            total_cap < workspace.dp@.len(),
            total_cap == nn - state.covered@.len(),
            open_cells(state.covered@, nn).len() == nn - state.covered@.len(),
            open_cells(state.covered@, nn).finite(),
            workspace.wf_for(nn),
            items == piece_sizes(rem, sizes, k),
            forall|q: int| 0 <= q < cs.len() ==> (#[trigger] cs[q]).subset_of(open_cells(state.covered@, nn)) && cs[q].finite(),
            forall|q: int| 0 <= q < cs.len() ==> workspace.comp_sizes@[q] as int == #[trigger] cs[q].len(),
            forall|t: int| 0 <= t <= total_cap ==> (#[trigger] workspace.dp@[t] != 0 <==> subset_sum(items, t)),
            forall|q: int| 0 <= q < j ==> subset_sum(items, (#[trigger] cs[q]).len() as int),
            !found_all ==> j < cs.len() && !subset_sum(items, cs[j as int].len() as int),
        decreases workspace.comp_sizes@.len() - j + if found_all { 1int } else { 0int },
    {
        let comp = workspace.comp_sizes[j] as usize;
        proof {
            vstd::set_lib::lemma_len_subset(cs[j as int], open_cells(state.covered@, nn));
        }
        if workspace.dp[comp] == 0 {
            found_all = false;
        } else {
            j = j + 1;
        }
    }
    found_all
}

/// Some group lists a placement of a type with an instance left in
/// `remaining` that fits on the cells outside `covered`.
pub open spec fn has_valid_placement_in(
    covered: Set<int>,
    remaining: Seq<u16>,
    groups: Seq<TypeGroup>,
    placements: Seq<Placement>,
) -> bool {
    exists|g: int, q: int|
        0 <= g < groups.len() && 0 <= q < groups[g].placements@.len() && remaining[groups[
            g
        ].type_idx as int] != 0 && placements[#[trigger] groups[g].placements@[q] as int].bits@.disjoint(
            covered,
        )
}

/// Some group lists a placement of a type with remaining instances that
/// fits on the currently uncovered cells.
pub open spec fn has_valid_placement(
    state: SearchState,
    groups: Seq<TypeGroup>,
    placements: Seq<Placement>,
) -> bool {
    has_valid_placement_in(state.covered@, state.remaining@, groups, placements)
}

/// Every neighbour cell of `pl` is in `covered` or still has a placement
/// that fits the cells outside `covered`, of a type left in `remaining`.
pub open spec fn neighbors_coverable_in(
    pl: Placement,
    covered: Set<int>,
    remaining: Seq<u16>,
    table: Seq<Vec<TypeGroup>>,
    placements: Seq<Placement>,
) -> bool {
    forall|j: int|
        0 <= j < pl.neighbor_indices@.len() ==> covered.contains(
            #[trigger] pl.neighbor_indices@[j] as int,
        ) || has_valid_placement_in(covered, remaining, table[pl.neighbor_indices@[j] as int]@, placements)
}

/// Every neighbour cell of `pl` is covered or still has a valid placement.
pub open spec fn neighbors_coverable(
    pl: Placement,
    state: SearchState,
    table: Seq<Vec<TypeGroup>>,
    placements: Seq<Placement>,
) -> bool {
    neighbors_coverable_in(pl, state.covered@, state.remaining@, table, placements)
}

/// The lookup entries of one cell name existing types and placements.
pub open spec fn groups_ok(groups: Seq<TypeGroup>, num_types: int, num_placements: int) -> bool {
    forall|g: int|
        0 <= g < groups.len() ==> (#[trigger] groups[g]).type_idx < num_types && forall|q: int|
            0 <= q < groups[g].placements@.len() ==> (#[trigger] groups[g].placements@[q])
                < num_placements
}

/// Neighbor (dead-cell) check after applying a placement.
///
/// For each cell adjacent to `pl` that is still uncovered, checks that some
/// placement of a type with remaining instances still fits over it.
/// Returns `false` if some neighbour is left without such a placement.
pub fn neighbor_check(
    pl: &Placement,
    state: &SearchState,
    cell_pl_by_type: &[Vec<TypeGroup>],
    placements: &[Placement],
) -> (r: bool)
    requires
        forall|j: int|
            0 <= j < pl.neighbor_indices@.len() ==> (#[trigger] pl.neighbor_indices@[j]) < CAPACITY
                && (!state.covered@.contains(pl.neighbor_indices@[j] as int) ==> (
                pl.neighbor_indices@[j] as int) < cell_pl_by_type@.len() && groups_ok(
                cell_pl_by_type@[pl.neighbor_indices@[j] as int]@,
                state.remaining@.len() as int,
                placements@.len() as int,
            )),
    ensures
        r == neighbors_coverable(*pl, *state, cell_pl_by_type@, placements@),
{
    let mut k: usize = 0;
    while k < pl.neighbor_indices.len()
        invariant
            k <= pl.neighbor_indices@.len(),
            forall|j: int|
                0 <= j < pl.neighbor_indices@.len() ==> (#[trigger] pl.neighbor_indices@[j]) < CAPACITY
                    && (!state.covered@.contains(pl.neighbor_indices@[j] as int) ==> (
                    pl.neighbor_indices@[j] as int) < cell_pl_by_type@.len() && groups_ok(
                    cell_pl_by_type@[pl.neighbor_indices@[j] as int]@,
                    state.remaining@.len() as int,
                    placements@.len() as int,
                )),
            forall|j: int|
                0 <= j < k ==> state.covered@.contains(#[trigger] pl.neighbor_indices@[j] as int)
                    || has_valid_placement(
                    *state,
                    cell_pl_by_type@[pl.neighbor_indices@[j] as int]@,
                    placements@,
                ),
        decreases pl.neighbor_indices@.len() - k,
    {
        let cell_idx = pl.neighbor_indices[k] as usize;
        if state.covered.test(cell_idx) {
            k = k + 1;
            continue;
        }
        let groups = &cell_pl_by_type[cell_idx];
        let ghost gs = groups@;
        let mut found = false;
        let mut g: usize = 0;
        while g < groups.len() && !found
            invariant
                g <= gs.len(),
                gs == groups@,
                groups_ok(gs, state.remaining@.len() as int, placements@.len() as int),
                found ==> has_valid_placement(*state, gs, placements@),
                !found ==> forall|g2: int, q: int|
                    0 <= g2 < g && 0 <= q < gs[g2].placements@.len() && state.remaining@[gs[
                        g2
                    ].type_idx as int] != 0 ==> !placements@[#[trigger] gs[g2].placements@[q] as int].bits@.disjoint(
                        state.covered@,
                    ),
            decreases gs.len() - g + if found { 0int } else { 1int },
        {
            let group = &groups[g];
            if state.remaining[group.type_idx as usize] != 0 {
                let mut q: usize = 0;
                while q < group.placements.len() && !found
                    invariant
                        q <= group.placements@.len(),
                        g < gs.len(),
                        *group == gs[g as int],
                        groups_ok(gs, state.remaining@.len() as int, placements@.len() as int),
                        state.remaining@[group.type_idx as int] != 0,
                        found ==> has_valid_placement(*state, gs, placements@),
                        !found ==> forall|q2: int|
                            0 <= q2 < q ==> !placements@[#[trigger] group.placements@[q2] as int].bits@.disjoint(
                                state.covered@,
                            ),
                    decreases group.placements@.len() - q + if found { 0int } else { 1int },
                {
                    let p_idx = group.placements[q] as usize;
                    let candidate = &placements[p_idx];
                    if !state.covered.has_overlap(&candidate.bits) {
                        proof {
                            assert(candidate.bits@.disjoint(state.covered@));
                            assert(gs[g as int].placements@[q as int] as int == p_idx);
                        }
                        found = true;
                    } else {
                        q = q + 1;
                    }
                }
                proof {
                    if !found {
                        assert forall|g2: int, q2: int|
                            0 <= g2 < g + 1 && 0 <= q2 < gs[g2].placements@.len() && state.remaining@[gs[
                                g2
                            ].type_idx as int] != 0 implies !placements@[#[trigger] gs[g2].placements@[q2] as int].bits@.disjoint(
                                state.covered@,
                            ) by {
                            if g2 == g {
                                assert(group.placements@[q2] == gs[g2].placements@[q2]);
                            }
                        }
                    }
                }
            }
            if !found {
                g = g + 1;
            }
        }
        if !found {
            proof {
                assert(!has_valid_placement(*state, gs, placements@));
            }
            return false;
        }
        k = k + 1;
    }
    true
}

proof fn lemma_min_stable(remaining: Seq<u16>, sizes: Seq<u8>, j: int, k: int)
    requires
        0 <= j <= k <= remaining.len(),
        j >= sizes.len(),
        indexed_for_remaining(remaining, sizes),
    ensures
        min_remaining_size(remaining, sizes, k) == min_remaining_size(remaining, sizes, j),
    decreases k,
{
    if j < k {
        lemma_min_stable(remaining, sizes, j, k - 1);
        assert(!(remaining[k - 1] > 0));
    }
}

} // verus!
