//! Branch traces for training data: at every branch point of a search the
//! candidate placements, what the search state would be after each, and
//! how each attempt turned out. The records of a solved instance are
//! handed out for writing; those of an unsolved one are dropped.

use vstd::prelude::*;

use crate::base::bitset::{BitSet, CAPACITY};
use crate::domain::piece::{Coord, PieceDef};
use crate::domain::placement::Placement;
use crate::io::common::PieceDefJson;
use crate::ml::canonical::{SIDE, canonical_bitmap, canonical_bitmap_of};
use crate::solver::state::SearchState;
use crate::text::str_eq;

verus! {

/// Row stride of the grid indices that traces give to board cells: a cell
/// `(r, c)` has the index `r * GRID_COLS + c`.
pub const GRID_COLS: u16 = 20;

/// The search state after applying one candidate placement.
#[derive(Debug)]
pub struct PostState {
    /// Grid indices (`r * GRID_COLS + c`) of target cells still empty.
    pub empty_target_indices: Vec<u16>,
    /// Whether some applied placement, the candidate included, marks the
    /// center.
    pub center_mark: bool,
    /// Pieces left per piece definition, in input order; 0 for a
    /// definition no piece uses.
    pub counts: Vec<u32>,
}

/// One candidate of a branch point.
#[derive(Debug)]
pub struct CandidateRecord {
    pub placement_idx: u32,
    pub post_state: PostState,
    pub tried: bool,
    pub succeeded: bool,
    pub subtree_nodes: u64,
}

/// The candidates of one branch point.
#[derive(Debug)]
pub struct BranchRecord {
    pub branch_id: u32,
    pub candidates: Vec<CandidateRecord>,
}

/// What a branch point hands to the tracer: the candidate placement
/// indices in attempt order, the state before any is applied, and the
/// placement table.
pub struct BranchEvent<'a> {
    pub candidates: &'a [u32],
    pub state: &'a SearchState,
    pub placements: &'a [Placement],
}

/// Branch-trace collector for one instance at a time.
pub struct Tracer {
    /// Canonical 6x6 bitmaps of the piece definitions, in input order.
    pub canonical_bitmaps: Vec<Vec<u8>>,
    /// Grid index of each board cell.
    pub cell_to_grid_idx: Vec<u16>,
    /// For each piece definition, in input order, the solver's type index
    /// of that id, if some piece uses it.
    pub type_idx_of_def: Vec<Option<u16>>,
    /// Label of the current instance.
    pub instance_id: String,
    /// Number of branch records finalized so far.
    pub next_branch_id: u32,
    /// Node count when the last branch point or attempt was recorded.
    pub nodes_at_branch_entry: u64,
    /// Finalized branch records of the current instance.
    pub instance_buffer: Vec<BranchRecord>,
    /// Candidates of the most recent branch point.
    pub pending_candidates: Vec<CandidateRecord>,
}

/// Grid indices of the first `n` board cells that are neither covered nor
/// in `bits`, in board order.
pub open spec fn empty_indices(grid: Seq<u16>, covered: Set<int>, bits: Set<int>, n: int) -> Seq<u16>
    decreases n,
{
    if n <= 0 {
        Seq::empty()
    } else {
        let prev = empty_indices(grid, covered, bits, n - 1);
        if !covered.contains(n - 1) && !bits.contains(n - 1) {
            prev.push(grid[n - 1])
        } else {
            prev
        }
    }
}

/// Pieces left of definition `k` after applying a placement of type
/// `placed`.
pub open spec fn count_after(types: Seq<Option<u16>>, remaining: Seq<u16>, placed: u16, k: int) -> u32 {
    match types[k] {
        Some(ti) => if placed == ti {
            if remaining[ti as int] > 0 {
                (remaining[ti as int] - 1) as u32
            } else {
                0
            }
        } else {
            remaining[ti as int] as u32
        },
        None => 0,
    }
}

/// The post-state the tracer computes for placement `pl` from `state`.
pub open spec fn post_state_ok(t: Tracer, state: SearchState, pl: Placement, p: PostState) -> bool {
    &&& p.empty_target_indices@ == empty_indices(
        t.cell_to_grid_idx@,
        state.covered@,
        pl.bits@,
        t.cell_to_grid_idx@.len() as int,
    )
    &&& p.center_mark == (state.has_center_mark || pl.mark_on_center)
    &&& p.counts@.len() == t.type_idx_of_def@.len()
    &&& forall|k: int|
        0 <= k < p.counts@.len() ==> #[trigger] p.counts@[k] == count_after(
            t.type_idx_of_def@,
            state.remaining@,
            pl.type_idx,
            k,
        )
}

/// The tables fit the state: as many board cells as a bitset holds, and
/// every type index names a remaining count.
pub open spec fn tables_fit(t: Tracer, state: SearchState) -> bool {
    &&& t.cell_to_grid_idx@.len() <= CAPACITY
    &&& forall|k: int|
        0 <= k < t.type_idx_of_def@.len() ==> (#[trigger] t.type_idx_of_def@[k] matches Some(ti)
            ==> (ti as int) < state.remaining@.len())
}

/// The first position of `id` in `ids`, if any.
pub open spec fn position_of_id(ids: Seq<String>, id: Seq<char>, n: int) -> Option<u16>
    decreases n,
{
    if n <= 0 {
        None
    } else {
        match position_of_id(ids, id, n - 1) {
            Some(p) => Some(p),
            None => if ids[n - 1]@ == id {
                Some((n - 1) as u16)
            } else {
                None
            },
        }
    }
}

/// A definition the tracer can draw: a mark among its cells and a shape
/// that fits 6x6.
pub open spec fn traceable_def(d: PieceDefJson) -> bool {
    &&& d.cells@.len() > 0
    &&& d.mark_index < d.cells@.len()
    &&& crate::domain::piece::coords_in_range(d.cells@)
    &&& crate::domain::piece::spans_within(d.cells@, SIDE - 1)
}

/// The grid index `r * GRID_COLS + c` of each board cell `(r, c)`.
pub(crate) fn grid_indices(board_cells: &[Coord]) -> (grid: Vec<u16>)
    requires
        forall|k: int|
            0 <= k < board_cells@.len() ==> 0 <= (#[trigger] board_cells@[k]).0 && 0
                <= board_cells@[k].1,
    ensures
        grid@.len() == board_cells@.len(),
        forall|k: int|
            0 <= k < board_cells@.len() ==> #[trigger] grid@[k] as int == board_cells@[k].0 * GRID_COLS
                + board_cells@[k].1,
{
    let mut grid: Vec<u16> = Vec::new();
    let mut c: usize = 0;
    while c < board_cells.len()
        invariant
            c <= board_cells@.len(),
            forall|j: int|
                0 <= j < board_cells@.len() ==> 0 <= (#[trigger] board_cells@[j]).0 && 0
                    <= board_cells@[j].1,
            grid@.len() == c,
            forall|j: int|
                0 <= j < c ==> #[trigger] grid@[j] as int == board_cells@[j].0 * GRID_COLS
                    + board_cells@[j].1,
        decreases board_cells.len() - c,
    {
        let (r, col) = board_cells[c];
        grid.push((r as u16) * GRID_COLS + (col as u16));
        c = c + 1;
    }
    grid
}

impl Tracer {
    /// A tracer with no instance.
    pub fn new() -> (t: Self)
        ensures
            t.instance_buffer@.len() == 0,
            t.pending_candidates@.len() == 0,
            t.next_branch_id == 0,
            t.nodes_at_branch_entry == 0,
            t.cell_to_grid_idx@.len() == 0,
            t.type_idx_of_def@.len() == 0,
            t.canonical_bitmaps@.len() == 0,
    {
        Tracer {
            canonical_bitmaps: Vec::new(),
            cell_to_grid_idx: Vec::new(),
            type_idx_of_def: Vec::new(),
            instance_id: String::new(),
            next_branch_id: 0,
            nodes_at_branch_entry: 0,
            instance_buffer: Vec::new(),
            pending_candidates: Vec::new(),
        }
    }

    /// Sets the label of the instance.
    pub fn set_instance_id(&mut self, id: String)
        ensures
            final(self).instance_id@ == id@,
            final(self).instance_buffer@ == old(self).instance_buffer@,
            final(self).pending_candidates@ == old(self).pending_candidates@,
            final(self).next_branch_id == old(self).next_branch_id,
            final(self).nodes_at_branch_entry == old(self).nodes_at_branch_entry,
            final(self).cell_to_grid_idx@ == old(self).cell_to_grid_idx@,
            final(self).type_idx_of_def@ == old(self).type_idx_of_def@,
            final(self).canonical_bitmaps@ == old(self).canonical_bitmaps@,
    {
        self.instance_id = id;
    }

    /// Starts an instance: for each piece definition its solver type index
    /// (the position of its id among `type_ids`) and its canonical bitmap;
    /// the grid index of each board cell; and no records yet.
    pub fn start_instance(
        &mut self,
        type_ids: &[String],
        piece_defs: &[(String, PieceDefJson)],
        board_cells: &[Coord],
    )
        requires
            type_ids@.len() <= u16::MAX + 1,
            forall|k: int| 0 <= k < piece_defs@.len() ==> traceable_def((#[trigger] piece_defs@[k]).1),
            forall|k: int|
                0 <= k < board_cells@.len() ==> 0 <= (#[trigger] board_cells@[k]).0 && 0
                    <= board_cells@[k].1,
        ensures
            final(self).type_idx_of_def@.len() == piece_defs@.len(),
            forall|k: int|
                0 <= k < piece_defs@.len() ==> #[trigger] final(self).type_idx_of_def@[k]
                    == position_of_id(type_ids@, piece_defs@[k].0@, type_ids@.len() as int),
            final(self).canonical_bitmaps@.len() == piece_defs@.len(),
            forall|k: int|
                0 <= k < piece_defs@.len() ==> (#[trigger] final(self).canonical_bitmaps@[k])@
                    == canonical_bitmap_of(
                    piece_defs@[k].1.cells@,
                    piece_defs@[k].1.mark_index as int,
                    SIDE as int,
                ),
            final(self).cell_to_grid_idx@.len() == board_cells@.len(),
            forall|k: int|
                0 <= k < board_cells@.len() ==> #[trigger] final(self).cell_to_grid_idx@[k] as int
                    == board_cells@[k].0 * GRID_COLS + board_cells@[k].1,
            final(self).instance_buffer@.len() == 0,
            final(self).pending_candidates@.len() == 0,
            final(self).next_branch_id == 0,
            final(self).nodes_at_branch_entry == 0,
            final(self).instance_id@ == old(self).instance_id@,
    {
        let mut types: Vec<Option<u16>> = Vec::new();
        let mut bitmaps: Vec<Vec<u8>> = Vec::new();
        let mut k: usize = 0;
        while k < piece_defs.len()
            invariant
                k <= piece_defs@.len(),
                type_ids@.len() <= u16::MAX + 1,
                forall|j: int| 0 <= j < piece_defs@.len() ==> traceable_def((#[trigger] piece_defs@[j]).1),
                types@.len() == k,
                bitmaps@.len() == k,
                forall|j: int|
                    0 <= j < k ==> #[trigger] types@[j] == position_of_id(
                        type_ids@,
                        piece_defs@[j].0@,
                        type_ids@.len() as int,
                    ),
                forall|j: int|
                    0 <= j < k ==> (#[trigger] bitmaps@[j])@ == canonical_bitmap_of(
                        piece_defs@[j].1.cells@,
                        piece_defs@[j].1.mark_index as int,
                        SIDE as int,
                    ),
            decreases piece_defs.len() - k,
        {
            let (def_id, def_json) = &piece_defs[k];
            let mut pos: Option<u16> = None;
            let mut i: usize = 0;
            while i < type_ids.len()
                invariant
                    i <= type_ids@.len() <= u16::MAX + 1,
                    pos == position_of_id(type_ids@, def_id@, i as int),
                decreases type_ids.len() - i,
            {
                if pos.is_none() && str_eq(type_ids[i].as_str(), def_id.as_str()) {
                    pos = Some(i as u16);
                }
                i = i + 1;
            }
            types.push(pos);
            let def = PieceDef {
                id: def_json.id.clone(),
                cells: crate::domain::piece::copy_coords(&def_json.cells),
                mark_index: def_json.mark_index,
            };
            bitmaps.push(canonical_bitmap(&def));
            k = k + 1;
        }
        let grid = grid_indices(board_cells);
        self.type_idx_of_def = types;
        self.canonical_bitmaps = bitmaps;
        self.cell_to_grid_idx = grid;
        self.instance_buffer = Vec::new();
        self.next_branch_id = 0;
        self.nodes_at_branch_entry = 0;
        self.pending_candidates = Vec::new();
    }

    /// The state after applying `pl` to `state`, without changing it.
    pub fn compute_post_state(&self, state: &SearchState, pl: &Placement) -> (p: PostState)
        requires
            tables_fit(*self, *state),
        ensures
            post_state_ok(*self, *state, *pl, p),
    {
        let n = self.cell_to_grid_idx.len();
        let mut empty: Vec<u16> = Vec::new();
        let mut ci: usize = 0;
        while ci < n
            invariant
                ci <= n == self.cell_to_grid_idx@.len() <= CAPACITY,
                empty@ == empty_indices(self.cell_to_grid_idx@, state.covered@, pl.bits@, ci as int),
            decreases n - ci,
        {
            if !state.covered.test(ci) && !pl.bits.test(ci) {
                empty.push(self.cell_to_grid_idx[ci]);
            }
            ci = ci + 1;
        }
        let center_mark = state.has_center_mark || pl.mark_on_center;
        let mut counts: Vec<u32> = Vec::new();
        let mut k: usize = 0;
        while k < self.type_idx_of_def.len()
            invariant
                k <= self.type_idx_of_def@.len(),
                tables_fit(*self, *state),
                counts@.len() == k,
                forall|j: int|
                    0 <= j < k ==> #[trigger] counts@[j] == count_after(
                        self.type_idx_of_def@,
                        state.remaining@,
                        pl.type_idx,
                        j,
                    ),
            decreases self.type_idx_of_def.len() - k,
        {
            let count: u32 = match self.type_idx_of_def[k] {
                Some(ti) => {
                    let base = state.remaining[ti as usize] as u32;
                    if pl.type_idx == ti {
                        base.saturating_sub(1)
                    } else {
                        base
                    }
                },
                None => 0,
            };
            counts.push(count);
            k = k + 1;
        }
        PostState { empty_target_indices: empty, center_mark, counts }
    }

    /// Moves the pending candidates, if any, into a finalized record with
    /// the next branch id.
    fn finalize_pending(&mut self)
        requires
            old(self).next_branch_id < u32::MAX,
        ensures
            final(self).pending_candidates@.len() == 0,
            old(self).pending_candidates@.len() == 0 ==> final(self).instance_buffer@ == old(self).instance_buffer@ && final(self).next_branch_id == old(self).next_branch_id,
            old(self).pending_candidates@.len() > 0 ==> {
                &&& final(self).instance_buffer@.len() == old(self).instance_buffer@.len() + 1
                &&& forall|j: int|
                    0 <= j < old(self).instance_buffer@.len() ==> #[trigger] final(self).instance_buffer@[j] == old(self).instance_buffer@[j]
                &&& final(self).instance_buffer@.last().branch_id == old(self).next_branch_id
                &&& final(self).instance_buffer@.last().candidates@ == old(self).pending_candidates@
                &&& final(self).next_branch_id == old(self).next_branch_id + 1
            },
            final(self).nodes_at_branch_entry == old(self).nodes_at_branch_entry,
            final(self).cell_to_grid_idx@ == old(self).cell_to_grid_idx@,
            final(self).type_idx_of_def@ == old(self).type_idx_of_def@,
            final(self).canonical_bitmaps@ == old(self).canonical_bitmaps@,
            final(self).instance_id@ == old(self).instance_id@,
    {
        if self.pending_candidates.len() == 0 {
            return;
        }
        let branch_id = self.next_branch_id;
        self.next_branch_id = self.next_branch_id + 1;
        let mut candidates: Vec<CandidateRecord> = Vec::new();
        core::mem::swap(&mut candidates, &mut self.pending_candidates);
        self.instance_buffer.push(BranchRecord { branch_id, candidates });
    }

    /// Records a branch point: finalizes the previous one, then keeps each
    /// candidate with its post-state, not yet tried.
    pub fn on_branch(&mut self, event: BranchEvent<'_>, current_total_nodes: u64)
        requires
            old(self).next_branch_id < u32::MAX,
            tables_fit(*old(self), *event.state),
            forall|k: int|
                0 <= k < event.candidates@.len() ==> (#[trigger] event.candidates@[k] as int)
                    < event.placements@.len(),
        ensures
            final(self).nodes_at_branch_entry == current_total_nodes,
            old(self).pending_candidates@.len() == 0 ==> final(self).instance_buffer@ == old(self).instance_buffer@ && final(self).next_branch_id == old(self).next_branch_id,
            old(self).pending_candidates@.len() > 0 ==> {
                &&& final(self).instance_buffer@.len() == old(self).instance_buffer@.len() + 1
                &&& final(self).instance_buffer@.last().branch_id == old(self).next_branch_id
                &&& final(self).instance_buffer@.last().candidates@ == old(self).pending_candidates@
                &&& final(self).next_branch_id == old(self).next_branch_id + 1
            },
            final(self).pending_candidates@.len() == event.candidates@.len(),
            forall|k: int|
                0 <= k < event.candidates@.len() ==> {
                    let c = #[trigger] final(self).pending_candidates@[k];
                    &&& c.placement_idx == event.candidates@[k]
                    &&& post_state_ok(
                        *old(self),
                        *event.state,
                        event.placements@[event.candidates@[k] as int],
                        c.post_state,
                    )
                    &&& !c.tried
                    &&& !c.succeeded
                    &&& c.subtree_nodes == 0
                },
            final(self).cell_to_grid_idx@ == old(self).cell_to_grid_idx@,
            final(self).type_idx_of_def@ == old(self).type_idx_of_def@,
            final(self).canonical_bitmaps@ == old(self).canonical_bitmaps@,
            final(self).instance_id@ == old(self).instance_id@,
    {
        self.finalize_pending();
        self.nodes_at_branch_entry = current_total_nodes;
        let ghost buf1 = self.instance_buffer@;
        let ghost nb1 = self.next_branch_id;
        let mut k: usize = 0;
        while k < event.candidates.len()
            invariant
                k <= event.candidates@.len(),
                self.nodes_at_branch_entry == current_total_nodes,
                self.instance_buffer@ == buf1,
                self.next_branch_id == nb1,
                self.canonical_bitmaps@ == old(self).canonical_bitmaps@,
                self.instance_id@ == old(self).instance_id@,
                tables_fit(*self, *event.state),
                self.cell_to_grid_idx@ == old(self).cell_to_grid_idx@,
                self.type_idx_of_def@ == old(self).type_idx_of_def@,
                forall|j: int|
                    0 <= j < event.candidates@.len() ==> (#[trigger] event.candidates@[j] as int)
                        < event.placements@.len(),
                self.pending_candidates@.len() == k,
                forall|j: int|
                    0 <= j < k ==> {
                        let c = #[trigger] self.pending_candidates@[j];
                        &&& c.placement_idx == event.candidates@[j]
                        &&& post_state_ok(
                            *old(self),
                            *event.state,
                            event.placements@[event.candidates@[j] as int],
                            c.post_state,
                        )
                        &&& !c.tried
                        &&& !c.succeeded
                        &&& c.subtree_nodes == 0
                    },
            decreases event.candidates.len() - k,
        {
            let idx = event.candidates[k];
            let pl = &event.placements[idx as usize];
            let post_state = self.compute_post_state(event.state, pl);
            self.pending_candidates.push(
                CandidateRecord { placement_idx: idx, post_state, tried: false, succeeded: false, subtree_nodes: 0 },
            );
            k = k + 1;
        }
    }

    /// Records the outcome of one attempt: the first pending candidate of
    /// `placement_idx` is marked tried, with its outcome and the nodes
    /// searched since the last branch point or attempt.
    pub fn on_attempt(&mut self, placement_idx: u32, succeeded: bool, current_total_nodes: u64)
        requires
            current_total_nodes >= old(self).nodes_at_branch_entry,
        ensures
            final(self).nodes_at_branch_entry == current_total_nodes,
            final(self).pending_candidates@.len() == old(self).pending_candidates@.len(),
            forall|k: int|
                0 <= k < old(self).pending_candidates@.len() ==> {
                    let before = old(self).pending_candidates@[k];
                    let after = #[trigger] final(self).pending_candidates@[k];
                    &&& after.placement_idx == before.placement_idx
                    &&& after.post_state == before.post_state
                    &&& if before.placement_idx == placement_idx && forall|j: int|
                        0 <= j < k ==> old(self).pending_candidates@[j].placement_idx != placement_idx {
                        &&& after.tried
                        &&& after.succeeded == succeeded
                        &&& after.subtree_nodes == current_total_nodes - old(self).nodes_at_branch_entry
                    } else {
                        &&& after.tried == before.tried
                        &&& after.succeeded == before.succeeded
                        &&& after.subtree_nodes == before.subtree_nodes
                    }
                },
            final(self).instance_buffer@ == old(self).instance_buffer@,
            final(self).next_branch_id == old(self).next_branch_id,
            final(self).cell_to_grid_idx@ == old(self).cell_to_grid_idx@,
            final(self).type_idx_of_def@ == old(self).type_idx_of_def@,
            final(self).canonical_bitmaps@ == old(self).canonical_bitmaps@,
            final(self).instance_id@ == old(self).instance_id@,
    {
        let subtree = current_total_nodes - self.nodes_at_branch_entry;
        let mut k: usize = 0;
        while k < self.pending_candidates.len()
            invariant
                k <= self.pending_candidates@.len(),
                self.pending_candidates@ == old(self).pending_candidates@,
                forall|j: int| 0 <= j < k ==> old(self).pending_candidates@[j].placement_idx != placement_idx,
            ensures
                k <= self.pending_candidates@.len(),
                self.pending_candidates@ == old(self).pending_candidates@,
                forall|j: int| 0 <= j < k ==> old(self).pending_candidates@[j].placement_idx != placement_idx,
                k < self.pending_candidates@.len() ==> self.pending_candidates@[k as int].placement_idx == placement_idx,
            decreases self.pending_candidates.len() - k,
        {
            if self.pending_candidates[k].placement_idx == placement_idx {
                break;
            }
            k = k + 1;
        }
        if k < self.pending_candidates.len() {
            let mut rec = CandidateRecord {
                placement_idx: 0,
                post_state: PostState { empty_target_indices: Vec::new(), center_mark: false, counts: Vec::new() },
                tried: false,
                succeeded: false,
                subtree_nodes: 0,
            };
            self.pending_candidates.set_and_swap(k, &mut rec);
            rec.tried = true;
            rec.succeeded = succeeded;
            rec.subtree_nodes = subtree;
            self.pending_candidates.set_and_swap(k, &mut rec);
        }
        self.nodes_at_branch_entry = current_total_nodes;
    }

    /// Ends the instance. After a success the pending candidates are
    /// finalized and all records are handed out for writing (`None` when
    /// there are none, as for an instance solved without branching); after
    /// a failure they are dropped. Either way no record is left.
    pub fn on_solve_complete(&mut self, success: bool) -> (out: Option<Vec<BranchRecord>>)
        requires
            old(self).next_branch_id < u32::MAX,
        ensures
            final(self).instance_buffer@.len() == 0,
            final(self).pending_candidates@.len() == 0,
            !success ==> out is None,
            success ==> {
                let total = old(self).instance_buffer@.len() + if old(self).pending_candidates@.len() > 0 {
                    1int
                } else {
                    0int
                };
                &&& (out is None <==> total == 0)
                &&& out matches Some(rs) ==> {
                    &&& rs@.len() == total
                    &&& forall|j: int|
                        0 <= j < old(self).instance_buffer@.len() ==> #[trigger] rs@[j]
                            == old(self).instance_buffer@[j]
                    &&& old(self).pending_candidates@.len() > 0 ==> rs@.last().branch_id == old(self).next_branch_id && rs@.last().candidates@ == old(self).pending_candidates@
                }
            },
            final(self).cell_to_grid_idx@ == old(self).cell_to_grid_idx@,
            final(self).type_idx_of_def@ == old(self).type_idx_of_def@,
            final(self).canonical_bitmaps@ == old(self).canonical_bitmaps@,
            final(self).instance_id@ == old(self).instance_id@,
    {
        if !success {
            self.instance_buffer = Vec::new();
            self.pending_candidates = Vec::new();
            return None;
        }
        self.finalize_pending();
        if self.instance_buffer.len() == 0 {
            return None;
        }
        let mut out: Vec<BranchRecord> = Vec::new();
        core::mem::swap(&mut out, &mut self.instance_buffer);
        Some(out)
    }
}

} // verus!
