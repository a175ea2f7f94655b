//! Streaming branch traces: one pending branch per active recursion level,
//! each recorded with the search state before any of its candidates is
//! tried, and handed out for writing as soon as the branch is done. The
//! writer's outcome comes back through [`Tracer::header_write_failed`]
//! and [`Tracer::record_write_failed`]; after a failed write nothing more
//! is handed out until the instance ends successfully or a new one starts.

use vstd::prelude::*;

use crate::base::bitset::CAPACITY;
use crate::domain::piece::{Coord, PieceDef};
use crate::domain::placement::Placement;
use crate::io::common::PieceDefJson;
use crate::ml::canonical::{BITMAP_SIZE, SIDE, canonical_bitmap, canonical_bitmap_of};
use crate::ml::tracer::{GRID_COLS, grid_indices, position_of_id, traceable_def};
use crate::solver::state::SearchState;
use crate::text::str_eq;

verus! {

/// Bytes of the empty-cell bitmap of a pre-state: one bit per board cell.
pub const EMPTY_BITMAP_BYTES: usize = 28;

/// The search state at a branch point, before any candidate is applied.
#[derive(Debug)]
pub struct PreState {
    /// Bit `i % 8` of byte `i / 8` is set when board cell `i` is empty.
    pub empty_bitmap: Vec<u8>,
    /// Whether some applied placement marks the center.
    pub center_mark: bool,
    /// Pieces left per piece definition, in input order, as a byte; 0 for a
    /// definition no piece uses.
    pub counts: Vec<u8>,
}

/// One candidate of a branch point.
#[derive(Debug)]
pub struct CandidateRecord {
    pub placement_idx: u32,
    pub tried: bool,
    pub succeeded: bool,
    pub subtree_nodes: u64,
}

/// A branch point whose attempts are still being recorded.
#[derive(Debug)]
pub struct PendingBranch {
    pub candidates: Vec<CandidateRecord>,
    pub pre_state: PreState,
    /// Node count when the branch point or its last attempt was recorded.
    pub nodes_at_entry: u64,
}

/// A finished branch point, numbered in the order branches finish.
#[derive(Debug)]
pub struct BranchRecord {
    pub branch_id: u32,
    pub pre_state: PreState,
    pub candidates: Vec<CandidateRecord>,
}

/// One placement of the instance as the trace header lists it.
#[derive(Debug)]
pub struct PlacementRecord {
    /// Board cell indices covered.
    pub cells: Vec<u16>,
    /// Input position of the piece definition the placement's type maps to.
    pub piece_def_idx: u16,
    pub mark_on_center: bool,
}

/// A branch record to write, after the instance header when
/// `header_first` is set.
#[derive(Debug)]
pub struct Emission {
    pub header_first: bool,
    pub record: BranchRecord,
}

/// What a branch point hands to the tracer: the candidate placement
/// indices in attempt order and the state before any is applied.
pub struct BranchEvent<'a> {
    pub candidates: &'a [u32],
    pub state: &'a SearchState,
}

/// Streaming branch-trace collector for one instance at a time.
pub struct Tracer {
    /// Canonical 6x6 bitmaps of the piece definitions, in input order,
    /// one after another.
    pub canonical_bitmaps: Vec<u8>,
    /// Grid index of each board cell.
    pub cell_to_grid_idx: Vec<u16>,
    /// For each piece definition, in input order, the solver's type index
    /// of that id, if some piece uses it.
    pub type_idx_of_def: Vec<Option<u16>>,
    /// Label of the current instance.
    pub instance_id: String,
    /// Number of branch records handed out in this instance.
    pub next_branch_id: u32,
    /// Whether the instance header has been handed out with a record.
    pub header_emitted: bool,
    /// Whether a write failed since the instance started or last succeeded.
    pub write_failed: bool,
    /// The pending branches, innermost last.
    pub pending_stack: Vec<PendingBranch>,
    /// The placements of the instance.
    pub placements: Vec<PlacementRecord>,
}

/// The weight of bit `j` of a byte.
pub open spec fn bit_weight(j: int) -> int {
    if j == 0 {
        1
    } else if j == 1 {
        2
    } else if j == 2 {
        4
    } else if j == 3 {
        8
    } else if j == 4 {
        16
    } else if j == 5 {
        32
    } else if j == 6 {
        64
    } else {
        128
    }
}

/// Bit `j` of a byte weighs `2^j`: the empty-cell bitmap packs its bits
/// least significant first.
pub proof fn lemma_bit_weight_power(j: int)
    requires
        0 <= j < 8,
    ensures
        bit_weight(j) == vstd::arithmetic::power2::pow2(j as nat),
{
    vstd::arithmetic::power2::lemma2_to64();
}

/// Board cell `i` is empty: one of the first `n` cells, and not covered.
pub open spec fn cell_empty(covered: Set<int>, n: int, i: int) -> bool {
    0 <= i < n && !covered.contains(i)
}

/// Byte `b` of the empty-cell bitmap, over its low `j` bits.
pub open spec fn empty_byte(covered: Set<int>, n: int, b: int, j: int) -> int
    decreases j,
{
    if j <= 0 {
        0
    } else {
        empty_byte(covered, n, b, j - 1) + if cell_empty(covered, n, 8 * b + j - 1) {
            bit_weight(j - 1)
        } else {
            0
        }
    }
}

/// Pieces left of definition `k`, as a byte.
pub open spec fn count_now(types: Seq<Option<u16>>, remaining: Seq<u16>, k: int) -> int {
    match types[k] {
        Some(ti) => (remaining[ti as int] % 256) as int,
        None => 0,
    }
}

/// The pre-state the tracer computes from `state`.
pub open spec fn pre_state_ok(t: Tracer, state: SearchState, p: PreState) -> bool {
    &&& p.empty_bitmap@.len() == EMPTY_BITMAP_BYTES
    &&& forall|b: int|
        0 <= b < EMPTY_BITMAP_BYTES ==> #[trigger] p.empty_bitmap@[b] == empty_byte(
            state.covered@,
            t.cell_to_grid_idx@.len() as int,
            b,
            8,
        )
    &&& p.center_mark == state.has_center_mark
    &&& p.counts@.len() == t.type_idx_of_def@.len()
    &&& forall|k: int|
        0 <= k < p.counts@.len() ==> #[trigger] p.counts@[k] == count_now(
            t.type_idx_of_def@,
            state.remaining@,
            k,
        )
}

/// The tables fit the state: at most as many board cells as the bitmap
/// holds, and every type index names a remaining count.
pub open spec fn tables_fit(t: Tracer, state: SearchState) -> bool {
    &&& t.cell_to_grid_idx@.len() <= CAPACITY
    &&& forall|k: int|
        0 <= k < t.type_idx_of_def@.len() ==> (#[trigger] t.type_idx_of_def@[k] matches Some(ti)
            ==> (ti as int) < state.remaining@.len())
}

proof fn lemma_empty_byte_bound(covered: Set<int>, n: int, b: int, j: int)
    requires
        0 <= j <= 8,
    ensures
        0 <= empty_byte(covered, n, b, j) < if j < 8 {
            bit_weight(j)
        } else {
            256
        },
    decreases j,
{
    if j > 0 {
        lemma_empty_byte_bound(covered, n, b, j - 1);
    }
}

/// Bits at or past the last board cell add nothing.
proof fn lemma_empty_byte_tail(covered: Set<int>, n: int, b: int, j0: int, j: int)
    requires
        0 <= j0 <= j,
        8 * b + j0 >= n,
    ensures
        empty_byte(covered, n, b, j) == empty_byte(covered, n, b, j0),
    decreases j - j0,
{
    if j > j0 {
        lemma_empty_byte_tail(covered, n, b, j0, j - 1);
    }
}

fn weight_of(j: usize) -> (w: u8)
    requires
        j < 8,
    ensures
        w as int == bit_weight(j as int),
{
    if j == 0 {
        1
    } else if j == 1 {
        2
    } else if j == 2 {
        4
    } else if j == 3 {
        8
    } else if j == 4 {
        16
    } else if j == 5 {
        32
    } else if j == 6 {
        64
    } else {
        128
    }
}

/// Setting a bit above all set bits adds its weight.
proof fn lemma_or_weight(x: u8, w: u8, j: int)
    requires
        0 <= j < 8,
        w as int == bit_weight(j),
        (x as int) < bit_weight(j),
    ensures
        (x | w) as int == x + w,
{
    if j == 0 {
        assert(x < 1 ==> x | 1u8 == x + 1u8) by (bit_vector);
    } else if j == 1 {
        assert(x < 2 ==> x | 2u8 == x + 2u8) by (bit_vector);
    } else if j == 2 {
        assert(x < 4 ==> x | 4u8 == x + 4u8) by (bit_vector);
    } else if j == 3 {
        assert(x < 8 ==> x | 8u8 == x + 8u8) by (bit_vector);
    } else if j == 4 {
        assert(x < 16 ==> x | 16u8 == x + 16u8) by (bit_vector);
    } else if j == 5 {
        assert(x < 32 ==> x | 32u8 == x + 32u8) by (bit_vector);
    } else if j == 6 {
        assert(x < 64 ==> x | 64u8 == x + 64u8) by (bit_vector);
    } else {
        assert(x < 128 ==> x | 128u8 == x + 128u8) by (bit_vector);
    }
}

/// The canonical bitmaps of the first `n` piece definitions, one after
/// another.
pub open spec fn flat_bitmaps(defs: Seq<(String, PieceDefJson)>, n: int) -> Seq<u8>
    decreases n,
{
    if n <= 0 {
        Seq::empty()
    } else {
        flat_bitmaps(defs, n - 1) + canonical_bitmap_of(
            defs[n - 1].1.cells@,
            defs[n - 1].1.mark_index as int,
            SIDE as int,
        )
    }
}

/// The last of the first `n` piece definitions whose type index is `ti`.
pub open spec fn last_def_of(types: Seq<Option<u16>>, ti: u16, n: int) -> Option<u16>
    decreases n,
{
    if n <= 0 {
        None
    } else if types[n - 1] == Some(ti) {
        Some((n - 1) as u16)
    } else {
        last_def_of(types, ti, n - 1)
    }
}

/// The type indices of the piece definitions: the position of each id
/// among `type_ids`.
pub open spec fn def_types(type_ids: Seq<String>, defs: Seq<(String, PieceDefJson)>) -> Seq<Option<u16>> {
    Seq::new(defs.len(), |k: int| position_of_id(type_ids, defs[k].0@, type_ids.len() as int))
}

proof fn lemma_position_bound(ids: Seq<String>, id: Seq<char>, n: int)
    requires
        0 <= n <= ids.len() <= u16::MAX + 1,
    ensures
        position_of_id(ids, id, n) matches Some(p) ==> (p as int) < n,
    decreases n,
{
    if n > 0 {
        lemma_position_bound(ids, id, n - 1);
    }
}

proof fn lemma_last_def_bound(types: Seq<Option<u16>>, ti: u16, n: int)
    requires
        0 <= n <= types.len() <= u16::MAX + 1,
    ensures
        last_def_of(types, ti, n) matches Some(k) ==> (k as int) < n && types[k as int] == Some(ti),
    decreases n,
{
    if n > 0 {
        lemma_last_def_bound(types, ti, n - 1);
    }
}

/// The per-instance tables of `a` and `b` agree.
pub open spec fn same_tables(a: Tracer, b: Tracer) -> bool {
    &&& a.canonical_bitmaps@ == b.canonical_bitmaps@
    &&& a.cell_to_grid_idx@ == b.cell_to_grid_idx@
    &&& a.type_idx_of_def@ == b.type_idx_of_def@
    &&& a.instance_id@ == b.instance_id@
    &&& a.placements@ == b.placements@
}

/// `recs` holds one untried record per candidate, in order.
pub open spec fn fresh_candidates(cands: Seq<u32>, recs: Seq<CandidateRecord>) -> bool {
    &&& recs.len() == cands.len()
    &&& forall|k: int|
        0 <= k < recs.len() ==> {
            let c = #[trigger] recs[k];
            &&& c.placement_idx == cands[k]
            &&& !c.tried
            &&& !c.succeeded
            &&& c.subtree_nodes == 0
        }
}

/// `after` is `before` with the attempt recorded on the first candidate of
/// `placement_idx`, if there is one: tried, with its outcome and `subtree`
/// nodes.
pub open spec fn attempt_recorded(
    before: Seq<CandidateRecord>,
    after: Seq<CandidateRecord>,
    placement_idx: u32,
    succeeded: bool,
    subtree: int,
) -> bool {
    &&& after.len() == before.len()
    &&& forall|k: int|
        0 <= k < before.len() ==> {
            let b = before[k];
            let a = #[trigger] after[k];
            &&& a.placement_idx == b.placement_idx
            &&& if b.placement_idx == placement_idx && forall|j: int|
                0 <= j < k ==> before[j].placement_idx != placement_idx {
                &&& a.tried
                &&& a.succeeded == succeeded
                &&& a.subtree_nodes == subtree
            } else {
                &&& a.tried == b.tried
                &&& a.succeeded == b.succeeded
                &&& a.subtree_nodes == b.subtree_nodes
            }
        }
}

/// `e` hands out `branch` as record `id`, after the header when
/// `header_first` is set.
pub open spec fn emits(e: Emission, branch: PendingBranch, header_first: bool, id: int) -> bool {
    &&& e.header_first == header_first
    &&& e.record.branch_id == id
    &&& e.record.pre_state == branch.pre_state
    &&& e.record.candidates == branch.candidates
}

impl Tracer {
    /// A tracer with no instance.
    pub fn new() -> (t: Self)
        ensures
            t.canonical_bitmaps@.len() == 0,
            t.cell_to_grid_idx@.len() == 0,
            t.type_idx_of_def@.len() == 0,
            t.instance_id@.len() == 0,
            t.next_branch_id == 0,
            !t.header_emitted,
            !t.write_failed,
            t.pending_stack@.len() == 0,
            t.placements@.len() == 0,
    {
        Tracer {
            canonical_bitmaps: Vec::new(),
            cell_to_grid_idx: Vec::new(),
            type_idx_of_def: Vec::new(),
            instance_id: String::new(),
            next_branch_id: 0,
            header_emitted: false,
            write_failed: false,
            pending_stack: Vec::new(),
            placements: Vec::new(),
        }
    }

    /// Sets the label of the instance.
    pub fn set_instance_id(&mut self, id: String)
        ensures
            final(self).instance_id@ == id@,
            final(self).canonical_bitmaps@ == old(self).canonical_bitmaps@,
            final(self).cell_to_grid_idx@ == old(self).cell_to_grid_idx@,
            final(self).type_idx_of_def@ == old(self).type_idx_of_def@,
            final(self).next_branch_id == old(self).next_branch_id,
            final(self).header_emitted == old(self).header_emitted,
            final(self).write_failed == old(self).write_failed,
            final(self).pending_stack@ == old(self).pending_stack@,
            final(self).placements@ == old(self).placements@,
    {
        self.instance_id = id;
    }

    /// The search state before any candidate of a branch is applied: which
    /// board cells are empty, as a bitmap; whether the center is marked;
    /// and the pieces left per piece definition.
    pub fn compute_pre_state(&self, state: &SearchState) -> (p: PreState)
        requires
            tables_fit(*self, *state),
        ensures
            pre_state_ok(*self, *state, p),
    {
        let n = self.cell_to_grid_idx.len();
        let ghost cov = state.covered@;
        let mut bm: Vec<u8> = vec![0u8; EMPTY_BITMAP_BYTES];
        let mut ci: usize = 0;
        while ci < n
            invariant
                ci <= n == self.cell_to_grid_idx@.len() <= CAPACITY,
                cov == state.covered@,
                bm@.len() == EMPTY_BITMAP_BYTES,
                forall|b: int| 0 <= b < ci / 8 ==> #[trigger] bm@[b] == empty_byte(cov, n as int, b, 8),
                ci / 8 < EMPTY_BITMAP_BYTES ==> bm@[(ci / 8) as int] == empty_byte(
                    cov,
                    n as int,
                    (ci / 8) as int,
                    (ci % 8) as int,
                ),
                forall|b: int| ci / 8 < b < EMPTY_BITMAP_BYTES ==> #[trigger] bm@[b] == 0,
            decreases n - ci,
        {
            let byte = ci / 8;
            let bit = ci % 8;
            proof {
                lemma_empty_byte_bound(cov, n as int, byte as int, bit as int);
            }
            if !state.covered.test(ci) {
                let w = weight_of(bit);
                let x = bm[byte];
                proof {
                    lemma_or_weight(x, w, bit as int);
                }
                bm.set(byte, x | w);
            }
            assert(bm@[byte as int] == empty_byte(cov, n as int, byte as int, bit + 1));
            ci = ci + 1;
            proof {
                if ci % 8 == 0 {
                    assert(ci / 8 == byte + 1);
                } else {
                    assert(ci / 8 == byte);
                }
            }
        }
        proof {
            assert forall|b: int| 0 <= b < EMPTY_BITMAP_BYTES implies #[trigger] bm@[b] == empty_byte(
                cov,
                n as int,
                b,
                8,
            ) by {
                if b == n / 8 {
                    lemma_empty_byte_tail(cov, n as int, b, (n % 8) as int, 8);
                } else if b > n / 8 {
                    lemma_empty_byte_tail(cov, n as int, b, 0, 8);
                }
            }
        }
        let mut counts: Vec<u8> = Vec::new();
        let mut k: usize = 0;
        while k < self.type_idx_of_def.len()
            invariant
                k <= self.type_idx_of_def@.len(),
                tables_fit(*self, *state),
                counts@.len() == k,
                forall|j: int|
                    0 <= j < k ==> #[trigger] counts@[j] == count_now(self.type_idx_of_def@, state.remaining@, j),
            decreases self.type_idx_of_def.len() - k,
        {
            let count: u8 = match self.type_idx_of_def[k] {
                Some(ti) => (state.remaining[ti as usize] % 256) as u8,
                None => 0,
            };
            counts.push(count);
            k = k + 1;
        }
        PreState { empty_bitmap: bm, center_mark: state.has_center_mark, counts }
    }
    /// Starts an instance: for each piece definition its solver type index
    /// (the position of its id among `type_ids`) and its canonical bitmap;
    /// the grid index of each board cell; for each placement its cells,
    /// the last piece definition of its type and whether its mark is on
    /// the center; and no pending branches or records yet.
    pub fn start_instance(
        &mut self,
        type_ids: &[String],
        piece_defs: &[(String, PieceDefJson)],
        board_cells: &[Coord],
        placements: &[Placement],
    )
        requires
            type_ids@.len() <= u16::MAX + 1,
            piece_defs@.len() <= u16::MAX + 1,
            forall|k: int| 0 <= k < piece_defs@.len() ==> traceable_def((#[trigger] piece_defs@[k]).1),
            forall|k: int|
                0 <= k < board_cells@.len() ==> 0 <= (#[trigger] board_cells@[k]).0 && 0
                    <= board_cells@[k].1,
            forall|p: int|
                0 <= p < placements@.len() ==> last_def_of(
                    def_types(type_ids@, piece_defs@),
                    (#[trigger] placements@[p]).type_idx,
                    piece_defs@.len() as int,
                ) is Some,
        ensures
            final(self).type_idx_of_def@ == def_types(type_ids@, piece_defs@),
            final(self).canonical_bitmaps@ == flat_bitmaps(piece_defs@, piece_defs@.len() as int),
            final(self).cell_to_grid_idx@.len() == board_cells@.len(),
            forall|k: int|
                0 <= k < board_cells@.len() ==> #[trigger] final(self).cell_to_grid_idx@[k] as int
                    == board_cells@[k].0 * GRID_COLS + board_cells@[k].1,
            final(self).placements@.len() == placements@.len(),
            forall|p: int|
                0 <= p < placements@.len() ==> {
                    let r = #[trigger] final(self).placements@[p];
                    &&& r.cells@ == placements@[p].cell_indices@
                    &&& Some(r.piece_def_idx) == last_def_of(
                        def_types(type_ids@, piece_defs@),
                        placements@[p].type_idx,
                        piece_defs@.len() as int,
                    )
                    &&& r.mark_on_center == placements@[p].mark_on_center
                },
            final(self).next_branch_id == 0,
            !final(self).header_emitted,
            !final(self).write_failed,
            final(self).pending_stack@.len() == 0,
            final(self).instance_id@ == old(self).instance_id@,
    {
        let ghost types_spec = def_types(type_ids@, piece_defs@);
        let mut types: Vec<Option<u16>> = Vec::new();
        let mut bitmaps: Vec<u8> = Vec::new();
        let mut k: usize = 0;
        while k < piece_defs.len()
            invariant
                k <= piece_defs@.len(),
                type_ids@.len() <= u16::MAX + 1,
                types_spec == def_types(type_ids@, piece_defs@),
                forall|j: int| 0 <= j < piece_defs@.len() ==> traceable_def((#[trigger] piece_defs@[j]).1),
                types@ == types_spec.subrange(0, k as int),
                bitmaps@ == flat_bitmaps(piece_defs@, k as int),
            decreases piece_defs.len() - k,
        {
            let (def_id, def_json) = &piece_defs[k];
            let mut pos: Option<u16> = None;
            let mut i: usize = 0;
            while i < type_ids.len()
                invariant
                    i <= type_ids@.len() <= u16::MAX + 1,
                    pos == position_of_id(type_ids@, def_id@, i as int),
                decreases type_ids.len() - i,
            {
                if pos.is_none() && str_eq(type_ids[i].as_str(), def_id.as_str()) {
                    pos = Some(i as u16);
                }
                i = i + 1;
            }
            types.push(pos);
            let def = PieceDef {
                id: def_json.id.clone(),
                cells: crate::domain::piece::copy_coords(&def_json.cells),
                mark_index: def_json.mark_index,
            };
            let bm = canonical_bitmap(&def);
            let mut b: usize = 0;
            let ghost before = bitmaps@;
            while b < bm.len()
                invariant
                    b <= bm@.len(),
                    bitmaps@ == before + bm@.subrange(0, b as int),
                decreases bm.len() - b,
            {
                bitmaps.push(bm[b]);
                b = b + 1;
                assert(bitmaps@ =~= before + bm@.subrange(0, b as int));
            }
            assert(bm@.subrange(0, bm@.len() as int) =~= bm@);
            k = k + 1;
            assert(types@ =~= types_spec.subrange(0, k as int));
        }
        assert(types_spec.subrange(0, piece_defs@.len() as int) =~= types_spec);
        proof {
            assert forall|j: int| 0 <= j < types@.len() implies (#[trigger] types@[j] matches Some(p) ==> (p as int)
                < type_ids@.len()) by {
                lemma_position_bound(type_ids@, piece_defs@[j].0@, type_ids@.len() as int);
            }
        }
        let mut table: Vec<Option<u16>> = Vec::new();
        let mut t: usize = 0;
        while t < type_ids.len()
            invariant
                t <= type_ids@.len(),
                table@.len() == t,
                forall|j: int| 0 <= j < t ==> #[trigger] table@[j] is None,
            decreases type_ids.len() - t,
        {
            table.push(None);
            t = t + 1;
        }
        let mut d: usize = 0;
        while d < types.len()
            invariant
                d <= types@.len() == piece_defs@.len() <= u16::MAX + 1,
                types@ == types_spec,
                type_ids@.len() <= u16::MAX + 1,
                table@.len() == type_ids@.len(),
                forall|j: int| 0 <= j < types@.len() ==> (#[trigger] types@[j] matches Some(p) ==> (p as int) < type_ids@.len()),
                forall|j: int| 0 <= j < table@.len() ==> #[trigger] table@[j] == last_def_of(types@, j as u16, d as int),
            decreases types.len() - d,
        {
            if let Some(ti) = types[d] {
                table.set(ti as usize, Some(d as u16));
            }
            d = d + 1;
        }
        let mut records: Vec<PlacementRecord> = Vec::new();
        let mut p: usize = 0;
        while p < placements.len()
            invariant
                p <= placements@.len(),
                types@ == types_spec,
                types@.len() == piece_defs@.len() <= u16::MAX + 1,
                table@.len() == type_ids@.len() <= u16::MAX + 1,
                forall|j: int| 0 <= j < types@.len() ==> (#[trigger] types@[j] matches Some(p) ==> (p as int) < type_ids@.len()),
                forall|j: int| 0 <= j < table@.len() ==> #[trigger] table@[j] == last_def_of(types@, j as u16, types@.len() as int),
                forall|q: int|
                    0 <= q < placements@.len() ==> last_def_of(types_spec, (#[trigger] placements@[q]).type_idx, piece_defs@.len() as int) is Some,
                records@.len() == p,
                forall|q: int|
                    0 <= q < p ==> {
                        let r = #[trigger] records@[q];
                        &&& r.cells@ == placements@[q].cell_indices@
                        &&& Some(r.piece_def_idx) == last_def_of(types_spec, placements@[q].type_idx, piece_defs@.len() as int)
                        &&& r.mark_on_center == placements@[q].mark_on_center
                    },
            decreases placements.len() - p,
        {
            let pl = &placements[p];
            proof {
                lemma_last_def_bound(types@, pl.type_idx, types@.len() as int);
            }
            let def_idx = table[pl.type_idx as usize].unwrap();
            records.push(
                PlacementRecord {
                    cells: pl.cell_indices.clone(),
                    piece_def_idx: def_idx,
                    mark_on_center: pl.mark_on_center,
                },
            );
            p = p + 1;
        }
        self.type_idx_of_def = types;
        self.canonical_bitmaps = bitmaps;
        self.cell_to_grid_idx = grid_indices(board_cells);
        self.placements = records;
        self.next_branch_id = 0;
        self.header_emitted = false;
        self.write_failed = false;
        self.pending_stack = Vec::new();
    }
    /// Pushes a pending branch for a branch point: one untried record per
    /// candidate, the pre-state, and the node count at entry.
    pub fn on_branch(&mut self, event: BranchEvent<'_>, current_total_nodes: u64)
        requires
            tables_fit(*old(self), *event.state),
        ensures
            final(self).pending_stack@.len() == old(self).pending_stack@.len() + 1,
            forall|j: int|
                0 <= j < old(self).pending_stack@.len() ==> #[trigger] final(self).pending_stack@[j]
                    == old(self).pending_stack@[j],
            fresh_candidates(event.candidates@, final(self).pending_stack@.last().candidates@),
            pre_state_ok(*old(self), *event.state, final(self).pending_stack@.last().pre_state),
            final(self).pending_stack@.last().nodes_at_entry == current_total_nodes,
            same_tables(*final(self), *old(self)),
            final(self).next_branch_id == old(self).next_branch_id,
            final(self).header_emitted == old(self).header_emitted,
            final(self).write_failed == old(self).write_failed,
    {
        let pre_state = self.compute_pre_state(event.state);
        let mut candidates: Vec<CandidateRecord> = Vec::new();
        let mut k: usize = 0;
        while k < event.candidates.len()
            invariant
                k <= event.candidates@.len(),
                fresh_candidates(event.candidates@.subrange(0, k as int), candidates@),
            decreases event.candidates.len() - k,
        {
            candidates.push(
                CandidateRecord {
                    placement_idx: event.candidates[k],
                    tried: false,
                    succeeded: false,
                    subtree_nodes: 0,
                },
            );
            k = k + 1;
        }
        assert(event.candidates@.subrange(0, event.candidates@.len() as int) =~= event.candidates@);
        self.pending_stack.push(PendingBranch { candidates, pre_state, nodes_at_entry: current_total_nodes });
    }

    /// Records the outcome of one attempt on the innermost pending branch:
    /// its first candidate of `placement_idx` is marked tried, with the
    /// outcome and the nodes searched since the branch point or the last
    /// attempt; the node count is then the new baseline.
    pub fn on_attempt(&mut self, placement_idx: u32, succeeded: bool, current_total_nodes: u64)
        requires
            old(self).pending_stack@.len() > 0,
            current_total_nodes >= old(self).pending_stack@.last().nodes_at_entry,
        ensures
            final(self).pending_stack@.len() == old(self).pending_stack@.len(),
            forall|j: int|
                0 <= j < old(self).pending_stack@.len() - 1 ==> #[trigger] final(self).pending_stack@[j]
                    == old(self).pending_stack@[j],
            attempt_recorded(
                old(self).pending_stack@.last().candidates@,
                final(self).pending_stack@.last().candidates@,
                placement_idx,
                succeeded,
                current_total_nodes - old(self).pending_stack@.last().nodes_at_entry,
            ),
            final(self).pending_stack@.last().pre_state == old(self).pending_stack@.last().pre_state,
            final(self).pending_stack@.last().nodes_at_entry == current_total_nodes,
            same_tables(*final(self), *old(self)),
            final(self).next_branch_id == old(self).next_branch_id,
            final(self).header_emitted == old(self).header_emitted,
            final(self).write_failed == old(self).write_failed,
    {
        let mut top = self.pending_stack.pop().unwrap();
        let subtree = current_total_nodes - top.nodes_at_entry;
        let ghost before = top.candidates@;
        let mut k: usize = 0;
        while k < top.candidates.len()
            invariant
                k <= top.candidates@.len(),
                top.candidates@ == before,
                forall|j: int| 0 <= j < k ==> before[j].placement_idx != placement_idx,
            ensures
                k <= top.candidates@.len(),
                top.candidates@ == before,
                forall|j: int| 0 <= j < k ==> before[j].placement_idx != placement_idx,
                k < top.candidates@.len() ==> before[k as int].placement_idx == placement_idx,
            decreases top.candidates.len() - k,
        {
            if top.candidates[k].placement_idx == placement_idx {
                break;
            }
            k = k + 1;
        }
        if k < top.candidates.len() {
            let mut rec = CandidateRecord { placement_idx: 0, tried: false, succeeded: false, subtree_nodes: 0 };
            top.candidates.set_and_swap(k, &mut rec);
            rec.tried = true;
            rec.succeeded = succeeded;
            rec.subtree_nodes = subtree;
            top.candidates.set_and_swap(k, &mut rec);
        }
        top.nodes_at_entry = current_total_nodes;
        self.pending_stack.push(top);
    }

    /// Hands out a finished branch as the next record, unless a write has
    /// failed; the first record of an instance comes after the header.
    fn emit_branch(&mut self, branch: PendingBranch) -> (e: Option<Emission>)
        requires
            !old(self).write_failed ==> old(self).next_branch_id < u32::MAX,
        ensures
            old(self).write_failed ==> e is None && final(self).next_branch_id == old(self).next_branch_id
                && final(self).header_emitted == old(self).header_emitted,
            !old(self).write_failed ==> {
                &&& e is Some
                &&& emits(e.unwrap(), branch, !old(self).header_emitted, old(self).next_branch_id as int)
                &&& final(self).next_branch_id == old(self).next_branch_id + 1
                &&& final(self).header_emitted
            },
            final(self).write_failed == old(self).write_failed,
            final(self).pending_stack@ == old(self).pending_stack@,
            same_tables(*final(self), *old(self)),
    {
        if self.write_failed {
            return None;
        }
        let header_first = !self.header_emitted;
        self.header_emitted = true;
        let branch_id = self.next_branch_id;
        self.next_branch_id = self.next_branch_id + 1;
        Some(
            Emission {
                header_first,
                record: BranchRecord { branch_id, pre_state: branch.pre_state, candidates: branch.candidates },
            },
        )
    }

    /// Pops the innermost pending branch and hands it out for writing (see
    /// [`Tracer::emit_branch`]).
    pub fn on_branch_complete(&mut self) -> (e: Option<Emission>)
        requires
            old(self).pending_stack@.len() > 0,
            !old(self).write_failed ==> old(self).next_branch_id < u32::MAX,
        ensures
            final(self).pending_stack@ == old(self).pending_stack@.drop_last(),
            old(self).write_failed ==> e is None && final(self).next_branch_id == old(self).next_branch_id
                && final(self).header_emitted == old(self).header_emitted,
            !old(self).write_failed ==> {
                &&& e is Some
                &&& emits(e.unwrap(), old(self).pending_stack@.last(), !old(self).header_emitted, old(self).next_branch_id as int)
                &&& final(self).next_branch_id == old(self).next_branch_id + 1
                &&& final(self).header_emitted
            },
            final(self).write_failed == old(self).write_failed,
            same_tables(*final(self), *old(self)),
    {
        let done = self.pending_stack.pop().unwrap();
        self.emit_branch(done)
    }

    /// The writer could not write the header of the record just handed out:
    /// the header is still to come, the record keeps no id, and nothing more
    /// is handed out.
    pub fn header_write_failed(&mut self)
        requires
            old(self).next_branch_id > 0,
        ensures
            !final(self).header_emitted,
            final(self).next_branch_id == old(self).next_branch_id - 1,
            final(self).write_failed,
            final(self).pending_stack@ == old(self).pending_stack@,
            same_tables(*final(self), *old(self)),
    {
        self.header_emitted = false;
        self.next_branch_id = self.next_branch_id - 1;
        self.write_failed = true;
    }

    /// The writer could not write a record: nothing more is handed out.
    pub fn record_write_failed(&mut self)
        ensures
            final(self).write_failed,
            final(self).header_emitted == old(self).header_emitted,
            final(self).next_branch_id == old(self).next_branch_id,
            final(self).pending_stack@ == old(self).pending_stack@,
            same_tables(*final(self), *old(self)),
    {
        self.write_failed = true;
    }

    /// Drops the pending branches at a restart boundary.
    pub fn reset_for_restart(&mut self)
        ensures
            final(self).pending_stack@.len() == 0,
            final(self).next_branch_id == old(self).next_branch_id,
            final(self).header_emitted == old(self).header_emitted,
            final(self).write_failed == old(self).write_failed,
            same_tables(*final(self), *old(self)),
    {
        self.pending_stack = Vec::new();
    }

    /// Ends the instance. After a failure the pending branches are dropped;
    /// after a success they are handed out innermost first (none when a
    /// write has failed), and a failed write is forgotten.
    pub fn on_solve_complete(&mut self, success: bool) -> (out: Vec<Emission>)
        requires
            success && !old(self).write_failed ==> old(self).next_branch_id + old(self).pending_stack@.len()
                <= u32::MAX,
        ensures
            final(self).pending_stack@.len() == 0,
            !success ==> out@.len() == 0 && final(self).write_failed == old(self).write_failed
                && final(self).next_branch_id == old(self).next_branch_id && final(self).header_emitted
                == old(self).header_emitted,
            success && old(self).write_failed ==> out@.len() == 0 && final(self).next_branch_id
                == old(self).next_branch_id && final(self).header_emitted == old(self).header_emitted,
            success && !old(self).write_failed ==> {
                let n = old(self).pending_stack@.len();
                &&& out@.len() == n
                &&& forall|j: int|
                    0 <= j < n ==> emits(
                        #[trigger] out@[j],
                        old(self).pending_stack@[n - 1 - j],
                        j == 0 && !old(self).header_emitted,
                        old(self).next_branch_id + j,
                    )
                &&& final(self).next_branch_id == old(self).next_branch_id + n
                &&& final(self).header_emitted == (old(self).header_emitted || n > 0)
            },
            success ==> !final(self).write_failed,
            same_tables(*final(self), *old(self)),
    {
        let mut out: Vec<Emission> = Vec::new();
        if !success {
            self.pending_stack = Vec::new();
            return out;
        }
        let ghost stack0 = self.pending_stack@;
        let ghost n = stack0.len();
        let ghost id0 = self.next_branch_id;
        let ghost h0 = self.header_emitted;
        let ghost failed = self.write_failed;
        let ghost mut popped: int = 0;
        while self.pending_stack.len() > 0
            invariant
                n == stack0.len(),
                0 <= popped <= n,
                self.pending_stack@ == stack0.subrange(0, n - popped),
                !failed ==> out@.len() == popped,
                self.write_failed == failed,
                !failed ==> id0 + n <= u32::MAX,
                failed ==> self.next_branch_id == id0 && self.header_emitted == h0,
                !failed ==> self.next_branch_id == id0 + out@.len() && self.header_emitted == (h0
                    || out@.len() > 0),
                !failed ==> forall|j: int|
                    0 <= j < out@.len() ==> emits(
                        #[trigger] out@[j],
                        stack0[n - 1 - j],
                        j == 0 && !h0,
                        id0 + j,
                    ),
                failed ==> out@.len() == 0,
                same_tables(*self, *old(self)),
            decreases self.pending_stack@.len(),
        {
            let ghost cur = self.pending_stack@;
            let branch = self.pending_stack.pop().unwrap();
            proof {
                assert(cur.len() == n - popped);
                assert(branch == stack0[n - 1 - popped]);
                assert(self.pending_stack@ =~= stack0.subrange(0, n - popped - 1));
            }
            let ghost out0 = out@;
            if let Some(e) = self.emit_branch(branch) {
                out.push(e);
                proof {
                    assert forall|j: int| 0 <= j < out@.len() implies emits(
                        #[trigger] out@[j],
                        stack0[n - 1 - j],
                        j == 0 && !h0,
                        id0 + j,
                    ) by {
                        if j < out0.len() {
                            assert(out@[j] == out0[j]);
                        }
                    }
                }
            }
            proof {
                popped = popped + 1;
            }
        }
        self.write_failed = false;
        out
    }
}

} // verus!
