//! Training instances: a piece pool and a target cell selection written
//! out as solver input.

use vstd::prelude::*;

use crate::base::rng::SolverRng;
use crate::domain::piece::{Coord, copy_coords, row_major};
use crate::io::common::{
    PieceDefJson, PieceInstanceJson, SolverInput, cell_key_chars, cell_key_string,
    lemma_cell_key_round_trip,
};
use crate::io::input::ExactCoverInput;
use crate::ml::board::{UnionBoard, center_seq, in_grid, standard_board};
use crate::ml::piece_pool::{PiecePool, pool_ok, pool_total};
use crate::ml::quadrant_target::{OuterPick, outer_pick_ok, select_quadrant_target_cells};
use crate::ml::target::{TargetSelection, distinct_within, select_target_cells};
use crate::solver::context::{keys_coords, keys_ok};
use vstd::relations::sorted_by;

verus! {

fn keys_of(cells: &Vec<Coord>) -> (keys: Vec<String>)
    ensures
        keys@.len() == cells@.len(),
        forall|k: int| 0 <= k < keys@.len() ==> (#[trigger] keys@[k])@ == cell_key_chars(cells@[k]),
        keys_ok(keys@),
        keys_coords(keys@) == cells@,
{
    let mut keys: Vec<String> = Vec::new();
    let mut i: usize = 0;
    while i < cells.len()
        invariant
            i <= cells@.len(),
            keys@.len() == i,
            forall|k: int| 0 <= k < i ==> (#[trigger] keys@[k])@ == cell_key_chars(cells@[k]),
        decreases cells.len() - i,
    {
        keys.push(cell_key_string(cells[i]));
        i = i + 1;
    }
    proof {
        assert forall|k: int| 0 <= k < keys@.len() implies crate::io::common::cell_key_spec(
            #[trigger] keys@[k]@,
        ) is Some by {
            lemma_cell_key_round_trip(cells@[k]);
        }
        assert forall|k: int| 0 <= k < keys@.len() implies #[trigger] keys_coords(keys@)[k] == cells@[k] by {
            lemma_cell_key_round_trip(cells@[k]);
        }
        assert(keys_coords(keys@) =~= cells@);
    }
    keys
}

/// Writes one instance from a piece pool and its target cells: the
/// target and center cells as `"r,c"` keys in the selection's order,
/// piece `i` with index `i`, and every definition under its id.
pub fn instance_from_parts(pool: &PiecePool, target: &TargetSelection) -> (input: ExactCoverInput)
    requires
        pool.pieces@.len() <= u16::MAX,
    ensures
        keys_ok(input.target_cells@),
        keys_coords(input.target_cells@) == target.all_cells@,
        keys_ok(input.common.center_cells@),
        keys_coords(input.common.center_cells@) == target.center_cells@,
        input.common.pieces@.len() == pool.pieces@.len(),
        forall|i: int|
            0 <= i < pool.pieces@.len() ==> (#[trigger] input.common.pieces@[i]).index == i
                && input.common.pieces@[i].def_id@ == pool.pieces@[i].def_id@,
        input.common.piece_defs@.len() == pool.piece_defs@.len(),
        forall|k: int|
            0 <= k < pool.piece_defs@.len() ==> (#[trigger] input.common.piece_defs@[k]).0@
                == pool.piece_defs@[k].id@ && input.common.piece_defs@[k].1@ == pool.piece_defs@[k]@,
{
    let mut piece_defs: Vec<(String, PieceDefJson)> = Vec::new();
    let mut k: usize = 0;
    while k < pool.piece_defs.len()
        invariant
            k <= pool.piece_defs@.len(),
            piece_defs@.len() == k,
            forall|j: int|
                0 <= j < k ==> (#[trigger] piece_defs@[j]).0@ == pool.piece_defs@[j].id@
                    && piece_defs@[j].1@ == pool.piece_defs@[j]@,
        decreases pool.piece_defs.len() - k,
    {
        let d = &pool.piece_defs[k];
        let json = PieceDefJson { id: d.id.clone(), cells: copy_coords(&d.cells), mark_index: d.mark_index };
        piece_defs.push((d.id.clone(), json));
        k = k + 1;
    }
    let mut pieces: Vec<PieceInstanceJson> = Vec::new();
    let mut i: usize = 0;
    while i < pool.pieces.len()
        invariant
            i <= pool.pieces@.len() <= u16::MAX,
            pieces@.len() == i,
            forall|j: int|
                0 <= j < i ==> (#[trigger] pieces@[j]).index == j && pieces@[j].def_id@
                    == pool.pieces@[j].def_id@,
        decreases pool.pieces.len() - i,
    {
        pieces.push(PieceInstanceJson { def_id: pool.pieces[i].def_id.clone(), index: i as u16 });
        i = i + 1;
    }
    let target_cells = keys_of(&target.all_cells);
    let center_cells = keys_of(&target.center_cells);
    ExactCoverInput { target_cells, common: SolverInput { pieces, piece_defs, center_cells } }
}

/// The instance's keys are well formed: the target keys name distinct
/// board cells in row-major order, as many as `total` (unless the
/// `center_count` centers alone are more), and the center keys name
/// `center_count` distinct center cells among them.
pub open spec fn instance_keys_ok(input: ExactCoverInput, total: int, center_count: int) -> bool {
    let tc = input.target_cells@;
    let cc = input.common.center_cells@;
    &&& keys_ok(tc)
    &&& keys_ok(cc)
    &&& tc.len() == if total >= center_count {
        total
    } else {
        center_count
    }
    &&& sorted_by(keys_coords(tc), row_major())
    &&& keys_coords(tc).no_duplicates()
    &&& forall|k: int| 0 <= k < tc.len() ==> in_grid(#[trigger] keys_coords(tc)[k])
    &&& cc.len() == center_count
    &&& distinct_within(keys_coords(cc), center_seq())
    &&& forall|k: int| 0 <= k < cc.len() ==> keys_coords(tc).contains(#[trigger] keys_coords(cc)[k])
}

/// Writes one instance from a piece pool: the target cells are chosen for
/// the pool's cell total with `center_count` centers (see
/// [`select_target_cells`]), then written out by [`instance_from_parts`].
pub fn instance_from_pool(
    board: &UnionBoard,
    pool: &PiecePool,
    center_count: usize,
    rng: &mut SolverRng,
) -> (input: ExactCoverInput)
    requires
        standard_board(*board),
        pool_ok(pool.piece_defs@, pool.pieces@),
        pool.pieces@.len() <= u16::MAX,
        pool_total(pool.piece_defs@, pool.pieces@, pool.pieces@.len() as int) <= 440,
        1 <= center_count <= 4,
    ensures
        instance_keys_ok(
            input,
            pool_total(pool.piece_defs@, pool.pieces@, pool.pieces@.len() as int),
            center_count as int,
        ),
        input.common.pieces@.len() == pool.pieces@.len(),
        forall|i: int|
            0 <= i < pool.pieces@.len() ==> (#[trigger] input.common.pieces@[i]).index == i
                && input.common.pieces@[i].def_id@ == pool.pieces@[i].def_id@,
        input.common.piece_defs@.len() == pool.piece_defs@.len(),
        forall|k: int|
            0 <= k < pool.piece_defs@.len() ==> (#[trigger] input.common.piece_defs@[k]).0@
                == pool.piece_defs@[k].id@ && input.common.piece_defs@[k].1@ == pool.piece_defs@[k]@,
{
    let total = pool.total_cells();
    let target = select_target_cells(board, total, center_count, rng);
    instance_from_parts(pool, &target)
}

/// Writes one instance from a piece pool with target cells laid out by
/// quadrant: the leading outer groups are `pick` (see
/// [`crate::ml::quadrant_target::pick_outer`]) and there are `center_count`
/// centers (see [`select_quadrant_target_cells`]).
pub fn quadrant_instance_from_pool(
    board: &UnionBoard,
    pool: &PiecePool,
    pick: &OuterPick,
    center_count: usize,
    rng: &mut SolverRng,
) -> (input: ExactCoverInput)
    requires
        standard_board(*board),
        outer_pick_ok(*pick),
        pool_ok(pool.piece_defs@, pool.pieces@),
        pool.pieces@.len() <= u16::MAX,
        pool_total(pool.piece_defs@, pool.pieces@, pool.pieces@.len() as int) <= 440,
        1 <= center_count <= 4,
    ensures
        instance_keys_ok(
            input,
            pool_total(pool.piece_defs@, pool.pieces@, pool.pieces@.len() as int),
            center_count as int,
        ),
        input.common.pieces@.len() == pool.pieces@.len(),
        forall|i: int|
            0 <= i < pool.pieces@.len() ==> (#[trigger] input.common.pieces@[i]).index == i
                && input.common.pieces@[i].def_id@ == pool.pieces@[i].def_id@,
        input.common.piece_defs@.len() == pool.piece_defs@.len(),
        forall|k: int|
            0 <= k < pool.piece_defs@.len() ==> (#[trigger] input.common.piece_defs@[k]).0@
                == pool.piece_defs@[k].id@ && input.common.piece_defs@[k].1@ == pool.piece_defs@[k]@,
{
    let total = pool.total_cells();
    let target = select_quadrant_target_cells(board, total, pick, center_count, rng);
    instance_from_parts(pool, &target)
}

} // verus!
