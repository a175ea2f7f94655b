//! Whole-instance synthesis, with the floating-point draws done here as
//! the program around the library does them.

use std::collections::HashSet;

use rand::RngExt;
use rand_distr::{Beta, Distribution, Gamma};

use maplestory_union_solver_wasm::base::rng::{SolverRng, make_rng};
use maplestory_union_solver_wasm::domain::piece::Coord;
use maplestory_union_solver_wasm::ml::board::UnionBoard;
use maplestory_union_solver_wasm::ml::canonical::canonical_bitmap;
use maplestory_union_solver_wasm::ml::instance::{instance_from_pool, quadrant_instance_from_pool};
use maplestory_union_solver_wasm::ml::piece_pool::{
    PiecePool, PoolBuilder, draw_capped_count, draw_piece_count, draw_small_sizes, pool_from_sizes,
    size_counts_from, sizes_from_counts,
};
use maplestory_union_solver_wasm::ml::polyomino::PolyominoCatalog;
use maplestory_union_solver_wasm::ml::quadrant_target::{
    Quadrant, cell_quadrant, pick_outer, select_quadrant_target_cells,
};
use maplestory_union_solver_wasm::ml::target::{TargetSelection, select_target_cells};
use maplestory_union_solver_wasm::{ExactCoverInput, PieceDefJson};

// ─── draws ───

fn sample_center_count(rng: &mut SolverRng) -> usize {
    let r: f64 = rng.random();
    match r {
        x if x < 0.05 => 1,
        x if x < 0.55 => 2,
        x if x < 0.95 => 3,
        _ => 4,
    }
}

fn draw_sizes(rng: &mut SolverRng) -> Vec<u8> {
    let piece_count = draw_piece_count(rng, 20, 43);
    let small_count = if rng.random_bool(0.10) { draw_capped_count(rng, 3, piece_count) } else { 0 };
    let six_count = if rng.random_bool(0.05) {
        draw_capped_count(rng, 2, piece_count.saturating_sub(small_count))
    } else {
        0
    };
    let remaining = piece_count - small_count - six_count;
    let r5: f64 = Beta::new(2.0_f64, 2.0_f64).unwrap().sample(rng);
    let size5_count = (remaining as f64 * r5).round() as usize;
    let size4_count = remaining - size5_count;
    let small = draw_small_sizes(rng, small_count);
    sizes_from_counts(&small, size4_count, size5_count, six_count)
}

fn build_piece_pool(catalog: &PolyominoCatalog, rng: &mut SolverRng) -> PiecePool {
    let sizes = draw_sizes(rng);
    pool_from_sizes(catalog, &sizes, rng)
}

fn build_weighted_piece_pool(catalog: &PolyominoCatalog, rng: &mut SolverRng) -> PiecePool {
    let piece_count = draw_piece_count(rng, 35, 43);
    let small_count = if rng.random_bool(0.05) { draw_capped_count(rng, 3, piece_count) } else { 0 };
    let six_count = if rng.random_bool(0.05) {
        draw_capped_count(rng, 2, piece_count.saturating_sub(small_count))
    } else {
        0
    };
    let remaining = piece_count - small_count - six_count;
    let r5: f64 = Beta::new(7.0_f64, 2.0_f64).unwrap().sample(rng);
    let size5_count = (remaining as f64 * r5).round() as usize;
    let size4_count = remaining - size5_count;
    let small = draw_small_sizes(rng, small_count);
    let size_counts = size_counts_from(&small, size4_count, size5_count, six_count);
    let mut builder = PoolBuilder::new();
    for size in 1u8..=6u8 {
        let n = size_counts[size as usize];
        let candidates = catalog.of_size(size);
        if n == 0 || candidates.is_empty() {
            continue;
        }
        let alpha: f64 = match size {
            4 => 2.0,
            5 => {
                let x: f64 = rng.random_range(0.5_f64.ln()..1.5_f64.ln());
                x.exp()
            },
            _ => 1.0,
        };
        let gamma = Gamma::new(alpha, 1.0_f64).unwrap();
        let mut weights: Vec<f64> = (0..candidates.len()).map(|_| gamma.sample(rng)).collect();
        let sum: f64 = weights.iter().sum();
        for w in &mut weights {
            *w /= sum;
        }
        for _ in 0..n {
            let r: f64 = rng.random();
            let mut acc = 0.0;
            let mut idx = weights.len() - 1;
            for (i, &w) in weights.iter().enumerate() {
                acc += w;
                if r < acc {
                    idx = i;
                    break;
                }
            }
            builder.add_pick(catalog, size, idx, rng);
        }
    }
    builder.finish()
}

fn build_target_cells(board: &UnionBoard, total: usize, rng: &mut SolverRng) -> TargetSelection {
    let center_count = sample_center_count(rng);
    select_target_cells(board, total, center_count, rng)
}

fn build_quadrant_target_cells(board: &UnionBoard, total: usize, rng: &mut SolverRng) -> TargetSelection {
    let pick = pick_outer(board, total, rng);
    let center_count = sample_center_count(rng);
    select_quadrant_target_cells(board, total, &pick, center_count, rng)
}

fn build_instance(catalog: &PolyominoCatalog, board: &UnionBoard, rng: &mut SolverRng) -> ExactCoverInput {
    let pool = build_piece_pool(catalog, rng);
    let center_count = sample_center_count(rng);
    instance_from_pool(board, &pool, center_count, rng)
}

fn build_quadrant_instance(catalog: &PolyominoCatalog, board: &UnionBoard, rng: &mut SolverRng) -> ExactCoverInput {
    let pool = build_weighted_piece_pool(catalog, rng);
    let total = pool.total_cells();
    let pick = pick_outer(board, total, rng);
    let center_count = sample_center_count(rng);
    quadrant_instance_from_pool(board, &pool, &pick, center_count, rng)
}

type PoolFn = fn(&PolyominoCatalog, &mut SolverRng) -> PiecePool;
type TargetFn = fn(&UnionBoard, usize, &mut SolverRng) -> TargetSelection;
type InstanceFn = fn(&PolyominoCatalog, &UnionBoard, &mut SolverRng) -> ExactCoverInput;

const POOLS: [(PoolFn, usize, usize); 2] = [(build_piece_pool, 20, 43), (build_weighted_piece_pool, 35, 43)];
const TARGETS: [TargetFn; 2] = [build_target_cells, build_quadrant_target_cells];
const INSTANCES: [InstanceFn; 2] = [build_instance, build_quadrant_instance];

fn make_catalog() -> PolyominoCatalog {
    PolyominoCatalog::enumerate(6)
}

// ─── piece pools ───

#[test]
fn piece_pool_piece_count_within_declared_bounds() {
    let catalog = make_catalog();
    for (build, min, max) in POOLS {
        let mut rng = make_rng(42);
        for _ in 0..200 {
            let pool = build(&catalog, &mut rng);
            assert!(pool.pieces.len() >= min, "piece count {} below MIN {}", pool.pieces.len(), min);
            assert!(pool.pieces.len() <= max, "piece count {} above MAX {}", pool.pieces.len(), max);
        }
    }
}

#[test]
fn piece_pool_piece_defs_have_unique_canonical_bitmaps() {
    let catalog = make_catalog();
    for (build, _, _) in POOLS {
        let mut rng = make_rng(42);
        for _ in 0..100 {
            let pool = build(&catalog, &mut rng);
            let bitmaps: HashSet<Vec<u8>> = pool.piece_defs.iter().map(canonical_bitmap).collect();
            assert_eq!(bitmaps.len(), pool.piece_defs.len(), "piece_defs should be deduplicated by canonical bitmap");
        }
    }
}

#[test]
fn piece_pool_pieces_reference_valid_defs_and_ids_match() {
    let catalog = make_catalog();
    for (build, _, _) in POOLS {
        let mut rng = make_rng(42);
        for _ in 0..100 {
            let pool = build(&catalog, &mut rng);
            for piece in &pool.pieces {
                let ti = piece.type_idx as usize;
                assert!(ti < pool.piece_defs.len(), "type_idx {} out of range (defs len {})", ti, pool.piece_defs.len());
                assert_eq!(piece.def_id, pool.piece_defs[ti].id, "def_id mismatch for type_idx {}", ti);
            }
        }
    }
}

#[test]
fn piece_pool_mark_index_is_within_cells() {
    let catalog = make_catalog();
    for (build, _, _) in POOLS {
        let mut rng = make_rng(42);
        for _ in 0..100 {
            let pool = build(&catalog, &mut rng);
            for def in &pool.piece_defs {
                assert!(
                    def.mark_index < def.cells.len(),
                    "mark_index {} out of range for {}-cell piece {}",
                    def.mark_index,
                    def.cells.len(),
                    def.id
                );
            }
        }
    }
}

#[test]
fn piece_pool_deterministic_with_same_seed() {
    let catalog = make_catalog();
    for (build, _, _) in POOLS {
        let pool1 = build(&catalog, &mut make_rng(123));
        let pool2 = build(&catalog, &mut make_rng(123));

        assert_eq!(pool1.pieces.len(), pool2.pieces.len());
        assert_eq!(pool1.piece_defs.len(), pool2.piece_defs.len());
        for (a, b) in pool1.pieces.iter().zip(&pool2.pieces) {
            assert_eq!(a.type_idx, b.type_idx);
            assert_eq!(a.def_id, b.def_id);
        }
        for (a, b) in pool1.piece_defs.iter().zip(&pool2.piece_defs) {
            assert_eq!(a.cells, b.cells);
            assert_eq!(a.mark_index, b.mark_index);
        }
    }
}

#[test]
fn weighted_pool_pieces_come_in_increasing_size() {
    let catalog = make_catalog();
    let mut rng = make_rng(7);
    for _ in 0..50 {
        let pool = build_weighted_piece_pool(&catalog, &mut rng);
        let sizes: Vec<usize> = pool.pieces.iter().map(|p| pool.piece_defs[p.type_idx as usize].cells.len()).collect();
        assert!(sizes.windows(2).all(|w| w[0] <= w[1]), "sizes {sizes:?}");
    }
}

#[test]
fn builder_reuses_the_definition_of_a_repeated_shape() {
    let catalog = make_catalog();
    let mut rng = make_rng(1);
    let mut builder = PoolBuilder::new();
    builder.add_pick(&catalog, 4, 0, &mut rng);
    builder.add_pick(&catalog, 4, 1, &mut rng);
    builder.add_pick(&catalog, 4, 0, &mut rng);
    let pool = builder.finish();
    assert_eq!(pool.piece_defs.len(), 2);
    assert_eq!(pool.piece_defs[0].id, "def_0");
    assert_eq!(pool.piece_defs[1].id, "def_1");
    assert_eq!(pool.piece_defs[0].cells, catalog.of_size(4)[0].cells);
    assert_eq!(pool.pieces.iter().map(|p| p.type_idx).collect::<Vec<u16>>(), vec![0, 1, 0]);
    assert_eq!(pool.pieces[2].def_id, "def_0");
}

// ─── target cells ───

#[test]
fn target_target_total_matches_piece_total_exactly() {
    let board = UnionBoard::new();
    for build in TARGETS {
        for seed in 0..50 {
            for &piece_total in &[80usize, 150, 200, 215] {
                let mut rng = make_rng(seed);
                let result = build(&board, piece_total, &mut rng);
                assert_eq!(
                    result.all_cells.len(),
                    piece_total,
                    "expected {} cells, got {} (seed={})",
                    piece_total,
                    result.all_cells.len(),
                    seed
                );
            }
        }
    }
}

#[test]
fn target_selected_centers_are_valid_subset() {
    let board = UnionBoard::new();
    for build in TARGETS {
        let mut rng = make_rng(42);
        for _ in 0..100 {
            let result = build(&board, 200, &mut rng);
            assert!(
                (1..=4).contains(&result.center_cells.len()),
                "center count {} out of [1, 4]",
                result.center_cells.len()
            );
            for c in &result.center_cells {
                assert!(board.center_cells.contains(c), "selected center {:?} not in board.center_cells", c);
            }
        }
    }
}

#[test]
fn target_target_includes_all_selected_centers() {
    let board = UnionBoard::new();
    for build in TARGETS {
        let mut rng = make_rng(42);
        for _ in 0..100 {
            let result = build(&board, 200, &mut rng);
            for c in &result.center_cells {
                assert!(result.all_cells.contains(c), "selected center {:?} missing from target", c);
            }
        }
    }
}

#[test]
fn target_target_cells_are_within_board() {
    let board = UnionBoard::new();
    let board_set: HashSet<Coord> = board.all_cells.iter().copied().collect();
    for build in TARGETS {
        let mut rng = make_rng(42);
        for _ in 0..50 {
            let result = build(&board, 200, &mut rng);
            for c in &result.all_cells {
                assert!(board_set.contains(c), "target cell {:?} not on board", c);
            }
        }
    }
}

#[test]
fn target_target_cells_have_no_duplicates() {
    let board = UnionBoard::new();
    for build in TARGETS {
        let mut rng = make_rng(42);
        for _ in 0..50 {
            let result = build(&board, 200, &mut rng);
            let unique: HashSet<Coord> = result.all_cells.iter().copied().collect();
            assert_eq!(unique.len(), result.all_cells.len());
        }
    }
}

#[test]
fn target_deterministic_with_same_seed() {
    let board = UnionBoard::new();
    for build in TARGETS {
        let r1 = build(&board, 200, &mut make_rng(123));
        let r2 = build(&board, 200, &mut make_rng(123));
        assert_eq!(r1.all_cells, r2.all_cells);
        assert_eq!(r1.center_cells, r2.center_cells);
    }
}

#[test]
fn quadrants_split_rows_at_10_and_columns_at_11() {
    assert_eq!(cell_quadrant((0, 0)), Quadrant::NW);
    assert_eq!(cell_quadrant((9, 10)), Quadrant::NW);
    assert_eq!(cell_quadrant((9, 11)), Quadrant::NE);
    assert_eq!(cell_quadrant((10, 10)), Quadrant::SW);
    assert_eq!(cell_quadrant((10, 11)), Quadrant::SE);
    assert_eq!(cell_quadrant((19, 21)), Quadrant::SE);
}

#[test]
fn outer_pick_leads_with_two_to_five_groups_and_marks_their_quadrants() {
    let board = UnionBoard::new();
    let mut rng = make_rng(9);
    for total in [0usize, 80, 200, 440] {
        let pick = pick_outer(&board, total, &mut rng);
        assert!((2..=5).contains(&pick.n1_take));
        let mut outer = pick.outer.clone();
        outer.sort();
        assert_eq!(outer, (0..8).collect::<Vec<usize>>());
        let mut flags = vec![false; 4];
        for &g in &pick.outer[..pick.n1_take] {
            let q = cell_quadrant(board.groups[g].cells[0]);
            flags[q as usize] = true;
        }
        assert_eq!(pick.flags, flags);
    }
}

#[test]
fn quadrant_centers_come_from_marked_quadrants_first() {
    let board = UnionBoard::new();
    let mut rng = make_rng(5);
    for _ in 0..100 {
        let pick = pick_outer(&board, 200, &mut rng);
        let result = select_quadrant_target_cells(&board, 200, &pick, 2, &mut rng);
        let marked = |c: &Coord| pick.flags[cell_quadrant(*c) as usize];
        let all_marked = result.center_cells.iter().all(marked);
        let every_marked_chosen = board.center_cells.iter().filter(|c| marked(c)).all(|c| result.center_cells.contains(c));
        assert!(all_marked || every_marked_chosen);
    }
}

// ─── instances ───

fn def_lookup(input: &ExactCoverInput) -> std::collections::HashMap<&str, &PieceDefJson> {
    input.common.piece_defs.iter().map(|(id, def)| (id.as_str(), def)).collect()
}

#[test]
fn target_total_matches_piece_cell_sum() {
    let board = UnionBoard::new();
    let catalog = make_catalog();
    for build in INSTANCES {
        for seed in 0..50 {
            let mut rng = make_rng(seed);
            let input = build(&catalog, &board, &mut rng);
            let lookup = def_lookup(&input);
            let piece_total: usize = input.common.pieces.iter().map(|p| lookup[p.def_id.as_str()].cells.len()).sum();
            assert_eq!(
                input.target_cells.len(),
                piece_total,
                "target {} != piece total {} (seed={})",
                input.target_cells.len(),
                piece_total,
                seed
            );
        }
    }
}

#[test]
fn piece_instances_reference_known_defs() {
    let board = UnionBoard::new();
    let catalog = make_catalog();
    for build in INSTANCES {
        let mut rng = make_rng(42);
        for _ in 0..50 {
            let input = build(&catalog, &board, &mut rng);
            let def_ids: HashSet<&str> = input.common.piece_defs.iter().map(|(id, _)| id.as_str()).collect();
            for piece in &input.common.pieces {
                assert!(def_ids.contains(piece.def_id.as_str()), "piece def_id {:?} not in piece_defs", piece.def_id);
            }
        }
    }
}

#[test]
fn center_cells_are_subset_of_target() {
    let board = UnionBoard::new();
    let catalog = make_catalog();
    for build in INSTANCES {
        let mut rng = make_rng(42);
        for _ in 0..50 {
            let input = build(&catalog, &board, &mut rng);
            let target_set: HashSet<&str> = input.target_cells.iter().map(|s| s.as_str()).collect();
            for cc in &input.common.center_cells {
                assert!(target_set.contains(cc.as_str()), "center cell {:?} missing from target", cc);
            }
        }
    }
}

#[test]
fn piece_indices_are_unique() {
    let board = UnionBoard::new();
    let catalog = make_catalog();
    for build in INSTANCES {
        let mut rng = make_rng(42);
        for _ in 0..50 {
            let input = build(&catalog, &board, &mut rng);
            let indices: HashSet<u16> = input.common.pieces.iter().map(|p| p.index).collect();
            assert_eq!(indices.len(), input.common.pieces.len(), "duplicate index in pieces");
        }
    }
}

#[test]
fn synthesized_input_round_trips_through_solver_parse() {
    let board = UnionBoard::new();
    let catalog = make_catalog();
    for build in INSTANCES {
        let mut rng = make_rng(42);
        let input = build(&catalog, &board, &mut rng);
        let _ = input.parse_target_cells().expect("target cells parse");
        let _ = input.common.parse_center_cells().expect("center cells parse");
        let _ = input.common.piece_defs_map();
    }
}

#[test]
fn instance_deterministic_with_same_seed() {
    let board = UnionBoard::new();
    let catalog = make_catalog();
    for build in INSTANCES {
        let r1 = build(&catalog, &board, &mut make_rng(123));
        let r2 = build(&catalog, &board, &mut make_rng(123));
        assert_eq!(r1.target_cells, r2.target_cells);
        assert_eq!(r1.common.center_cells, r2.common.center_cells);
        assert_eq!(r1.common.pieces.len(), r2.common.pieces.len());
        assert_eq!(r1.common.piece_defs.len(), r2.common.piece_defs.len());
    }
}

#[test]
fn sizes_from_counts_lists_small_then_four_five_six() {
    let small = vec![3u8, 1];
    let sizes = sizes_from_counts(&small, 2, 1, 3);
    assert_eq!(sizes, vec![3, 1, 4, 4, 5, 6, 6, 6]);
    assert_eq!(sizes_from_counts(&Vec::new(), 0, 0, 0), Vec::<u8>::new());
}

#[test]
fn integer_draws_stay_in_their_ranges() {
    let mut rng = make_rng(11);
    for _ in 0..200 {
        let n = draw_piece_count(&mut rng, 20, 43);
        assert!((20..=43).contains(&n));
        let c = draw_capped_count(&mut rng, 3, 2);
        assert!((1..=2).contains(&c));
        assert_eq!(draw_capped_count(&mut rng, 2, 0), 0);
        let small = draw_small_sizes(&mut rng, 4);
        assert_eq!(small.len(), 4);
        assert!(small.iter().all(|&s| (1..=3).contains(&s)));
    }
}

#[test]
fn size_counts_from_tallies_each_size() {
    let small = vec![3u8, 1, 3];
    assert_eq!(size_counts_from(&small, 5, 2, 1), vec![0, 1, 0, 2, 5, 2, 1]);
}
