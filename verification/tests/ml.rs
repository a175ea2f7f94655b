use std::collections::HashSet;

use maplestory_union_solver_wasm::domain::piece::{Coord, PieceDef};
use maplestory_union_solver_wasm::ml::board::{GroupId, UnionBoard};
use maplestory_union_solver_wasm::ml::canonical::{canonical_5x5_bitmap, canonical_bitmap};
use maplestory_union_solver_wasm::ml::polyomino::PolyominoCatalog;

// ─── board ───

#[test]
fn total_cell_count_is_440() {
    let board = UnionBoard::new();
    assert_eq!(board.all_cells.len(), 440, "20x22 fully tiled = 440 cells");
}

#[test]
fn has_16_groups_8_outer_8_inner() {
    let board = UnionBoard::new();
    assert_eq!(board.groups.len(), 16);
    assert_eq!(board.outer_groups().len(), 8);
    assert_eq!(board.inner_groups().len(), 8);
}

#[test]
fn group_cells_are_pairwise_disjoint_and_cover_board() {
    let board = UnionBoard::new();

    let mut all: Vec<Coord> = board.groups.iter().flat_map(|g| g.cells.iter().copied()).collect();
    let total = all.len();
    all.sort();
    all.dedup();

    assert_eq!(all.len(), total, "groups overlap (duplicate cells)");
    assert_eq!(total, 440, "groups don't cover all 440 cells");
}

#[test]
fn center_cells_are_at_expected_positions() {
    let board = UnionBoard::new();
    let expected = vec![(9, 10), (9, 11), (10, 10), (10, 11)];
    assert_eq!(board.center_cells, expected);
}

#[test]
fn center_belongs_to_inner_groups_2_3_6_7() {
    let board = UnionBoard::new();
    let center_groups: Vec<&GroupId> =
        board.groups.iter().filter(|g| g.contains_center).map(|g| &g.id).collect();

    assert_eq!(center_groups.len(), 4);
    for g in &center_groups {
        assert!(
            matches!(g, GroupId::Inner(2 | 3 | 6 | 7)),
            "center should be in Inner(2|3|6|7), got {:?}",
            g
        );
    }
}

#[test]
fn group_ids_are_unique() {
    let board = UnionBoard::new();
    let ids: HashSet<GroupId> = board.groups.iter().map(|g| g.id).collect();
    assert_eq!(ids.len(), 16);
}

#[test]
fn groups_come_outer_first_in_number_order() {
    let board = UnionBoard::new();
    assert_eq!(board.groups[0].id, GroupId::Outer(1));
    assert_eq!(board.groups[7].id, GroupId::Outer(8));
    assert_eq!(board.groups[8].id, GroupId::Inner(1));
    assert_eq!(board.groups[15].id, GroupId::Inner(8));
    assert_eq!(board.groups[0].cells[0], (0, 0));
    assert_eq!(board.groups[1].cells[0], (0, 1));
    assert!(board.groups[0].id.is_outer());
    assert!(!board.groups[8].id.is_outer());
}

// ─── canonical ───

fn def(id: &str, cells: Vec<(i8, i8)>) -> PieceDef {
    PieceDef { id: id.to_string(), cells, mark_index: 0 }
}

#[test]
fn single_cell_is_top_left() {
    let bitmap = canonical_5x5_bitmap(&def("dot", vec![(0, 0)]));
    let mut expected = [0u8; 25];
    expected[0] = 1;
    assert_eq!(bitmap, expected);
}

#[test]
fn horizontal_bar_picks_horizontal_canonical() {
    let bitmap = canonical_5x5_bitmap(&def("bar3", vec![(0, 0), (0, 1), (0, 2)]));
    let mut expected = [0u8; 25];
    expected[0] = 1;
    expected[1] = 1;
    expected[2] = 1;
    assert_eq!(bitmap, expected);
}

#[test]
fn rotated_inputs_produce_identical_bitmap() {
    let l1 = def("l1", vec![(0, 0), (1, 0), (2, 0), (2, 1)]);
    let l2 = def("l2", vec![(0, 0), (0, 1), (0, 2), (1, 0)]);
    assert_eq!(canonical_5x5_bitmap(&l1), canonical_5x5_bitmap(&l2));
}

#[test]
fn cell_count_is_preserved() {
    let pieces = [
        def("dot", vec![(0, 0)]),
        def("bar3", vec![(0, 0), (0, 1), (0, 2)]),
        def("L", vec![(0, 0), (1, 0), (2, 0), (2, 1)]),
    ];
    for p in &pieces {
        let bitmap = canonical_5x5_bitmap(p);
        let ones: u8 = bitmap.iter().sum();
        assert_eq!(ones as usize, p.cells.len(), "piece {}: cell count mismatch", p.id);
    }
}

#[test]
fn canonical_bitmap_is_six_by_six() {
    let bar = def("bar6", vec![(0, 0), (1, 0), (2, 0), (3, 0), (4, 0), (5, 0)]);
    let bitmap = canonical_bitmap(&bar);
    assert_eq!(bitmap.len(), 36);
    let mut expected = vec![0u8; 36];
    for k in 0..6 {
        expected[k] = 1;
    }
    assert_eq!(bitmap, expected);
}

#[test]
fn reflected_shapes_share_a_canonical_bitmap() {
    let s = def("S", vec![(0, 1), (0, 2), (1, 0), (1, 1)]);
    let z = def("Z", vec![(0, 0), (0, 1), (1, 1), (1, 2)]);
    assert_eq!(canonical_bitmap(&s), canonical_bitmap(&z));
    let t = def("T", vec![(0, 0), (0, 1), (0, 2), (1, 1)]);
    assert_ne!(canonical_bitmap(&s), canonical_bitmap(&t));
}

// ─── polyomino ───

fn count(catalog: &PolyominoCatalog, size: u8) -> usize {
    catalog.of_size(size).len()
}

#[test]
fn known_free_polyomino_counts() {
    let catalog = PolyominoCatalog::enumerate(6);

    assert_eq!(count(&catalog, 1), 1, "monomino");
    assert_eq!(count(&catalog, 2), 1, "domino");
    assert_eq!(count(&catalog, 3), 2, "trominoes");
    assert_eq!(count(&catalog, 4), 5, "tetrominoes");
    assert_eq!(count(&catalog, 5), 12, "pentominoes");
    assert_eq!(count(&catalog, 6), 35, "hexominoes");
}

#[test]
fn each_polyomino_has_correct_cell_count() {
    let catalog = PolyominoCatalog::enumerate(6);
    for size in 1..=6 {
        for def in catalog.of_size(size) {
            assert_eq!(def.cells.len(), size as usize, "poly {}: cell count mismatch", def.id);
        }
    }
}

#[test]
fn ids_are_assigned_and_unique() {
    let catalog = PolyominoCatalog::enumerate(5);
    let mut ids: Vec<&str> = Vec::new();
    for size in 1..=5 {
        for def in catalog.of_size(size) {
            assert!(!def.id.is_empty(), "id should be set");
            assert!(def.id.starts_with(&format!("poly_{}_", size)));
            ids.push(&def.id);
        }
    }
    let unique: HashSet<&&str> = ids.iter().collect();
    assert_eq!(unique.len(), ids.len(), "ids must be unique");
}

#[test]
fn canonical_bitmaps_are_pairwise_distinct() {
    let catalog = PolyominoCatalog::enumerate(6);
    for size in 1..=6 {
        let bitmaps: Vec<Vec<u8>> = catalog.of_size(size).iter().map(canonical_bitmap).collect();
        let unique: HashSet<&Vec<u8>> = bitmaps.iter().collect();
        assert_eq!(
            unique.len(),
            bitmaps.len(),
            "size {} polyominoes must have distinct canonical bitmaps",
            size
        );
    }
}

#[test]
fn catalog_of_small_size_has_exact_ids_and_anchor() {
    let catalog = PolyominoCatalog::enumerate(3);
    assert_eq!(count(&catalog, 0), 0);
    let mono = &catalog.of_size(1)[0];
    assert_eq!(mono.id, "poly_1_0");
    assert_eq!(mono.cells, vec![(0, 0)]);
    assert_eq!(mono.mark_index, 0);
    let trominoes = catalog.of_size(3);
    assert_eq!(trominoes[1].id, "poly_3_1");
    for t in trominoes {
        assert_eq!(t.cells[0], (0, 0));
    }
}

// ─── piece pools ───

use maplestory_union_solver_wasm::base::rng::make_rng;
use maplestory_union_solver_wasm::ml::instance::instance_from_pool;
use maplestory_union_solver_wasm::ml::piece_pool::pool_from_sizes;
use maplestory_union_solver_wasm::ml::target::select_target_cells;

fn sample_sizes() -> Vec<u8> {
    vec![4, 5, 4, 4, 5, 5, 2, 6, 4, 5, 5, 4, 3, 1, 5, 4, 5, 4, 4, 5, 6, 5]
}

#[test]
fn pool_draws_one_piece_per_size_with_matching_shape() {
    let catalog = PolyominoCatalog::enumerate(6);
    let sizes = sample_sizes();
    let pool = pool_from_sizes(&catalog, &sizes, &mut make_rng(42));
    assert_eq!(pool.pieces.len(), sizes.len());
    for (p, &s) in pool.pieces.iter().zip(&sizes) {
        assert_eq!(pool.piece_defs[p.type_idx as usize].cells.len(), s as usize);
    }
    let total: usize = sizes.iter().map(|&s| s as usize).sum();
    assert_eq!(pool.total_cells(), total);
}

#[test]
fn pool_definitions_have_distinct_canonical_bitmaps() {
    let catalog = PolyominoCatalog::enumerate(6);
    for seed in 0..30 {
        let pool = pool_from_sizes(&catalog, &sample_sizes(), &mut make_rng(seed));
        let bitmaps: HashSet<Vec<u8>> = pool.piece_defs.iter().map(canonical_bitmap).collect();
        assert_eq!(bitmaps.len(), pool.piece_defs.len());
    }
}

#[test]
fn pool_pieces_point_at_their_definitions() {
    let catalog = PolyominoCatalog::enumerate(6);
    for seed in 0..30 {
        let pool = pool_from_sizes(&catalog, &sample_sizes(), &mut make_rng(seed));
        for (k, d) in pool.piece_defs.iter().enumerate() {
            assert_eq!(d.id, format!("def_{k}"));
            assert!(d.mark_index < d.cells.len());
        }
        for p in &pool.pieces {
            let ti = p.type_idx as usize;
            assert!(ti < pool.piece_defs.len());
            assert_eq!(p.def_id, pool.piece_defs[ti].id);
        }
    }
}

#[test]
fn pool_is_deterministic_per_seed() {
    let catalog = PolyominoCatalog::enumerate(6);
    let a = pool_from_sizes(&catalog, &sample_sizes(), &mut make_rng(123));
    let b = pool_from_sizes(&catalog, &sample_sizes(), &mut make_rng(123));
    assert_eq!(a.pieces.len(), b.pieces.len());
    assert_eq!(a.piece_defs.len(), b.piece_defs.len());
    for (x, y) in a.pieces.iter().zip(&b.pieces) {
        assert_eq!(x.type_idx, y.type_idx);
        assert_eq!(x.def_id, y.def_id);
    }
    for (x, y) in a.piece_defs.iter().zip(&b.piece_defs) {
        assert_eq!(x.cells, y.cells);
        assert_eq!(x.mark_index, y.mark_index);
    }
}

#[test]
fn pool_skips_sizes_without_shapes() {
    let catalog = PolyominoCatalog::enumerate(3);
    let pool = pool_from_sizes(&catalog, &vec![0, 3, 0, 1], &mut make_rng(5));
    assert_eq!(pool.pieces.len(), 2);
    assert_eq!(pool.total_cells(), 4);
}

// ─── target cells ───

#[test]
fn target_selection_has_exact_size_and_includes_centers() {
    let board = UnionBoard::new();
    let board_set: HashSet<Coord> = board.all_cells.iter().copied().collect();
    for seed in 0..20 {
        for &total in &[80usize, 150, 200, 215] {
            for centers in 1..=4 {
                let t = select_target_cells(&board, total, centers, &mut make_rng(seed));
                assert_eq!(t.all_cells.len(), total);
                assert_eq!(t.center_cells.len(), centers);
                let unique: HashSet<Coord> = t.all_cells.iter().copied().collect();
                assert_eq!(unique.len(), total);
                for c in &t.center_cells {
                    assert!(board.center_cells.contains(c));
                    assert!(t.all_cells.contains(c));
                }
                for c in &t.all_cells {
                    assert!(board_set.contains(c));
                }
                let mut sorted = t.all_cells.clone();
                sorted.sort();
                assert_eq!(sorted, t.all_cells);
            }
        }
    }
}

#[test]
fn target_selection_of_whole_board_and_of_centers_only() {
    let board = UnionBoard::new();
    let t = select_target_cells(&board, 440, 2, &mut make_rng(9));
    assert_eq!(t.all_cells, board.all_cells);
    let t = select_target_cells(&board, 1, 3, &mut make_rng(9));
    assert_eq!(t.all_cells.len(), 3);
    assert_eq!(t.all_cells, t.center_cells);
}

#[test]
fn target_selection_is_deterministic_per_seed() {
    let board = UnionBoard::new();
    let a = select_target_cells(&board, 200, 2, &mut make_rng(123));
    let b = select_target_cells(&board, 200, 2, &mut make_rng(123));
    assert_eq!(a.all_cells, b.all_cells);
    assert_eq!(a.center_cells, b.center_cells);
}

// ─── instances ───

#[test]
fn instance_from_pool_round_trips_through_solver_parse() {
    let board = UnionBoard::new();
    let catalog = PolyominoCatalog::enumerate(6);
    for seed in 0..10 {
        let mut rng = make_rng(seed);
        let pool = pool_from_sizes(&catalog, &sample_sizes(), &mut rng);
        let input = instance_from_pool(&board, &pool, 2, &mut rng);
        assert_eq!(input.target_cells.len(), pool.total_cells());
        let target = input.parse_target_cells().expect("target keys parse");
        let centers = input.common.parse_center_cells().expect("center keys parse");
        for c in &centers {
            assert!(target.contains(c));
        }
        let defs = input.common.piece_defs_map();
        let ids: HashSet<u16> = input.common.pieces.iter().map(|p| p.index).collect();
        assert_eq!(ids.len(), input.common.pieces.len());
        let mut total = 0;
        for p in &input.common.pieces {
            let d = defs.get(&p.def_id).expect("piece references a known definition");
            total += d.cells.len();
        }
        assert_eq!(total, input.target_cells.len());
    }
}

#[test]
fn instance_keys_are_written_as_row_comma_col() {
    let board = UnionBoard::new();
    let catalog = PolyominoCatalog::enumerate(2);
    let pool = pool_from_sizes(&catalog, &vec![1], &mut make_rng(1));
    let input = instance_from_pool(&board, &pool, 1, &mut make_rng(1));
    assert_eq!(input.target_cells.len(), 1);
    assert_eq!(input.target_cells, input.common.center_cells);
    let key = &input.target_cells[0];
    assert!(["9,10", "9,11", "10,10", "10,11"].contains(&key.as_str()));
    assert_eq!(input.common.piece_defs[0].0, "def_0");
    assert_eq!(input.common.pieces[0].def_id, "def_0");
}
