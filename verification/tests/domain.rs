use maplestory_union_solver_wasm::base::bitset::BitSet;
use maplestory_union_solver_wasm::domain::defs::PieceDefMap;
use maplestory_union_solver_wasm::domain::enumerate::{
    BoardLayout, PieceInstance, enumerate_all_placements,
};
use maplestory_union_solver_wasm::domain::piece::{
    Coord, PieceDef, all_variants, normalize, rotate90,
};
use maplestory_union_solver_wasm::domain::placement::Placement;
use maplestory_union_solver_wasm::error::SolverError;

// ─── piece ───

#[test]
fn single_cell_piece_has_one_variant() {
    let def = PieceDef { id: "1x1".to_string(), cells: vec![(0, 0)], mark_index: 0 };
    let variants = all_variants(&def);

    assert_eq!(variants.len(), 1);
    assert_eq!(variants[0].cells, vec![(0, 0)]);
    assert_eq!(variants[0].mark, (0, 0));
}

#[test]
fn square_piece_has_one_variant() {
    let def = PieceDef {
        id: "2x2".to_string(),
        cells: vec![(0, 0), (0, 1), (1, 0), (1, 1)],
        mark_index: 0,
    };
    let variants = all_variants(&def);
    assert_eq!(variants.len(), 1);
}

#[test]
fn horizontal_bar_has_two_variants() {
    let def = PieceDef { id: "1x3".to_string(), cells: vec![(0, 0), (0, 1), (0, 2)], mark_index: 1 };
    let variants = all_variants(&def);
    assert_eq!(variants.len(), 2);

    for v in &variants {
        let min_r = v.cells.iter().map(|&(r, _)| r).min().unwrap();
        let min_c = v.cells.iter().map(|&(_, c)| c).min().unwrap();
        assert_eq!(min_r, 0);
        assert_eq!(min_c, 0);
    }
}

#[test]
fn l_tetromino_has_eight_variants() {
    let def = PieceDef {
        id: "L".to_string(),
        cells: vec![(0, 0), (1, 0), (2, 0), (2, 1)],
        mark_index: 0,
    };
    let variants = all_variants(&def);
    assert_eq!(variants.len(), 8);
}

#[test]
fn t_tetromino_has_four_variants() {
    let def = PieceDef {
        id: "T".to_string(),
        cells: vec![(0, 0), (0, 1), (0, 2), (1, 1)],
        mark_index: 1,
    };
    let variants = all_variants(&def);
    assert_eq!(variants.len(), 4);
}

#[test]
fn mark_is_a_member_of_cells() {
    let def = PieceDef {
        id: "L".to_string(),
        cells: vec![(0, 0), (1, 0), (2, 0), (2, 1)],
        mark_index: 3,
    };
    let variants = all_variants(&def);
    for v in &variants {
        assert!(v.cells.contains(&v.mark), "mark {:?} not in cells {:?}", v.mark, v.cells);
    }
}

#[test]
fn all_variants_are_normalized() {
    let def = PieceDef {
        id: "L".to_string(),
        cells: vec![(0, 0), (1, 0), (2, 0), (2, 1)],
        mark_index: 0,
    };
    let variants = all_variants(&def);
    for v in &variants {
        let min_r = v.cells.iter().map(|&(r, _)| r).min().unwrap();
        let min_c = v.cells.iter().map(|&(_, c)| c).min().unwrap();
        assert_eq!(min_r, 0, "variant not normalized: {:?}", v.cells);
        assert_eq!(min_c, 0, "variant not normalized: {:?}", v.cells);
    }
}

#[test]
fn variant_cells_are_sorted() {
    let def = PieceDef {
        id: "L".to_string(),
        cells: vec![(0, 0), (1, 0), (2, 0), (2, 1)],
        mark_index: 0,
    };
    let variants = all_variants(&def);
    for v in &variants {
        let mut sorted = v.cells.clone();
        sorted.sort_unstable();
        assert_eq!(v.cells, sorted, "variant cells not sorted");
    }
}

#[test]
fn rotate90_four_times_is_identity_after_normalization() {
    let original = vec![(0_i8, 0_i8), (1, 0), (2, 0), (2, 1)];
    let mut current = original.clone();
    for _ in 0..4 {
        current = rotate90(&current);
    }
    let (a, _) = normalize(&original, (0, 0));
    let (b, _) = normalize(&current, (0, 0));
    assert_eq!(a, b);
}

#[test]
fn rotate90_maps_row_col_to_col_negated_row() {
    assert_eq!(rotate90(&[(1, 2), (-3, 0)]), vec![(2, -1), (0, 3)]);
}

#[test]
fn normalize_shifts_to_origin_and_sorts() {
    let (cells, mark) = normalize(&[(5, 3), (4, 4), (4, 3)], (5, 3));
    assert_eq!(cells, vec![(0, 0), (0, 1), (1, 0)]);
    assert_eq!(mark, (1, 0));
}

#[test]
fn variants_keep_first_met_order() {
    let def = PieceDef { id: "1x2".to_string(), cells: vec![(0, 0), (0, 1)], mark_index: 1 };
    let variants = all_variants(&def);
    assert_eq!(variants.len(), 2);
    assert_eq!(variants[0].cells, vec![(0, 0), (0, 1)]);
    assert_eq!(variants[0].mark, (0, 1));
    assert_eq!(variants[1].cells, vec![(0, 0), (1, 0)]);
}

// ─── piece definition map ───

#[test]
fn piece_def_map_insert_replaces_and_gets() {
    let mut m = PieceDefMap::new();
    assert!(!m.contains_key("a"));
    m.insert("a".to_string(), PieceDef { id: "a".to_string(), cells: vec![(0, 0)], mark_index: 0 });
    m.insert(
        "a".to_string(),
        PieceDef { id: "a".to_string(), cells: vec![(0, 0), (0, 1)], mark_index: 1 },
    );
    assert!(m.contains_key("a"));
    assert_eq!(m.get("a").unwrap().cells.len(), 2);
    assert!(m.get("b").is_none());
}

// ─── enumerate ───

fn make_3x3_board() -> BoardLayout {
    let cells: Vec<Coord> = (0..3).flat_map(|r| (0..3).map(move |c| (r, c))).collect();
    match BoardLayout::new(cells, vec![]) {
        Ok(b) => b,
        Err(_) => panic!("3x3 board fits"),
    }
}

fn single_def_map(id: &str, cells: Vec<Coord>, mark_index: usize) -> PieceDefMap {
    let mut piece_defs = PieceDefMap::new();
    piece_defs.insert(id.to_string(), PieceDef { id: id.to_string(), cells, mark_index });
    piece_defs
}

fn placements_of(
    pieces: &[PieceInstance],
    defs: &PieceDefMap,
    board: &BoardLayout,
) -> Vec<Placement> {
    match enumerate_all_placements(pieces, defs, board) {
        Ok(v) => v,
        Err(_) => panic!("definitions are known"),
    }
}

#[test]
fn single_cell_piece_on_3x3() {
    let board = make_3x3_board();
    let piece_defs = single_def_map("1x1", vec![(0, 0)], 0);
    let pieces = vec![PieceInstance { type_idx: 0, def_id: "1x1".to_string() }];

    let placements = placements_of(&pieces, &piece_defs, &board);
    assert_eq!(placements.len(), 9);
    for pl in &placements {
        assert_eq!(pl.size(), 1);
        assert_eq!(pl.b_count + (1 - pl.b_count), 1);
    }
}

#[test]
fn bar_piece_on_3x3() {
    let board = make_3x3_board();
    let piece_defs = single_def_map("bar", vec![(0, 0), (0, 1), (0, 2)], 1);
    let pieces = vec![PieceInstance { type_idx: 0, def_id: "bar".to_string() }];

    let placements = placements_of(&pieces, &piece_defs, &board);
    assert_eq!(placements.len(), 6);
    for pl in &placements {
        assert_eq!(pl.size(), 3);
    }
}

#[test]
fn off_board_placements_are_skipped() {
    let board = make_3x3_board();
    let piece_defs = single_def_map("L", vec![(0, 0), (1, 0), (2, 0), (2, 1)], 0);
    let pieces = vec![PieceInstance { type_idx: 0, def_id: "L".to_string() }];

    let placements = placements_of(&pieces, &piece_defs, &board);
    assert_eq!(placements.len(), 16);

    for pl in &placements {
        for &(r, c) in &pl.cells {
            assert!(
                (0..3).contains(&r) && (0..3).contains(&c),
                "placement cell {:?} is off-board",
                (r, c)
            );
        }
    }

    for pl in &placements {
        assert_eq!(pl.size(), 4);
    }
}

#[test]
fn mark_on_center_is_correctly_flagged() {
    let cells: Vec<Coord> = (0..3).flat_map(|r| (0..3).map(move |c| (r, c))).collect();
    let board = match BoardLayout::new(cells, vec![(1, 1)]) {
        Ok(b) => b,
        Err(_) => panic!("3x3 board fits"),
    };
    let piece_defs = single_def_map("1x1", vec![(0, 0)], 0);
    let pieces = vec![PieceInstance { type_idx: 0, def_id: "1x1".to_string() }];

    let placements = placements_of(&pieces, &piece_defs, &board);
    let center_count = placements.iter().filter(|p| p.mark_on_center).count();
    assert_eq!(center_count, 1);
}

#[test]
fn neighbor_bits_exclude_placement() {
    let board = make_3x3_board();
    let piece_defs = single_def_map("1x1", vec![(0, 0)], 0);
    let pieces = vec![PieceInstance { type_idx: 0, def_id: "1x1".to_string() }];

    let placements = placements_of(&pieces, &piece_defs, &board);

    for pl in &placements {
        for &idx in &pl.cell_indices {
            assert!(
                !pl.neighbor_bits.test(idx as usize),
                "placement cell {idx} should not be in neighbor_bits"
            );
        }
        let center_pl = pl.cells[0] == (1, 1);
        let on_edge = pl.cells[0].0 == 1 || pl.cells[0].1 == 1;
        let expected = if center_pl {
            4
        } else if on_edge {
            3
        } else {
            2
        };
        assert_eq!(
            pl.neighbor_bits.count_ones() as usize,
            expected,
            "wrong neighbor count for cell {:?}",
            pl.cells[0]
        );
        assert_eq!(pl.neighbor_indices.len(), expected);
    }
}

#[test]
fn unknown_piece_def_returns_error() {
    let board = make_3x3_board();
    let piece_defs = PieceDefMap::new();
    let pieces = vec![PieceInstance { type_idx: 0, def_id: "nonexistent".to_string() }];

    let result = enumerate_all_placements(&pieces, &piece_defs, &board);
    assert!(matches!(result, Err(SolverError::UnknownPieceDef { .. })));
}

#[test]
fn oversized_board_returns_error() {
    let cells: Vec<Coord> =
        (0..16).flat_map(|r| (0..15).map(move |c| (r as i8, c as i8))).collect();
    let result = BoardLayout::new(cells, vec![]);
    assert!(matches!(result, Err(SolverError::BoardTooLarge { actual: 240, capacity: 224 })));
}

#[test]
fn board_layout_colors_cells_like_a_checkerboard() {
    let cells: Vec<Coord> = vec![(0, 0), (0, 1), (-1, 0), (-3, -4)];
    let board = match BoardLayout::new(cells, vec![]) {
        Ok(b) => b,
        Err(_) => panic!("small board fits"),
    };
    assert_eq!(board.cell_color, vec![0, 1, 1, 1]);
    assert_eq!(board.lookup(-3, -4), Some(3));
    assert_eq!(board.lookup(5, 5), None);
}

#[test]
fn placements_follow_piece_then_variant_then_anchor_order() {
    let board = make_3x3_board();
    let piece_defs = single_def_map("1x1", vec![(0, 0)], 0);
    let pieces = vec![
        PieceInstance { type_idx: 0, def_id: "1x1".to_string() },
        PieceInstance { type_idx: 1, def_id: "1x1".to_string() },
    ];
    let placements = placements_of(&pieces, &piece_defs, &board);
    assert_eq!(placements.len(), 18);
    assert_eq!(placements[0].cells, vec![(0, 0)]);
    assert_eq!(placements[8].cells, vec![(2, 2)]);
    assert_eq!(placements[8].type_idx, 0);
    assert_eq!(placements[9].type_idx, 1);
}

// ─── placement ───

fn make_test_placement() -> Placement {
    let mut bits = BitSet::new();
    bits.set(10);
    bits.set(11);
    bits.set(12);
    let mut neighbor_bits = BitSet::new();
    neighbor_bits.set(9);
    neighbor_bits.set(13);

    Placement {
        type_idx: 0,
        bits,
        neighbor_bits,
        neighbor_indices: vec![9, 13],
        b_count: 2,
        mark_on_center: false,
        cell_indices: vec![10, 11, 12],
        mark: (1, 1),
        cells: vec![(1, 0), (1, 1), (1, 2)],
    }
}

#[test]
fn size_matches_cell_count() {
    let pl = make_test_placement();
    assert_eq!(pl.size(), 3);
    assert_eq!(pl.size(), pl.cells.len());
    assert_eq!(pl.size(), pl.bits.count_ones() as usize);
}

#[test]
fn placement_is_clonable() {
    let pl = make_test_placement();
    let pl2 = pl.clone();
    assert_eq!(pl.type_idx, pl2.type_idx);
    assert_eq!(pl.cell_indices, pl2.cell_indices);
    assert_eq!(pl.bits, pl2.bits);
}
