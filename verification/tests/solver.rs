use std::collections::HashSet;
use std::sync::atomic::AtomicI32;

use maplestory_union_solver_wasm::base::bitset::BitSet;
use maplestory_union_solver_wasm::domain::piece::Coord;
use maplestory_union_solver_wasm::domain::placement::Placement;
use maplestory_union_solver_wasm::solver::context::{SolveContext, input_acceptable};
use maplestory_union_solver_wasm::solver::pruning::{
    IslandWorkspace, TypeGroup, island_check, neighbor_check, parity_check,
};
use maplestory_union_solver_wasm::solver::search::{BacktrackEnv, undo_cascade};
use maplestory_union_solver_wasm::solver::state::SearchState;
use maplestory_union_solver_wasm::{
    CancelFlag, ExactCoverInput, PieceDefJson, PieceInstanceJson, SolveOptions, SolverError,
    SolverInput, SolverStats, solve_exact_cover,
};

fn make_placement(type_idx: u16, cells: &[u16], b_count: u8, mark_on_center: bool) -> Placement {
    let mut bits = BitSet::new();
    for &i in cells {
        bits.set(i as usize);
    }
    Placement {
        type_idx,
        bits,
        neighbor_bits: BitSet::new(),
        neighbor_indices: Vec::new(),
        b_count,
        mark_on_center,
        cell_indices: cells.to_vec(),
        mark: (0, 0),
        cells: cells.iter().map(|&i| (0, i as i8)).collect::<Vec<Coord>>(),
    }
}

fn make_test_placement(type_idx: u16, mark_on_center: bool, cells: &[u16]) -> Placement {
    make_placement(type_idx, cells, 0, mark_on_center)
}

// ─── state ───

#[test]
fn new_state_is_empty() {
    let state = SearchState::new(vec![3, 5], 2);
    assert!(state.covered.is_empty());
    assert_eq!(state.remaining, vec![3, 5]);
    assert_eq!(state.covered_count, 0);
    assert_eq!(state.covered_black, 0);
    assert!(!state.has_center_mark);
    assert_eq!(state.center_mark_type_remaining, 2);
    assert!(state.result.is_empty());
}

#[test]
fn apply_and_undo_restores_state() {
    let mut state = SearchState::new(vec![2, 1], 1);
    let pl = make_test_placement(0, false, &[5, 6, 7]);

    let snapshot = (
        state.covered,
        state.remaining.clone(),
        state.covered_count,
        state.has_center_mark,
        state.center_mark_type_remaining,
        state.result.clone(),
    );

    let undo = state.apply_placement(&pl, 42, false);
    assert_eq!(state.covered_count, 3);
    assert_eq!(state.remaining[0], 1);
    assert_eq!(state.result, vec![42]);
    assert!(state.covered.test(5));

    state.undo_placement(&pl, undo);
    assert_eq!(state.covered, snapshot.0);
    assert_eq!(state.remaining, snapshot.1);
    assert_eq!(state.covered_count, snapshot.2);
    assert_eq!(state.has_center_mark, snapshot.3);
    assert_eq!(state.center_mark_type_remaining, snapshot.4);
    assert_eq!(state.result, snapshot.5);
}

#[test]
fn apply_with_center_mark_flips_flag() {
    let mut state = SearchState::new(vec![1], 1);
    let pl = make_test_placement(0, true, &[10]);

    let undo = state.apply_placement(&pl, 0, false);
    assert!(state.has_center_mark);

    state.undo_placement(&pl, undo);
    assert!(!state.has_center_mark);
}

#[test]
fn nested_apply_undo_works() {
    let mut state = SearchState::new(vec![3], 1);
    let pl1 = make_test_placement(0, false, &[0, 1]);
    let pl2 = make_test_placement(0, true, &[2, 3]);

    let u1 = state.apply_placement(&pl1, 0, false);
    let u2 = state.apply_placement(&pl2, 1, false);

    assert_eq!(state.covered_count, 4);
    assert_eq!(state.remaining[0], 1);
    assert!(state.has_center_mark);
    assert_eq!(state.result, vec![0, 1]);

    state.undo_placement(&pl2, u2);
    assert_eq!(state.covered_count, 2);
    assert!(!state.has_center_mark);
    assert_eq!(state.result, vec![0]);

    state.undo_placement(&pl1, u1);
    assert_eq!(state.covered_count, 0);
    assert_eq!(state.remaining[0], 3);
    assert!(state.result.is_empty());
}

#[test]
fn center_mark_type_drop_decrements_and_restores() {
    let mut state = SearchState::new(vec![1, 2], 2);
    let pl = make_test_placement(0, false, &[0]);

    let undo = state.apply_placement(&pl, 0, true);
    assert_eq!(state.center_mark_type_remaining, 1);

    state.undo_placement(&pl, undo);
    assert_eq!(state.center_mark_type_remaining, 2);
}

#[test]
fn center_mark_unreachable_detects_dead_state() {
    let mut state = SearchState::new(vec![1], 0);
    assert!(state.center_mark_unreachable());

    state.has_center_mark = true;
    assert!(!state.center_mark_unreachable());

    state.has_center_mark = false;
    state.center_mark_type_remaining = 1;
    assert!(!state.center_mark_unreachable());
}

#[test]
fn reset_clears_all_mutable_fields() {
    let mut state = SearchState::new(vec![2, 1], 2);
    let pl = make_test_placement(0, true, &[5, 6]);
    let _ = state.apply_placement(&pl, 0, true);

    state.reset(&[2, 1], 2);
    assert!(state.covered.is_empty());
    assert_eq!(state.remaining, vec![2, 1]);
    assert_eq!(state.covered_count, 0);
    assert!(!state.has_center_mark);
    assert_eq!(state.center_mark_type_remaining, 2);
    assert!(state.result.is_empty());
}

#[test]
fn is_fully_covered_compares_count() {
    let mut state = SearchState::new(vec![2], 1);
    assert!(!state.is_fully_covered(5));

    let pl = make_test_placement(0, false, &[0, 1, 2, 3, 4]);
    let _ = state.apply_placement(&pl, 0, false);
    assert!(state.is_fully_covered(5));
    assert!(!state.is_fully_covered(6));
}

#[test]
fn apply_counts_black_cells_and_undo_removes_them() {
    let mut state = SearchState::new(vec![1], 0);
    let pl = make_placement(0, &[1, 2, 3], 2, false);
    let undo = state.apply_placement(&pl, 5, false);
    assert_eq!(state.covered_black, 2);
    state.undo_placement(&pl, undo);
    assert_eq!(state.covered_black, 0);
}

// ─── pruning ───

#[test]
fn parity_check_passes_with_room_to_spare() {
    let state = SearchState::new(vec![2], 1);

    assert!(!parity_check(&state, 5, 5, &[1], &[2]));
}

#[test]
fn parity_check_passes_when_in_range() {
    let state = SearchState::new(vec![2], 1);

    assert!(parity_check(&state, 3, 3, &[1], &[2]));
}

#[test]
fn parity_check_rejects_too_few_black_pieces() {
    let state = SearchState::new(vec![2], 1);

    assert!(!parity_check(&state, 5, 1, &[1], &[2]));
}

fn make_chain_adj(n: usize) -> Vec<Vec<u16>> {
    (0..n)
        .map(|i| {
            let mut nb = vec![];
            if i > 0 {
                nb.push((i - 1) as u16);
            }
            if i < n - 1 {
                nb.push((i + 1) as u16);
            }
            nb
        })
        .collect()
}

#[test]
fn island_check_trivially_passes_when_nothing_covered() {
    let state = SearchState::new(vec![1], 1);

    let adj = make_chain_adj(10);
    let mut ws = IslandWorkspace::new(10);

    assert!(island_check(&state, &adj, &[3], 10, &mut ws));
}

#[test]
fn island_check_detects_unreachable_subset_sum() {
    let mut state = SearchState::new(vec![1, 1], 0);
    let pl = make_placement(0, &[3], 0, false);
    let _ = state.apply_placement(&pl, 0, false);

    let adj = make_chain_adj(6);
    let mut ws = IslandWorkspace::new(6);

    assert!(!island_check(&state, &adj, &[3, 1], 6, &mut ws));
}

#[test]
fn island_check_passes_when_subset_sums_match() {
    let mut state = SearchState::new(vec![1, 1], 0);
    state.covered.set(3);
    state.covered_count = 1;

    let adj = make_chain_adj(6);
    let mut ws = IslandWorkspace::new(6);

    assert!(island_check(&state, &adj, &[3, 2], 6, &mut ws));
}

#[test]
fn island_check_rejects_component_smaller_than_minimum_piece() {
    let mut state = SearchState::new(vec![2], 0);
    let pl1 = make_placement(0, &[0, 1], 0, false);
    let pl2 = make_placement(0, &[4], 0, false);
    let _ = state.apply_placement(&pl1, 0, false);
    let _ = state.apply_placement(&pl2, 1, false);

    let adj = make_chain_adj(5);
    let mut ws = IslandWorkspace::new(5);

    assert!(!island_check(&state, &adj, &[3], 5, &mut ws));
}

fn make_placement_with_neighbors(cells: &[u16], neighbors: &[u16]) -> Placement {
    let mut p = make_placement(0, cells, 0, false);
    p.neighbor_indices = neighbors.to_vec();
    for &n in neighbors {
        p.neighbor_bits.set(n as usize);
    }
    p
}

fn singleton_group(type_idx: u16, placement_idx: u32) -> TypeGroup {
    TypeGroup { type_idx, placements: vec![placement_idx] }
}

#[test]
fn neighbor_check_passes_when_neighbors_have_coverings() {
    let state = SearchState::new(vec![1], 1);
    let pl = make_placement_with_neighbors(&[10], &[5]);
    let other_placement = make_placement(0, &[5, 6], 0, false);
    let placements = vec![pl.clone(), other_placement];
    let cell_pl_by_type: Vec<Vec<TypeGroup>> = vec![
        vec![],
        vec![],
        vec![],
        vec![],
        vec![],
        vec![singleton_group(0, 1)],
        vec![singleton_group(0, 1)],
        vec![],
        vec![],
        vec![],
        vec![singleton_group(0, 0)],
    ];

    assert!(neighbor_check(&pl, &state, &cell_pl_by_type, &placements));
}

#[test]
fn neighbor_check_fails_when_neighbor_has_no_remaining_coverings() {
    let mut state = SearchState::new(vec![0], 0);
    state.remaining[0] = 0;

    let pl = make_placement_with_neighbors(&[10], &[5]);
    let other = make_placement(0, &[5], 0, false);
    let placements = vec![pl.clone(), other];
    let cell_pl_by_type: Vec<Vec<TypeGroup>> = vec![
        vec![],
        vec![],
        vec![],
        vec![],
        vec![],
        vec![singleton_group(0, 1)],
        vec![],
        vec![],
        vec![],
        vec![],
        vec![singleton_group(0, 0)],
    ];

    assert!(!neighbor_check(&pl, &state, &cell_pl_by_type, &placements));
}

#[test]
fn neighbor_check_skips_already_covered_neighbors() {
    let mut state = SearchState::new(vec![0], 0);
    state.covered.set(5);

    let pl = make_placement_with_neighbors(&[10], &[5]);
    let placements = vec![pl.clone()];
    let cell_to_placements: Vec<Vec<TypeGroup>> = vec![
        vec![],
        vec![],
        vec![],
        vec![],
        vec![],
        vec![],
        vec![],
        vec![],
        vec![],
        vec![],
        vec![],
    ];

    assert!(neighbor_check(&pl, &state, &cell_to_placements, &placements));
}

#[test]
fn neighbor_check_fails_when_only_covering_overlaps_covered_cells() {
    let mut state = SearchState::new(vec![1], 0);
    state.covered.set(6);
    let pl = make_placement_with_neighbors(&[10], &[5]);
    let other = make_placement(0, &[5, 6], 0, false);
    let placements = vec![pl.clone(), other];
    let mut cell_pl_by_type: Vec<Vec<TypeGroup>> = (0..11).map(|_| Vec::new()).collect();
    cell_pl_by_type[5] = vec![singleton_group(0, 1)];

    assert!(!neighbor_check(&pl, &state, &cell_pl_by_type, &placements));
}

// ─── exact cover ───

fn make_2x2_input() -> ExactCoverInput {
    ExactCoverInput {
        target_cells: vec![
            "0,0".to_string(),
            "0,1".to_string(),
            "1,0".to_string(),
            "1,1".to_string(),
        ],
        common: SolverInput {
            pieces: vec![PieceInstanceJson { def_id: "square".to_string(), index: 0 }],
            piece_defs: vec![(
                "square".to_string(),
                PieceDefJson {
                    id: "square".to_string(),
                    cells: vec![(0, 0), (0, 1), (1, 0), (1, 1)],
                    mark_index: 0,
                },
            )],
            center_cells: vec!["0,0".to_string()],
        },
    }
}

fn build_ok(input: &ExactCoverInput) -> SolveContext {
    match SolveContext::build(input) {
        Ok(ctx) => ctx,
        Err(e) => panic!("context should build: {e:?}"),
    }
}

#[test]
fn build_context_succeeds_for_well_formed_input() {
    let input = make_2x2_input();
    let ctx = build_ok(&input);

    assert_eq!(ctx.total_cells, 4);
    assert_eq!(ctx.type_ids, vec!["square".to_string()]);
    assert_eq!(ctx.type_counts, vec![1]);
    assert_eq!(ctx.size_of_type, vec![4]);

    assert_eq!(ctx.total_black, 2);
    assert_eq!(ctx.total_white, 2);

    assert_eq!(ctx.type_min_black, vec![2]);
    assert_eq!(ctx.type_max_black, vec![2]);

    assert_eq!(ctx.placements.len(), 1);
    assert_eq!(ctx.center_mark_counts, vec![1]);
}

#[test]
fn build_rejects_piece_cell_mismatch() {
    let mut input = make_2x2_input();
    input.common.pieces.push(PieceInstanceJson { def_id: "square".to_string(), index: 1 });

    let result = SolveContext::build(&input);

    assert!(matches!(result, Err(SolverError::PieceCellMismatch { .. })));
}

#[test]
fn build_rejects_no_center_mark_possible() {
    let mut input = make_2x2_input();
    input.common.center_cells = vec!["99,99".to_string()];

    let result = SolveContext::build(&input);

    assert!(matches!(result, Err(SolverError::NoCenterMarkPossible)));
}

#[test]
fn build_rejects_unknown_piece_def() {
    let mut input = make_2x2_input();
    input.common.pieces[0].def_id = "missing".to_string();
    let result = SolveContext::build(&input);
    assert!(matches!(result, Err(SolverError::UnknownPieceDef { .. })));
}

#[test]
fn build_rejects_malformed_target_key() {
    let mut input = make_2x2_input();
    input.target_cells[2] = "1;0".to_string();
    let result = SolveContext::build(&input);
    assert!(matches!(result, Err(SolverError::Json(_))));
}

#[test]
fn build_rejects_oversized_board() {
    let mut input = make_2x2_input();
    input.target_cells =
        (0..15).flat_map(|r| (0..16).map(move |c| format!("{r},{c}"))).collect();
    let result = SolveContext::build(&input);
    assert!(matches!(result, Err(SolverError::BoardTooLarge { actual: 240, capacity: 224 })));
}

#[test]
fn initial_center_mark_type_remaining_counts_correctly() {
    let input = make_2x2_input();
    let ctx = build_ok(&input);

    assert_eq!(ctx.initial_center_mark_type_remaining(), 1);
}

fn solve_ok(
    input: &ExactCoverInput,
    options: SolveOptions,
    cancel: Option<&CancelFlag>,
) -> maplestory_union_solver_wasm::ExactCoverResult {
    match solve_exact_cover(input, options, cancel) {
        Ok(r) => r,
        Err(e) => panic!("solver should not error: {e:?}"),
    }
}

#[test]
fn solve_2x2_finds_unique_solution() {
    let input = make_2x2_input();
    let options = SolveOptions { seed: Some(42), ..Default::default() };
    let result = solve_ok(&input, options, None);

    assert!(result.solution.is_some(), "expected a solution");

    let sol = result.solution.unwrap();

    assert_eq!(sol.len(), 1);
    assert_eq!(sol[0].piece.def_id, "square");
    assert_eq!(sol[0].cells.len(), 4);

    assert_eq!(sol[0].mark, (0, 0));

    assert!(result.stats.common.node_count >= 1);
    assert_eq!(result.stats.common.timed_out, false);
    assert_eq!(result.stats.common.cancelled, false);
    assert_eq!(result.stats.common.seed, 42);
}

#[test]
fn solve_with_two_pieces_finds_solution() {
    let input = ExactCoverInput {
        target_cells: vec![
            "0,0".to_string(),
            "0,1".to_string(),
            "1,0".to_string(),
            "1,1".to_string(),
        ],
        common: SolverInput {
            pieces: vec![
                PieceInstanceJson { def_id: "domino".to_string(), index: 0 },
                PieceInstanceJson { def_id: "domino".to_string(), index: 1 },
            ],
            piece_defs: vec![(
                "domino".to_string(),
                PieceDefJson {
                    id: "domino".to_string(),
                    cells: vec![(0, 0), (0, 1)],
                    mark_index: 0,
                },
            )],
            center_cells: vec!["0,0".to_string()],
        },
    };

    let options = SolveOptions { seed: Some(7), ..Default::default() };
    let result = solve_ok(&input, options, None);

    assert!(result.solution.is_some());

    let sol = result.solution.unwrap();

    assert_eq!(sol.len(), 2);

    let mut covered = HashSet::new();
    for placement in &sol {
        for &cell in &placement.cells {
            assert!(covered.insert(cell), "cell {cell:?} covered twice");
        }
    }

    assert_eq!(covered.len(), 4);
    assert!(sol.iter().any(|p| p.mark == (0, 0)));
}

#[test]
fn solve_with_pre_set_cancel_flag_returns_cancelled() {
    let input = make_2x2_input();
    let flag = AtomicI32::new(1);
    let cancel = CancelFlag::new(&flag);

    let result = solve_ok(&input, SolveOptions::default(), Some(&cancel));

    assert!(result.solution.is_none(), "should not solve when cancelled before start");
    assert!(result.stats.common.cancelled);
    assert!(!result.stats.common.timed_out, "cancel takes priority over timeout");
}

#[test]
fn solve_with_unset_cancel_flag_completes_normally() {
    let input = make_2x2_input();
    let flag = AtomicI32::new(0);
    let cancel = CancelFlag::new(&flag);

    let result = solve_ok(&input, SolveOptions::default(), Some(&cancel));

    assert!(result.solution.is_some());
    assert!(!result.stats.common.cancelled);
}

#[test]
fn solve_with_no_cancel_param_completes_normally() {
    let input = make_2x2_input();
    let result = solve_ok(&input, SolveOptions::default(), None);

    assert!(result.solution.is_some());
    assert!(!result.stats.common.cancelled);
}

#[test]
fn solve_returns_valid_result_for_trivial_input() {
    let input = make_2x2_input();
    let options = SolveOptions { seed: Some(1), ..Default::default() };

    let result = solve_ok(&input, options, None);

    assert!(result.solution.is_some(), "trivial input should be solved");
    let solution = result.solution.unwrap();
    assert_eq!(solution.len(), 1);
    assert_eq!(solution[0].piece.def_id, "square");
}

#[test]
fn solve_records_seed_in_stats() {
    let input = make_2x2_input();
    let options = SolveOptions { seed: Some(0xDEADBEEF), ..Default::default() };

    let result = solve_ok(&input, options, None);
    assert_eq!(result.stats.common.seed, 0xDEADBEEF);
}

#[test]
fn solve_with_default_options_works() {
    let input = make_2x2_input();
    let result = solve_ok(&input, SolveOptions::default(), None);
    assert!(result.solution.is_some());
}

#[test]
fn solver_stats_has_all_expected_fields() {
    let input = make_2x2_input();
    let result = solve_ok(&input, SolveOptions::default(), None);
    let stats: &SolverStats = &result.stats.common;

    let _ = stats.node_count;
    let _ = stats.restarts;
    let _ = stats.unit_propagations;
    let _ = stats.island_prunes;
    let _ = stats.dead_cell_prunes;
    let _ = stats.neighbor_prunes;
    let _ = stats.parity_prunes;
    let _ = stats.seed;
    let _ = stats.timed_out;
    let _ = stats.elapsed_ms;
    let _ = stats.cancelled;
}

#[test]
fn no_cancel_flag_means_solve_completes() {
    let input = make_2x2_input();
    let result = solve_ok(&input, SolveOptions::default(), None);

    assert!(result.solution.is_some());
    assert!(!result.stats.common.cancelled);
}

#[test]
fn solve_reports_setup_errors() {
    let mut input = make_2x2_input();
    input.common.center_cells = vec!["5,5".to_string()];
    assert!(matches!(
        solve_exact_cover(&input, SolveOptions::default(), None),
        Err(SolverError::NoCenterMarkPossible)
    ));
}

#[test]
fn solve_finds_exact_cover_of_l_shaped_board() {
    let input = ExactCoverInput {
        target_cells: ["0,0", "1,0", "2,0", "2,1", "0,1", "0,2", "1,2", "2,2"]
            .iter()
            .map(|s| s.to_string())
            .collect(),
        common: SolverInput {
            pieces: vec![
                PieceInstanceJson { def_id: "L".to_string(), index: 0 },
                PieceInstanceJson { def_id: "L".to_string(), index: 1 },
            ],
            piece_defs: vec![(
                "L".to_string(),
                PieceDefJson {
                    id: "L".to_string(),
                    cells: vec![(0, 0), (1, 0), (2, 0), (2, 1)],
                    mark_index: 0,
                },
            )],
            center_cells: vec!["0,0".to_string(), "2,2".to_string()],
        },
    };
    let result = solve_ok(&input, SolveOptions { seed: Some(3), ..Default::default() }, None);
    let sol = result.solution.expect("the ring minus its center splits into two L pieces");
    let mut covered = HashSet::new();
    for p in &sol {
        assert_eq!(p.cells.len(), 4);
        for &c in &p.cells {
            assert!(covered.insert(c));
        }
    }
    assert_eq!(covered.len(), 8);
    let indices: HashSet<u16> = sol.iter().map(|p| p.piece.index).collect();
    assert_eq!(indices.len(), 2);
}

#[test]
fn malformed_definition_is_reported_after_the_cell_count_check() {
    // A definition with a repeated cell and too few cells: the cell-count
    // check refuses the input before the definition matters.
    let mut input = make_2x2_input();
    input.common.piece_defs[0].1.cells = vec![(0, 0), (0, 0)];
    assert!(input_acceptable(&input));
    match SolveContext::build(&input) {
        Err(SolverError::PieceCellMismatch { piece_cells, target_cells }) => {
            assert_eq!(piece_cells, 2);
            assert_eq!(target_cells, 4);
        },
        other => panic!("expected a cell-count mismatch, got {:?}", other.err()),
    }
    // The same definition under an unknown id: the missing definition is reported.
    let mut input2 = make_2x2_input();
    input2.common.piece_defs[0].1.cells = vec![];
    input2.common.pieces[0].def_id = "other".to_string();
    assert!(input_acceptable(&input2));
    assert!(matches!(SolveContext::build(&input2), Err(SolverError::UnknownPieceDef { .. })));
    // A definition that passes both checks but repeats a cell is refused.
    let mut input3 = make_2x2_input();
    input3.common.piece_defs[0].1.cells = vec![(0, 0), (0, 1), (1, 0), (0, 0)];
    assert!(!input_acceptable(&input3));
}

#[test]
fn solve_counts_at_least_one_node() {
    let input = make_2x2_input();
    let options = SolveOptions { seed: Some(42), ..Default::default() };
    let r = solve_exact_cover(&input, options, None).unwrap();
    assert!(r.stats.common.node_count >= 1);
    assert!(r.solution.is_some());
}

#[test]
fn undo_cascade_restores_the_state_before_the_cascade() {
    let mut input = make_2x2_input();
    input.common.pieces = vec![
        PieceInstanceJson { def_id: "domino".to_string(), index: 0 },
        PieceInstanceJson { def_id: "domino".to_string(), index: 1 },
    ];
    input.common.piece_defs = vec![(
        "domino".to_string(),
        PieceDefJson { id: "domino".to_string(), cells: vec![(0, 0), (0, 1)], mark_index: 0 },
    )];
    let ctx = build_ok(&input);
    let mut env = BacktrackEnv::new(&ctx);
    let remaining0 = env.state.remaining.clone();
    let cmtr0 = env.state.center_mark_type_remaining;
    // Two placements with disjoint cells.
    let p0 = 0usize;
    let p1 = (1..ctx.placements.len())
        .find(|&p| !ctx.placements[p].bits.has_overlap(&ctx.placements[p0].bits))
        .expect("a second placement fits beside the first");
    for p in [p0, p1] {
        let pl = &ctx.placements[p];
        let t = pl.type_idx as usize;
        let drop = env.state.remaining[t] == 1 && ctx.center_mark_counts[t] > 0;
        env.state.apply_placement(pl, p, drop);
    }
    assert_eq!(env.state.covered_count, 4);
    undo_cascade(&ctx, &mut env, 2);
    assert!(env.state.result.is_empty());
    assert_eq!(env.state.covered_count, 0);
    assert_eq!(env.state.covered_black, 0);
    assert_eq!(env.state.remaining, remaining0);
    assert!(!env.state.has_center_mark);
    assert_eq!(env.state.center_mark_type_remaining, cmtr0);
    assert_eq!(env.state.covered.count_ones(), 0);
}

#[test]
fn connected_shapes_get_a_solution_without_timeout_or_cancel() {
    // An L of three cells and a single cell tile a 2x2 square; the single
    // cell must stand on the center so that a mark lands there.
    let input = ExactCoverInput {
        target_cells: vec![
            "0,0".to_string(),
            "0,1".to_string(),
            "1,0".to_string(),
            "1,1".to_string(),
        ],
        common: SolverInput {
            pieces: vec![
                PieceInstanceJson { def_id: "ell".to_string(), index: 0 },
                PieceInstanceJson { def_id: "dot".to_string(), index: 1 },
            ],
            piece_defs: vec![
                (
                    "ell".to_string(),
                    PieceDefJson { id: "ell".to_string(), cells: vec![(0, 0), (1, 0), (1, 1)], mark_index: 0 },
                ),
                ("dot".to_string(), PieceDefJson { id: "dot".to_string(), cells: vec![(0, 0)], mark_index: 0 }),
            ],
            center_cells: vec!["1,1".to_string()],
        },
    };

    let options = SolveOptions { seed: Some(11), ..Default::default() };
    let result = solve_ok(&input, options, None);
    let sol = result.solution.expect("a connected puzzle with a solution is solved");
    assert!(!result.stats.common.timed_out && !result.stats.common.cancelled);
    assert_eq!(sol.len(), 2);
    let mut covered = HashSet::new();
    for placement in &sol {
        for &cell in &placement.cells {
            assert!(covered.insert(cell), "cell {cell:?} covered twice");
        }
    }
    assert_eq!(covered.len(), 4);
    assert!(sol.iter().any(|p| p.mark == (1, 1)));
}
