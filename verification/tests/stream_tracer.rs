use maplestory_union_solver_wasm::base::bitset::BitSet;
use maplestory_union_solver_wasm::domain::piece::Coord;
use maplestory_union_solver_wasm::domain::placement::Placement;
use maplestory_union_solver_wasm::ml::stream_tracer::{BranchEvent, Emission, Tracer};
use maplestory_union_solver_wasm::solver::state::SearchState;
use maplestory_union_solver_wasm::PieceDefJson;

fn placement(type_idx: u16, cells: &[u16], mark_on_center: bool) -> Placement {
    let mut bits = BitSet::new();
    for &i in cells {
        bits.set(i as usize);
    }
    Placement {
        type_idx,
        bits,
        neighbor_bits: BitSet::new(),
        neighbor_indices: Vec::new(),
        b_count: 0,
        mark_on_center,
        cell_indices: cells.to_vec(),
        mark: (0, 0),
        cells: cells.iter().map(|&i| (0, i as i8)).collect(),
    }
}

fn def_json(id: &str) -> (String, PieceDefJson) {
    (id.to_string(), PieceDefJson { id: id.to_string(), cells: vec![(0, 0)], mark_index: 0 })
}

fn new_tracer() -> Tracer {
    Tracer::new()
}

fn setup(t: &mut Tracer, type_ids: &[&str], def_ids: &[&str], board_cells: &[Coord], placements: &[Placement]) {
    let type_ids_owned: Vec<String> = type_ids.iter().map(|s| s.to_string()).collect();
    let defs: Vec<(String, PieceDefJson)> = def_ids.iter().map(|id| def_json(id)).collect();
    t.start_instance(&type_ids_owned, &defs, board_cells, placements);
}

/// The lines a writer would produce: the header (as `None`) before the
/// first record, then one line per record.
fn lines_of(emissions: &[Emission]) -> Vec<Option<u32>> {
    let mut lines = Vec::new();
    for e in emissions {
        if e.header_first {
            lines.push(None);
        }
        lines.push(Some(e.record.branch_id));
    }
    lines
}

#[test]
fn pre_state_empty_bitmap_marks_uncovered_board_cells_only() {
    let mut t = new_tracer();
    setup(&mut t, &["P0"], &["P0"], &[(2, 3), (5, 7), (1, 1)], &[]);

    let mut state = SearchState::new(vec![1], 0);
    state.covered.set(1);
    state.covered_count = 1;

    let pre = t.compute_pre_state(&state);

    let mut expected = [0u8; 28];
    expected[0] = 0b0000_0101;
    assert_eq!(pre.empty_bitmap, expected.to_vec());
}

#[test]
fn pre_state_center_mark_reflects_state_only_not_candidate() {
    let mut t = new_tracer();
    setup(&mut t, &["P0"], &["P0"], &[(0, 0)], &[]);

    let mut state = SearchState::new(vec![2], 0);
    assert!(!t.compute_pre_state(&state).center_mark);

    state.has_center_mark = true;
    assert!(t.compute_pre_state(&state).center_mark);
}

#[test]
fn pre_state_counts_are_raw_remaining_without_candidate_decrement() {
    let mut t = new_tracer();
    setup(&mut t, &["P0", "P1"], &["P0", "P1", "P2"], &[(0, 0)], &[]);

    let state = SearchState::new(vec![3, 2], 0);
    let pre = t.compute_pre_state(&state);
    assert_eq!(pre.counts, vec![3u8, 2, 0]);
}

#[test]
fn start_instance_builds_placement_table_with_def_idx_reverse_mapping() {
    let mut t = new_tracer();
    let placements = vec![placement(0, &[0], false), placement(1, &[1], true)];
    setup(&mut t, &["P0", "P1"], &["P0", "P1", "P2"], &[(0, 0), (0, 1)], &placements);

    assert_eq!(t.placements.len(), 2);
    assert_eq!(t.placements[0].piece_def_idx, 0);
    assert_eq!(t.placements[1].piece_def_idx, 1);
    assert!(t.placements[1].mark_on_center);
}

#[test]
fn nested_branches_emit_in_completion_order_with_correct_subtree_counts() {
    let mut t = new_tracer();
    t.set_instance_id("test".to_string());
    setup(&mut t, &["P0"], &["P0"], &[(0, 0)], &[]);
    let state = SearchState::new(vec![1], 0);

    t.on_branch(BranchEvent { candidates: &[10, 20], state: &state }, 100);
    t.on_branch(BranchEvent { candidates: &[30], state: &state }, 101);

    t.on_attempt(30, false, 105);
    let mut emitted: Vec<Emission> = Vec::new();
    emitted.extend(t.on_branch_complete());

    t.on_attempt(10, false, 105);
    t.on_attempt(20, false, 106);

    emitted.extend(t.on_branch_complete());
    emitted.extend(t.on_solve_complete(true));

    assert_eq!(lines_of(&emitted).len(), 3, "header + 2 branches");

    let b0 = &emitted[0].record;
    assert_eq!(b0.branch_id, 0);
    assert_eq!(b0.candidates.len(), 1);
    assert_eq!(b0.candidates[0].placement_idx, 30);
    assert_eq!(b0.candidates[0].subtree_nodes, 4);

    let b1 = &emitted[1].record;
    assert_eq!(b1.branch_id, 1);
    assert_eq!(b1.candidates.len(), 2);
    assert_eq!(b1.candidates[0].placement_idx, 10);
    assert_eq!(b1.candidates[0].subtree_nodes, 5);
    assert_eq!(b1.candidates[1].placement_idx, 20);
    assert_eq!(b1.candidates[1].subtree_nodes, 1);
}

#[test]
fn reset_for_restart_clears_in_flight_branches() {
    let mut t = new_tracer();
    setup(&mut t, &["P0"], &["P0"], &[(0, 0)], &[]);
    let state = SearchState::new(vec![1], 0);

    t.on_branch(BranchEvent { candidates: &[0], state: &state }, 100);
    t.on_branch(BranchEvent { candidates: &[1], state: &state }, 101);
    assert_eq!(t.pending_stack.len(), 2);

    t.reset_for_restart();
    assert!(
        t.pending_stack.is_empty(),
        "restart must clear the pending stack to prevent leaking abandoned-attempt state"
    );
}

#[test]
fn solve_complete_failure_clears_stack_without_emitting() {
    let mut t = new_tracer();
    t.set_instance_id("failed".to_string());
    setup(&mut t, &["P0"], &["P0"], &[(0, 0)], &[]);
    let state = SearchState::new(vec![1], 0);

    t.on_branch(BranchEvent { candidates: &[0], state: &state }, 0);
    t.on_attempt(0, false, 5);

    let out = t.on_solve_complete(false);
    assert!(t.pending_stack.is_empty());
    assert!(out.is_empty(), "failed instance must not emit (caller deletes the temp file)");
}

#[test]
fn solve_complete_success_drains_remaining_stack() {
    let mut t = new_tracer();
    t.set_instance_id("ok".to_string());
    setup(&mut t, &["P0"], &["P0"], &[(0, 0)], &[]);
    let state = SearchState::new(vec![1], 0);

    t.on_branch(BranchEvent { candidates: &[0], state: &state }, 100);
    t.on_attempt(0, true, 110);
    let out = t.on_solve_complete(true);

    assert_eq!(lines_of(&out).len(), 2, "header + 1 branch from drained stack");
}

#[test]
fn stream_solve_complete_writes_nothing_when_no_branches_recorded() {
    let mut t = new_tracer();
    t.set_instance_id("trivial".to_string());
    setup(&mut t, &["P0"], &["P0"], &[(0, 0)], &[]);

    assert!(t.on_solve_complete(true).is_empty(), "no branches → no output");
}

#[test]
fn failed_write_stops_emission_until_the_instance_succeeds() {
    let mut t = new_tracer();
    setup(&mut t, &["P0"], &["P0"], &[(0, 0)], &[]);
    let state = SearchState::new(vec![1], 0);

    t.on_branch(BranchEvent { candidates: &[0], state: &state }, 0);
    let first = t.on_branch_complete().expect("first branch is handed out");
    assert!(first.header_first);
    assert_eq!(first.record.branch_id, 0);
    t.header_write_failed();
    assert!(!t.header_emitted);
    assert_eq!(t.next_branch_id, 0);

    t.on_branch(BranchEvent { candidates: &[0], state: &state }, 1);
    assert!(t.on_branch_complete().is_none(), "nothing after a failed write");
    t.on_branch(BranchEvent { candidates: &[0], state: &state }, 2);
    assert!(t.on_solve_complete(true).is_empty());
    assert!(!t.write_failed, "success forgets the failure");

    t.on_branch(BranchEvent { candidates: &[0], state: &state }, 3);
    let again = t.on_branch_complete().expect("handed out again");
    assert!(again.header_first, "the header is still owed");
    assert_eq!(again.record.branch_id, 0);
}

#[test]
fn placement_table_takes_the_last_definition_of_a_type() {
    let mut t = new_tracer();
    let placements = vec![placement(0, &[0], false)];
    setup(&mut t, &["P0"], &["P0", "X", "P0"], &[(0, 0)], &placements);
    assert_eq!(t.type_idx_of_def, vec![Some(0), None, Some(0)]);
    assert_eq!(t.placements[0].piece_def_idx, 2);
    assert_eq!(t.canonical_bitmaps.len(), 3 * 36);
    assert_eq!(t.cell_to_grid_idx, vec![0]);
}
