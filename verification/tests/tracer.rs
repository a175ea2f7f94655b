use maplestory_union_solver_wasm::base::bitset::BitSet;
use maplestory_union_solver_wasm::domain::piece::Coord;
use maplestory_union_solver_wasm::domain::placement::Placement;
use maplestory_union_solver_wasm::ml::tracer::{BranchEvent, Tracer};
use maplestory_union_solver_wasm::solver::state::SearchState;
use maplestory_union_solver_wasm::PieceDefJson;

fn placement(type_idx: u16, cells: &[u16], mark_on_center: bool) -> Placement {
    let mut bits = BitSet::new();
    for &i in cells {
        bits.set(i as usize);
    }
    Placement {
        type_idx,
        bits,
        neighbor_bits: BitSet::new(),
        neighbor_indices: Vec::new(),
        b_count: 0,
        mark_on_center,
        cell_indices: cells.to_vec(),
        mark: (0, 0),
        cells: cells.iter().map(|&i| (0, i as i8)).collect(),
    }
}

fn def_json(id: &str) -> (String, PieceDefJson) {
    (id.to_string(), PieceDefJson { id: id.to_string(), cells: vec![(0, 0)], mark_index: 0 })
}

fn new_tracer() -> Tracer {
    Tracer::new()
}

fn setup(t: &mut Tracer, type_ids: &[&str], def_ids: &[&str], board_cells: &[Coord]) {
    let type_ids_owned: Vec<String> = type_ids.iter().map(|s| s.to_string()).collect();
    let defs: Vec<(String, PieceDefJson)> = def_ids.iter().map(|id| def_json(id)).collect();
    t.start_instance(&type_ids_owned, &defs, board_cells);
}

#[test]
fn empty_target_indices_use_grid_coord_translation() {
    let mut t = new_tracer();
    setup(&mut t, &["P0"], &["P0"], &[(2, 3), (5, 7), (1, 1)]);

    let mut state = SearchState::new(vec![1], 0);
    state.covered.set(1);
    state.covered_count = 1;

    let pl = placement(0, &[0], false);
    let post = t.compute_post_state(&state, &pl);

    assert_eq!(post.empty_target_indices, vec![21]);
}

#[test]
fn center_mark_uses_or_semantics() {
    let mut t = new_tracer();
    setup(&mut t, &["P0"], &["P0"], &[(0, 0)]);

    let pl_no = placement(0, &[0], false);
    let pl_yes = placement(0, &[0], true);

    let mut state = SearchState::new(vec![2], 0);

    assert!(!t.compute_post_state(&state, &pl_no).center_mark);
    assert!(t.compute_post_state(&state, &pl_yes).center_mark);

    state.has_center_mark = true;
    assert!(t.compute_post_state(&state, &pl_no).center_mark);
    assert!(t.compute_post_state(&state, &pl_yes).center_mark);
}

#[test]
fn counts_decrement_matching_type_only_unused_defs_zero() {
    let mut t = new_tracer();
    setup(&mut t, &["P0", "P1"], &["P0", "P1", "P2"], &[(0, 0)]);

    let state = SearchState::new(vec![3, 2], 0);
    let pl = placement(1, &[0], false);
    let post = t.compute_post_state(&state, &pl);

    assert_eq!(post.counts, vec![3, 1, 0]);
}

#[test]
fn branch_lifecycle_finalizes_and_measures_subtree() {
    let mut t = new_tracer();
    setup(&mut t, &["P0"], &["P0"], &[(0, 0), (0, 1)]);

    let placements = vec![placement(0, &[0], false), placement(0, &[1], false)];
    let state = SearchState::new(vec![1], 0);

    t.on_branch(BranchEvent { candidates: &[0], state: &state, placements: &placements }, 100);

    assert_eq!(t.instance_buffer.len(), 0);
    assert_eq!(t.pending_candidates.len(), 1);

    t.on_attempt(0, false, 150);
    assert!(t.pending_candidates[0].tried);
    assert!(!t.pending_candidates[0].succeeded);
    assert_eq!(t.pending_candidates[0].subtree_nodes, 50);

    t.on_branch(BranchEvent { candidates: &[1], state: &state, placements: &placements }, 150);

    assert_eq!(t.instance_buffer.len(), 1);
    assert_eq!(t.instance_buffer[0].branch_id, 0);
    assert_eq!(t.instance_buffer[0].candidates.len(), 1);
    assert_eq!(t.pending_candidates.len(), 1);
}

#[test]
fn solve_complete_clears_buffers_on_both_outcomes() {
    {
        let mut t = new_tracer();
        setup(&mut t, &["P0"], &["P0"], &[(0, 0)]);
        let placements = vec![placement(0, &[0], false)];
        let state = SearchState::new(vec![1], 0);

        t.on_branch(BranchEvent { candidates: &[0], state: &state, placements: &placements }, 0);
        assert!(!t.pending_candidates.is_empty());

        assert!(t.on_solve_complete(false).is_none());
        assert!(t.pending_candidates.is_empty());
        assert!(t.instance_buffer.is_empty());
    }

    {
        let mut t = new_tracer();
        setup(&mut t, &["P0"], &["P0"], &[(0, 0)]);
        let placements = vec![placement(0, &[0], false)];
        let state = SearchState::new(vec![1], 0);

        t.on_branch(BranchEvent { candidates: &[0], state: &state, placements: &placements }, 0);

        let rows = t.on_solve_complete(true).expect("one branch to write");
        assert_eq!(rows.len(), 1);
        assert!(t.pending_candidates.is_empty());
        assert!(t.instance_buffer.is_empty());
    }
}

#[test]
fn tracer_solve_complete_writes_nothing_when_no_branches_recorded() {
    let mut t = new_tracer();
    t.set_instance_id("trivial_instance".to_string());
    setup(&mut t, &["P0"], &["P0"], &[(0, 0)]);

    assert!(t.on_solve_complete(true).is_none(), "no branches → no output");
}

#[test]
fn start_instance_maps_defs_to_type_positions_and_bitmaps() {
    let mut t = new_tracer();
    setup(&mut t, &["B", "A"], &["A", "C", "B"], &[(3, 4)]);
    assert_eq!(t.type_idx_of_def, vec![Some(1), None, Some(0)]);
    assert_eq!(t.cell_to_grid_idx, vec![64]);
    assert_eq!(t.canonical_bitmaps.len(), 3);
    let mut expected = vec![0u8; 36];
    expected[0] = 1;
    assert_eq!(t.canonical_bitmaps[0], expected);
}

#[test]
fn attempt_updates_only_the_first_matching_candidate() {
    let mut t = new_tracer();
    setup(&mut t, &["P0"], &["P0"], &[(0, 0), (0, 1)]);
    let placements = vec![placement(0, &[0], false), placement(0, &[1], false)];
    let state = SearchState::new(vec![1], 0);
    t.on_branch(BranchEvent { candidates: &[1, 0, 1], state: &state, placements: &placements }, 7);
    t.on_attempt(1, true, 20);
    assert!(t.pending_candidates[0].tried && t.pending_candidates[0].succeeded);
    assert_eq!(t.pending_candidates[0].subtree_nodes, 13);
    assert!(!t.pending_candidates[1].tried);
    assert!(!t.pending_candidates[2].tried);
    assert_eq!(t.nodes_at_branch_entry, 20);
}
