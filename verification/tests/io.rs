use maplestory_union_solver_wasm::io::common::parse_cell_key;
use maplestory_union_solver_wasm::{
    ExactCoverInput, ExactCoverStats, GroupConstraintJson, GroupCountInput, GroupCountStats,
    PieceDefJson, PieceInstanceJson, SolverError, SolverInput, SolverStats,
};

// ─── common ───

#[test]
fn parse_cell_key_basic() {
    assert_eq!(parse_cell_key("3,5").unwrap(), (3, 5));
    assert_eq!(parse_cell_key("0,0").unwrap(), (0, 0));
    assert_eq!(parse_cell_key("21,21").unwrap(), (21, 21));
}

#[test]
fn parse_cell_key_with_whitespace_is_lenient() {
    assert_eq!(parse_cell_key(" 3 , 5 ").unwrap(), (3, 5));
}

#[test]
fn parse_cell_key_rejects_malformed() {
    assert!(parse_cell_key("3").is_err());
    assert!(parse_cell_key("3,5,7").is_err());
    assert!(parse_cell_key("a,b").is_err());
    assert!(parse_cell_key("").is_err());
    assert!(parse_cell_key("3, ").is_err());
}

#[test]
fn parse_cell_key_accepts_signs_and_i8_bounds() {
    assert_eq!(parse_cell_key("-128,127").unwrap(), (-128, 127));
    assert_eq!(parse_cell_key("+4,-0").unwrap(), (4, 0));
    assert!(parse_cell_key("128,0").is_err());
    assert!(parse_cell_key("0,-129").is_err());
    assert!(parse_cell_key("1 2,3").is_err());
}

#[test]
fn parse_cell_key_error_is_a_json_error() {
    assert!(matches!(parse_cell_key("x"), Err(SolverError::Json(_))));
}

#[test]
fn parse_cell_key_error_names_the_key() {
    match parse_cell_key("7;9") {
        Err(SolverError::Json(e)) => assert!(e.to_string().contains("malformed cell key: \"7;9\"")),
        _ => panic!("expected a JSON error"),
    }
}

#[test]
fn empty_common_stats_is_zero() {
    let s = SolverStats::empty(42);
    assert_eq!(s.seed, 42);
    assert_eq!(s.node_count, 0);
    assert_eq!(s.restarts, 0);
    assert!(!s.timed_out);
    assert!(!s.cancelled);
}

#[test]
fn solve_common_methods_work() {
    let common = SolverInput {
        pieces: vec![PieceInstanceJson { def_id: "p1".to_string(), index: 0 }],
        piece_defs: vec![(
            "p1".to_string(),
            PieceDefJson { id: "p1".to_string(), cells: vec![(0, 0), (0, 1)], mark_index: 0 },
        )],
        center_cells: vec!["10,10".to_string(), "10,11".to_string()],
    };

    let centers = common.parse_center_cells().unwrap();
    assert_eq!(centers, vec![(10, 10), (10, 11)]);

    let defs = common.piece_defs_map();
    assert!(defs.contains_key("p1"));
    assert_eq!(defs.get("p1").unwrap().cells.len(), 2);
}

#[test]
fn piece_defs_map_keeps_last_duplicate_key() {
    let common = SolverInput {
        pieces: vec![],
        piece_defs: vec![
            ("p".to_string(), PieceDefJson { id: "p".to_string(), cells: vec![(0, 0)], mark_index: 0 }),
            (
                "p".to_string(),
                PieceDefJson { id: "p".to_string(), cells: vec![(0, 0), (1, 0)], mark_index: 1 },
            ),
        ],
        center_cells: vec![],
    };
    let defs = common.piece_defs_map();
    assert_eq!(defs.get("p").unwrap().cells.len(), 2);
    assert_eq!(defs.get("p").unwrap().mark_index, 1);
}

#[test]
fn parse_center_cells_stops_at_first_malformed_key() {
    let common = SolverInput {
        pieces: vec![],
        piece_defs: vec![],
        center_cells: vec!["1,1".to_string(), "bad".to_string(), "2,2".to_string()],
    };
    assert!(matches!(common.parse_center_cells(), Err(SolverError::Json(_))));
}

// ─── input ───

#[test]
fn input_cell_lists_parse_in_order() {
    let common = SolverInput { pieces: vec![], piece_defs: vec![], center_cells: vec![] };
    let ec = ExactCoverInput {
        target_cells: vec!["0,1".to_string(), "2,3".to_string()],
        common: common.clone(),
    };
    assert_eq!(ec.parse_target_cells().unwrap(), vec![(0, 1), (2, 3)]);

    let gc = GroupCountInput {
        exact_cells: vec!["4,5".to_string()],
        group_constraints: vec![GroupConstraintJson {
            group_id: 1,
            cells: vec!["6,7".to_string(), "nope".to_string()],
            count: 1,
        }],
        common,
    };
    assert_eq!(gc.parse_exact_cells().unwrap(), vec![(4, 5)]);
    assert!(gc.group_constraints[0].parse_cells().is_err());
}

// ─── output ───

#[test]
fn empty_exact_cover_stats() {
    let s = ExactCoverStats::empty(42);
    assert_eq!(s.common.seed, 42);
    assert_eq!(s.common.node_count, 0);
}

#[test]
fn empty_group_count_stats() {
    let s = GroupCountStats::empty(42);
    assert_eq!(s.common.seed, 42);
    assert_eq!(s.budget_prunes, 0);
    assert_eq!(s.group_slack_prunes, 0);
}
