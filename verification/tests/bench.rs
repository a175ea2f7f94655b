use maplestory_union_solver_wasm::bench::{
    SEED_RATIO, auto_worker_count, mean_elapsed, pick_winner, solve_options, sorted_elapsed, total_nodes,
    worker_seed,
};
use maplestory_union_solver_wasm::{ExactCoverResult, ExactCoverStats};

fn result(solved: bool, elapsed_ms: u64, node_count: u64) -> ExactCoverResult {
    let mut stats = ExactCoverStats::empty(0);
    stats.common.elapsed_ms = elapsed_ms;
    stats.common.node_count = node_count;
    ExactCoverResult { solution: if solved { Some(Vec::new()) } else { None }, stats }
}

#[test]
fn auto_workers_leave_one_core_and_keep_two() {
    assert_eq!(auto_worker_count(Some(8)), 7);
    assert_eq!(auto_worker_count(Some(3)), 2);
    assert_eq!(auto_worker_count(Some(1)), 2);
    assert_eq!(auto_worker_count(Some(0)), 2);
    assert_eq!(auto_worker_count(None), 3);
}

#[test]
fn worker_seeds_step_by_the_ratio_and_wrap() {
    assert_eq!(worker_seed(100, 0), 100);
    assert_eq!(worker_seed(100, 2), 100 + 2 * SEED_RATIO);
    assert_eq!(worker_seed(u64::MAX, 1), SEED_RATIO - 1);
}

#[test]
fn solve_options_take_the_timeout_in_milliseconds() {
    let o = solve_options(Some(3), Some(7), 500);
    assert_eq!(o.timeout_ms, Some(3000));
    assert_eq!(o.seed, Some(7));
    assert_eq!(o.luby_base, 500);
    assert_eq!(solve_options(None, None, 1).timeout_ms, None);
}

#[test]
fn winner_is_the_fastest_solver_and_the_first_of_a_tie() {
    let results = vec![
        Some(result(false, 1, 10)),
        Some(result(true, 50, 20)),
        None,
        Some(result(true, 30, 30)),
        Some(result(true, 30, 40)),
    ];
    assert_eq!(pick_winner(&results), Some(3));
    assert_eq!(pick_winner(&[Some(result(false, 5, 1)), None]), None);
    assert_eq!(pick_winner(&[]), None);
}

#[test]
fn total_nodes_sum_and_saturate() {
    let results = vec![Some(result(false, 1, 10)), None, Some(result(true, 2, 32))];
    assert_eq!(total_nodes(&results), 42);
    let big = vec![Some(result(false, 1, u64::MAX)), Some(result(false, 1, 1))];
    assert_eq!(total_nodes(&big), u64::MAX);
}

#[test]
fn elapsed_times_sort_ascending_and_average_down() {
    assert_eq!(sorted_elapsed(&vec![30, 10, 20, 10]), vec![10, 10, 20, 30]);
    assert_eq!(mean_elapsed(&vec![30, 10, 20, 10], 4), 17);
    assert_eq!(mean_elapsed(&vec![u64::MAX, u64::MAX], 2), u64::MAX);
}
