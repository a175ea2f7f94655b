use maplestory_union_solver_wasm::base::bitset::{BitSet, CAPACITY};
use maplestory_union_solver_wasm::base::connectivity::{BfsWorkspace, bfs_components};
use maplestory_union_solver_wasm::base::rng::{LubyIterator, make_rng, shuffle};
use rand::RngExt;

// ─── bitset ───

#[test]
fn empty_set_has_no_bits() {
    let bs = BitSet::new();
    assert!(bs.is_empty());
    assert_eq!(bs.count_ones(), 0);
    for i in 0..CAPACITY {
        assert!(!bs.test(i));
    }
}

#[test]
fn set_and_test_individual_bits() {
    let mut bs = BitSet::new();
    for i in [0, 1, 31, 32, 63, 100, CAPACITY - 1] {
        bs.set(i);
        assert!(bs.test(i), "bit {i} should be set");
    }
    assert_eq!(bs.count_ones(), 7);
}

#[test]
fn has_overlap_detects_shared_bit() {
    let mut a = BitSet::new();
    let mut b = BitSet::new();
    a.set(10);
    b.set(100);
    assert!(!a.has_overlap(&b), "disjoint sets should not overlap");

    b.set(10);
    assert!(a.has_overlap(&b), "shared bit should be detected");
}

#[test]
fn apply_is_bitwise_or() {
    let mut a = BitSet::new();
    let mut b = BitSet::new();
    a.set(5);
    a.set(50);
    b.set(50);
    b.set(150);

    a.apply(&b);
    assert!(a.test(5));
    assert!(a.test(50));
    assert!(a.test(150));
    assert_eq!(a.count_ones(), 3);
}

#[test]
fn clear_bits_is_bitwise_and_not() {
    let mut a = BitSet::new();
    let mut b = BitSet::new();
    a.set(5);
    a.set(50);
    a.set(150);
    b.set(50);

    a.clear_bits(&b);
    assert!(a.test(5));
    assert!(!a.test(50));
    assert!(a.test(150));
}

#[test]
fn reset_clears_all_bits() {
    let mut bs = BitSet::new();
    bs.set(0);
    bs.set(100);
    bs.set(CAPACITY - 1);
    bs.reset();
    assert!(bs.is_empty());
}

#[test]
fn equality_compares_all_words() {
    let mut a = BitSet::new();
    let mut b = BitSet::new();
    a.set(42);
    b.set(42);
    assert_eq!(a, b);

    b.set(100);
    assert_ne!(a, b);
}

#[test]
fn debug_format_lists_set_bits() {
    let mut bs = BitSet::new();
    bs.set(3);
    bs.set(7);
    bs.set(31);
    assert_eq!(bs.debug_string(), "BitSet[3, 7, 31]");
}

#[test]
fn debug_format_of_empty_set() {
    assert_eq!(BitSet::new().debug_string(), "BitSet[]");
}

#[test]
fn bit_outside_first_word_survives_round_trip() {
    let mut a = BitSet::new();
    a.set(CAPACITY - 1);
    a.set(64);
    let mut b = BitSet::new();
    b.set(64);
    a.clear_bits(&b);
    assert!(a.test(CAPACITY - 1));
    assert!(!a.test(64));
    assert_eq!(a.count_ones(), 1);
}

// ─── connectivity ───

fn make_chain_adj(n: usize) -> Vec<Vec<u16>> {
    (0..n)
        .map(|i| {
            let mut nb = vec![];
            if i > 0 {
                nb.push((i - 1) as u16);
            }
            if i < n - 1 {
                nb.push((i + 1) as u16);
            }
            nb
        })
        .collect()
}

#[test]
fn finds_singleton_when_nothing_covered() {
    let covered = BitSet::new();
    let adj = make_chain_adj(5);
    let mut ws = BfsWorkspace::new(5);

    let n = bfs_components(&covered, &adj, 5, &mut ws, None);
    assert_eq!(n, 1);
    assert_eq!(ws.comp_sizes, vec![5]);
}

#[test]
fn splits_when_middle_covered() {
    let mut covered = BitSet::new();
    covered.set(2);
    let adj = make_chain_adj(5);
    let mut ws = BfsWorkspace::new(5);

    let n = bfs_components(&covered, &adj, 5, &mut ws, None);
    assert_eq!(n, 2);
    let mut sizes = ws.comp_sizes.clone();
    sizes.sort_unstable();
    assert_eq!(sizes, vec![2, 2]);
}

#[test]
fn membership_assigns_correct_components() {
    let mut covered = BitSet::new();
    covered.set(2);
    let adj = make_chain_adj(5);
    let mut ws = BfsWorkspace::new(5);
    let mut membership = vec![0_u16; 5];

    let n = bfs_components(&covered, &adj, 5, &mut ws, Some(&mut membership));
    assert_eq!(n, 2);
    assert_eq!(membership[0], membership[1]);
    assert_eq!(membership[3], membership[4]);
    assert_ne!(membership[0], membership[3]);
    assert_eq!(membership[2], u16::MAX);
}

#[test]
fn fully_covered_board_has_no_components() {
    let mut covered = BitSet::new();
    for i in 0..4 {
        covered.set(i);
    }
    let adj = make_chain_adj(4);
    let mut ws = BfsWorkspace::new(4);
    let n = bfs_components(&covered, &adj, 4, &mut ws, None);
    assert_eq!(n, 0);
    assert!(ws.comp_sizes.is_empty());
}

// ─── rng ───

#[test]
fn luby_sequence_first_16() {
    let mut iter = LubyIterator::new(1);
    let expected = [1, 1, 2, 1, 1, 2, 4, 1, 1, 2, 1, 1, 2, 4, 8, 1];
    for &want in &expected {
        assert_eq!(iter.next(), Some(want));
    }
}

#[test]
fn luby_scales_by_base() {
    let mut iter = LubyIterator::new(100);
    assert_eq!(iter.next(), Some(100));
    assert_eq!(iter.next(), Some(100));
    assert_eq!(iter.next(), Some(200));
    assert_eq!(iter.next(), Some(100));
    assert_eq!(iter.next(), Some(100));
    assert_eq!(iter.next(), Some(200));
    assert_eq!(iter.next(), Some(400));
}

#[test]
fn luby_does_not_terminate() {
    let mut iter = LubyIterator::new(1);
    let mut max_seen = 0;
    for _ in 0..10_000 {
        let v = iter.next().unwrap();
        if v > max_seen {
            max_seen = v;
        }
    }
    assert!(max_seen >= 1024, "expected peak >= 1024, got {max_seen}");
}

#[test]
#[should_panic(expected = "Luby base must be positive")]
fn luby_panics_on_zero_base() {
    let _ = LubyIterator::try_new(0).expect("Luby base must be positive");
}

#[test]
fn luby_try_new_accepts_positive_base() {
    let mut iter = LubyIterator::try_new(3).unwrap();
    assert_eq!(iter.next(), Some(3));
    assert_eq!(iter.next(), Some(3));
    assert_eq!(iter.next(), Some(6));
}

#[test]
fn luby_reports_overflow_instead_of_wrapping() {
    let mut iter = LubyIterator::new(u64::MAX);
    assert_eq!(iter.next(), Some(u64::MAX));
    assert_eq!(iter.next(), Some(u64::MAX));
    assert_eq!(iter.next(), None);
    assert_eq!(iter.next(), None);
}

#[test]
fn shuffle_is_deterministic_per_seed() {
    let mut a: Vec<i32> = (0..20).collect();
    let mut b: Vec<i32> = (0..20).collect();

    let mut rng_a = make_rng(42);
    let mut rng_b = make_rng(42);

    shuffle(&mut a, &mut rng_a);
    shuffle(&mut b, &mut rng_b);

    assert_eq!(a, b);
}

#[test]
fn shuffle_varies_with_seed() {
    let mut a: Vec<i32> = (0..20).collect();
    let mut b: Vec<i32> = (0..20).collect();

    shuffle(&mut a, &mut make_rng(1));
    shuffle(&mut b, &mut make_rng(2));

    assert_ne!(a, b);
}

#[test]
fn shuffle_preserves_elements() {
    let original: Vec<i32> = (0..50).collect();
    let mut shuffled = original.clone();
    shuffle(&mut shuffled, &mut make_rng(7));

    let mut sorted = shuffled.clone();
    sorted.sort_unstable();
    assert_eq!(sorted, original);
}

#[test]
fn shuffle_handles_trivial_inputs() {
    let mut empty: Vec<i32> = vec![];
    shuffle(&mut empty, &mut make_rng(0));
    assert!(empty.is_empty());

    let mut single = vec![42];
    shuffle(&mut single, &mut make_rng(0));
    assert_eq!(single, vec![42]);
}

#[test]
fn rng_is_reproducible_per_seed() {
    let mut a = make_rng(999);
    let mut b = make_rng(999);

    for _ in 0..100 {
        assert_eq!(a.random::<u64>(), b.random::<u64>());
    }
}
