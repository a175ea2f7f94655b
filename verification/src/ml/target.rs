//! Target cells for synthesized training instances: a few center cells,
//! then whole board groups in a random priority order, and a connected
//! patch of the last group, until the pieces' cell total is reached.

use vstd::prelude::*;

use crate::base::rng::{
    SolverRng, choose_from, is_permutation, is_rearrangement, lemma_rearrangement_contains,
    random_below, random_between, sample_from, shuffle,
};
use crate::domain::enumerate::contains_coord;
use crate::domain::piece::{
    Coord, lemma_distinct_subset_len, lemma_sort_cells, row_major, sort_coords,
};
use vstd::relations::sorted_by;
use crate::ml::board::{
    UnionBoard, center_seq, grid_cell, grid_group, group_index, in_grid, lemma_board_partition,
    lemma_grid_cell, standard_board,
};

verus! {

/// Target cells of one instance.
pub struct TargetSelection {
    /// All target cells, in row-major order.
    pub all_cells: Vec<Coord>,
    /// The center cells among them, in row-major order.
    pub center_cells: Vec<Coord>,
}

/// The cell one step from `p` in direction `d`: up, down, left, right.
pub open spec fn neighbor(p: Coord, d: int) -> Coord {
    if d == 0 {
        ((p.0 - 1) as i8, p.1)
    } else if d == 1 {
        ((p.0 + 1) as i8, p.1)
    } else if d == 2 {
        (p.0, (p.1 - 1) as i8)
    } else {
        (p.0, (p.1 + 1) as i8)
    }
}

fn step(p: Coord, d: usize) -> (r: Coord)
    requires
        in_grid(p),
        d < 4,
    ensures
        r == neighbor(p, d as int),
{
    if d == 0 {
        (p.0 - 1, p.1)
    } else if d == 1 {
        (p.0 + 1, p.1)
    } else if d == 2 {
        (p.0, p.1 - 1)
    } else {
        (p.0, p.1 + 1)
    }
}

/// Some neighbour of `p` is in `set`.
pub(crate) fn has_adjacent(p: Coord, set: &Vec<Coord>) -> (r: bool)
    requires
        in_grid(p),
    ensures
        r == exists|d: int| 0 <= d < 4 && set@.contains(#[trigger] neighbor(p, d)),
{
    let mut d: usize = 0;
    while d < 4
        invariant
            d <= 4,
            in_grid(p),
            forall|e: int| 0 <= e < d ==> !set@.contains(#[trigger] neighbor(p, e)),
        decreases 4 - d,
    {
        if contains_coord(set, step(p, d)) {
            return true;
        }
        d = d + 1;
    }
    false
}

/// `a` has no element twice, and each of its elements is in `b`.
pub open spec fn distinct_within(a: Seq<Coord>, b: Seq<Coord>) -> bool {
    &&& a.no_duplicates()
    &&& forall|k: int| 0 <= k < a.len() ==> b.contains(#[trigger] a[k])
}

/// A rearrangement of a list without repeats has none either.
pub(crate) proof fn lemma_rearrangement_distinct(before: Seq<Coord>, after: Seq<Coord>)
    requires
        is_rearrangement(before, after),
        before.no_duplicates(),
    ensures
        after.no_duplicates(),
{
    let p = choose|p: Seq<int>|
        is_permutation(p, before.len() as int) && after.len() == before.len() && forall|k: int|
            0 <= k < after.len() ==> after[k] == before[#[trigger] p[k]];
    assert forall|a: int, b: int| 0 <= a < after.len() && 0 <= b < after.len() && a != b implies after[a]
        != after[b] by {
        assert(after[a] == before[p[a]] && after[b] == before[p[b]]);
        if a < b {
            assert(p[a] != p[b]);
        } else {
            assert(p[b] != p[a]);
        }
    }
}

/// Picks `n` cells of `available`: a random walk over neighbouring cells,
/// starting from the cells next to `filled` (or from one random cell when
/// none is), then random leftover cells when the walk runs dry.
fn bfs_pick(available: &Vec<Coord>, filled: &Vec<Coord>, n: usize, rng: &mut SolverRng) -> (r: Vec<Coord>)
    requires
        available@.no_duplicates(),
        forall|k: int| 0 <= k < available@.len() ==> in_grid(#[trigger] available@[k]),
        1 <= n < available@.len(),
    ensures
        r@.len() == n,
        distinct_within(r@, available@),
{
    let mut frontier: Vec<Coord> = Vec::new();
    let mut i: usize = 0;
    while i < available.len()
        invariant
            i <= available@.len(),
            forall|k: int| 0 <= k < available@.len() ==> in_grid(#[trigger] available@[k]),
            forall|k: int| 0 <= k < frontier@.len() ==> available@.contains(#[trigger] frontier@[k]),
        decreases available.len() - i,
    {
        let c = available[i];
        if has_adjacent(c, filled) {
            frontier.push(c);
        }
        i = i + 1;
    }
    if frontier.len() == 0 {
        let c = *choose_from(available.as_slice(), rng);
        frontier.push(c);
    }
    let mut picked: Vec<Coord> = Vec::new();
    while picked.len() < n && frontier.len() > 0
        invariant
            picked@.len() <= n,
            n < available@.len(),
            available@.no_duplicates(),
            forall|k: int| 0 <= k < available@.len() ==> in_grid(#[trigger] available@[k]),
            distinct_within(picked@, available@),
            forall|k: int| 0 <= k < frontier@.len() ==> available@.contains(#[trigger] frontier@[k]),
        decreases n - picked@.len(), frontier@.len(),
    {
        let idx = random_below(rng, frontier.len());
        let ghost fr = frontier@;
        let cell = frontier.swap_remove(idx);
        proof {
            assert(available@.contains(fr[idx as int]));
            assert forall|k: int| 0 <= k < frontier@.len() implies available@.contains(#[trigger] frontier@[k]) by {
                if k == idx {
                    assert(frontier@[k] == fr[fr.len() - 1]);
                } else {
                    assert(frontier@[k] == fr[k]);
                }
            }
        }
        if contains_coord(&picked, cell) {
            continue;
        }
        let ghost before = picked@;
        picked.push(cell);
        proof {
            assert(picked@[picked@.len() - 1] == cell);
            assert forall|a: int, b: int| 0 <= a < b < picked@.len() implies picked@[a] != picked@[b] by {
                if b == picked@.len() - 1 {
                    assert(picked@[a] == before[a]);
                    assert(before.contains(before[a]));
                } else {
                    assert(picked@[a] == before[a] && picked@[b] == before[b]);
                }
            }
            assert forall|k: int| 0 <= k < picked@.len() implies available@.contains(#[trigger] picked@[k]) by {
                if k < before.len() {
                    assert(picked@[k] == before[k]);
                }
            }
            let j = choose|j: int| 0 <= j < available@.len() && available@[j] == cell;
            assert(in_grid(available@[j]));
        }
        let mut d: usize = 0;
        while d < 4
            invariant
                d <= 4,
                in_grid(cell),
                forall|k: int| 0 <= k < frontier@.len() ==> available@.contains(#[trigger] frontier@[k]),
            decreases 4 - d,
        {
            let nb = step(cell, d);
            if contains_coord(available, nb) && !contains_coord(&picked, nb) {
                frontier.push(nb);
            }
            d = d + 1;
        }
    }
    if picked.len() < n {
        let mut leftover: Vec<Coord> = Vec::new();
        let ghost mut skipped: Seq<Coord> = Seq::empty();
        let mut k: usize = 0;
        while k < available.len()
            invariant
                k <= available@.len(),
                available@.no_duplicates(),
                leftover@.len() + skipped.len() == k,
                forall|j: int|
                    0 <= j < leftover@.len() ==> !picked@.contains(#[trigger] leftover@[j])
                        && available@.subrange(0, k as int).contains(leftover@[j]),
                forall|j: int| 0 <= j < skipped.len() ==> picked@.contains(#[trigger] skipped[j]),
                leftover@.no_duplicates(),
                skipped.no_duplicates(),
                forall|j: int|
                    0 <= j < skipped.len() ==> available@.subrange(0, k as int).contains(#[trigger] skipped[j]),
            decreases available.len() - k,
        {
            let c = available[k];
            proof {
                assert forall|j: int| 0 <= j < leftover@.len() implies leftover@[j] != c by {
                    let m = choose|m: int| 0 <= m < k && available@.subrange(0, k as int)[m] == leftover@[j];
                    assert(available@[m] == leftover@[j]);
                }
                assert forall|j: int| 0 <= j < skipped.len() implies skipped[j] != c by {
                    let m = choose|m: int| 0 <= m < k && available@.subrange(0, k as int)[m] == skipped[j];
                    assert(available@[m] == skipped[j]);
                }
                assert forall|j: int| 0 <= j < leftover@.len() implies available@.subrange(0, k + 1).contains(
                    #[trigger] leftover@[j],
                ) by {
                    let m = choose|m: int| 0 <= m < k && available@.subrange(0, k as int)[m] == leftover@[j];
                    assert(available@.subrange(0, k + 1)[m] == leftover@[j]);
                }
                assert forall|j: int| 0 <= j < skipped.len() implies available@.subrange(0, k + 1).contains(
                    #[trigger] skipped[j],
                ) by {
                    let m = choose|m: int| 0 <= m < k && available@.subrange(0, k as int)[m] == skipped[j];
                    assert(available@.subrange(0, k + 1)[m] == skipped[j]);
                }
                assert(available@.subrange(0, k + 1)[k as int] == c);
            }
            if contains_coord(&picked, c) {
                proof {
                    let s0 = skipped;
                    skipped = skipped.push(c);
                    assert forall|a: int, b: int| 0 <= a < b < skipped.len() implies skipped[a] != skipped[b] by {
                        if b < s0.len() {
                            assert(skipped[a] == s0[a] && skipped[b] == s0[b]);
                        } else {
                            assert(skipped[a] == s0[a]);
                        }
                    }
                    assert forall|j: int| 0 <= j < skipped.len() implies picked@.contains(#[trigger] skipped[j]) by {
                        if j < s0.len() {
                            assert(skipped[j] == s0[j]);
                        }
                    }
                    assert forall|j: int| 0 <= j < skipped.len() implies available@.subrange(0, k + 1).contains(
                        #[trigger] skipped[j],
                    ) by {
                        if j < s0.len() {
                            assert(skipped[j] == s0[j]);
                        }
                    }
                }
            } else {
                let ghost l0 = leftover@;
                leftover.push(c);
                proof {
                    assert forall|a: int, b: int| 0 <= a < b < leftover@.len() implies leftover@[a] != leftover@[b] by {
                        if b < l0.len() {
                            assert(leftover@[a] == l0[a] && leftover@[b] == l0[b]);
                        } else {
                            assert(leftover@[a] == l0[a]);
                        }
                    }
                    assert forall|j: int| 0 <= j < leftover@.len() implies !picked@.contains(
                        #[trigger] leftover@[j],
                    ) && available@.subrange(0, k + 1).contains(leftover@[j]) by {
                        if j < l0.len() {
                            assert(leftover@[j] == l0[j]);
                        }
                    }
                }
            }
            k = k + 1;
        }
        proof {
            lemma_distinct_subset_len(skipped, picked@);
            assert(available@.subrange(0, available@.len() as int) =~= available@);
        }
        let ghost l_before = leftover@;
        shuffle(leftover.as_mut_slice(), rng);
        proof {
            lemma_rearrangement_contains(l_before, leftover@);
            lemma_rearrangement_distinct(l_before, leftover@);
        }
        let ghost p0 = picked@.len();
        let mut t: usize = 0;
        while t < leftover.len()
            invariant
                t <= leftover@.len(),
                leftover@.len() + p0 >= available@.len(),
                n < available@.len(),
                picked@.len() == p0 + t,
                picked@.len() <= n,
                distinct_within(picked@, available@),
                leftover@.no_duplicates(),
                forall|j: int|
                    0 <= j < leftover@.len() ==> l_before.contains(#[trigger] leftover@[j]),
                forall|j: int|
                    0 <= j < l_before.len() ==> !picked@.subrange(0, p0 as int).contains(#[trigger] l_before[j])
                        && available@.contains(l_before[j]),
                forall|j: int| 0 <= j < t ==> picked@[p0 + j] == #[trigger] leftover@[j],
            ensures
                picked@.len() == n,
                distinct_within(picked@, available@),
            decreases leftover.len() - t,
        {
            if picked.len() >= n {
                break;
            }
            let c = leftover[t];
            let ghost before = picked@;
            proof {
                let m = choose|m: int| 0 <= m < l_before.len() && l_before[m] == c;
                assert(!before.subrange(0, p0 as int).contains(c));
                assert forall|j: int| 0 <= j < before.len() implies before[j] != c by {
                    if j < p0 {
                        assert(before.subrange(0, p0 as int)[j] == before[j]);
                    } else {
                        assert(before[j] == leftover@[j - p0]);
                        assert(leftover@[j - p0] != leftover@[t as int]);
                    }
                }
            }
            picked.push(c);
            proof {
                assert forall|a: int, b: int| 0 <= a < b < picked@.len() implies picked@[a] != picked@[b] by {
                    if b < before.len() {
                        assert(picked@[a] == before[a] && picked@[b] == before[b]);
                    } else {
                        assert(picked@[a] == before[a]);
                    }
                }
                assert forall|k: int| 0 <= k < picked@.len() implies available@.contains(#[trigger] picked@[k]) by {
                    if k < before.len() {
                        assert(picked@[k] == before[k]);
                    } else {
                        let m = choose|m: int| 0 <= m < l_before.len() && l_before[m] == c;
                        assert(available@.contains(l_before[m]));
                    }
                }
                assert(picked@.subrange(0, p0 as int) =~= before.subrange(0, p0 as int));
                assert forall|j: int| 0 <= j < t + 1 implies picked@[p0 + j] == #[trigger] leftover@[j] by {
                    if j < t {
                        assert(picked@[p0 + j] == before[p0 + j]);
                    }
                }
            }
            t = t + 1;
        }
    }
    picked
}

/// Appends `src[from..to]` to `dst`.
pub(crate) fn append_range(dst: &mut Vec<usize>, src: &Vec<usize>, from: usize, to: usize)
    requires
        from <= to <= src@.len(),
    ensures
        final(dst)@ == old(dst)@ + src@.subrange(from as int, to as int),
{
    let mut i = from;
    while i < to
        invariant
            from <= i <= to <= src@.len(),
            dst@ == old(dst)@ + src@.subrange(from as int, i as int),
        decreases to - i,
    {
        dst.push(src[i]);
        i = i + 1;
        assert(dst@ =~= old(dst)@ + src@.subrange(from as int, i as int));
    }
}

/// Every group position below 16 occurs in `s`, and nothing else does.
pub open spec fn all_groups(s: Seq<usize>) -> bool {
    &&& forall|j: int| 0 <= j < s.len() ==> #[trigger] s[j] < 16
    &&& forall|k: usize| k < 16 ==> #[trigger] s.contains(k)
}

/// The positions below `k` of the outer groups, in increasing order.
pub open spec fn outer_upto(board: UnionBoard, k: int) -> Seq<usize>
    decreases k,
{
    if k <= 0 {
        Seq::empty()
    } else {
        let prev = outer_upto(board, k - 1);
        if board.groups@[k - 1].id is Outer {
            prev.push((k - 1) as usize)
        } else {
            prev
        }
    }
}

/// The positions below `k` of the inner groups whose flag is `want`, in
/// increasing order.
pub open spec fn inner_upto(board: UnionBoard, flags: Seq<bool>, want: bool, k: int) -> Seq<usize>
    decreases k,
{
    if k <= 0 {
        Seq::empty()
    } else {
        let prev = inner_upto(board, flags, want, k - 1);
        if !(board.groups@[k - 1].id is Outer) && flags[k - 1] == want {
            prev.push((k - 1) as usize)
        } else {
            prev
        }
    }
}

proof fn lemma_outer_upto(board: UnionBoard, k: int)
    requires
        0 <= k <= 16,
    ensures
        forall|j: int|
            0 <= j < outer_upto(board, k).len() ==> (#[trigger] outer_upto(board, k)[j]) < k
                && board.groups@[outer_upto(board, k)[j] as int].id is Outer,
    decreases k,
{
    if k > 0 {
        lemma_outer_upto(board, k - 1);
        let prev = outer_upto(board, k - 1);
        assert forall|j: int| 0 <= j < outer_upto(board, k).len() implies (#[trigger] outer_upto(board, k)[j])
            < k && board.groups@[outer_upto(board, k)[j] as int].id is Outer by {
            if j < prev.len() {
                assert(outer_upto(board, k)[j] == prev[j]);
            }
        }
    }
}

proof fn lemma_inner_upto(board: UnionBoard, flags: Seq<bool>, want: bool, k: int)
    requires
        0 <= k <= 16,
    ensures
        forall|j: int|
            0 <= j < inner_upto(board, flags, want, k).len() ==> (#[trigger] inner_upto(board, flags, want, k)[j])
                < k && !(board.groups@[inner_upto(board, flags, want, k)[j] as int].id is Outer)
                && flags[inner_upto(board, flags, want, k)[j] as int] == want,
    decreases k,
{
    if k > 0 {
        lemma_inner_upto(board, flags, want, k - 1);
        let prev = inner_upto(board, flags, want, k - 1);
        assert forall|j: int| 0 <= j < inner_upto(board, flags, want, k).len() implies (#[trigger] inner_upto(
            board,
            flags,
            want,
            k,
        )[j]) < k && !(board.groups@[inner_upto(board, flags, want, k)[j] as int].id is Outer) && flags[inner_upto(
            board,
            flags,
            want,
            k,
        )[j] as int] == want by {
            if j < prev.len() {
                assert(inner_upto(board, flags, want, k)[j] == prev[j]);
            }
        }
    }
}

/// `r` is a fill order drawn with `n1` leading outer groups and `n2`
/// further inner groups wanted: `min(n1, outer)` outer groups, then the
/// inner groups whose flag is set, in increasing order, then
/// `min(n2, others)` inner groups whose flag is not set, then the rest;
/// every group once.
pub open spec fn fill_order_at(board: UnionBoard, flags: Seq<bool>, r: Seq<usize>, n1: int, n2: int) -> bool {
    let no = outer_upto(board, 16).len() as int;
    let f = inner_upto(board, flags, true, 16);
    let nr = inner_upto(board, flags, false, 16).len() as int;
    let na = if n1 < no {
        n1
    } else {
        no
    };
    let nc = if n2 < nr {
        n2
    } else {
        nr
    };
    &&& 2 <= n1 <= 6
    &&& 1 <= n2 <= 4
    &&& r.len() == 16
    &&& all_groups(r)
    &&& forall|j: int| 0 <= j < na ==> board.groups@[#[trigger] r[j] as int].id is Outer
    &&& r.subrange(na, na + f.len()) == f
    &&& forall|j: int|
        na + f.len() <= j < na + f.len() + nc ==> !(board.groups@[#[trigger] r[j] as int].id is Outer)
            && !flags[r[j] as int]
}

/// `r` is a fill order as [`priority_order`] draws them.
pub open spec fn fill_order_ok(board: UnionBoard, flags: Seq<bool>, r: Seq<usize>) -> bool {
    exists|n1: int, n2: int| fill_order_at(board, flags, r, n1, n2)
}

/// The groups in fill order: 2 to 6 outer groups at random, then the inner
/// groups holding a chosen center (`flags`), then 1 to 4 other inner
/// groups at random, then all the rest in random order.
#[verifier::rlimit(80)]
fn priority_order(board: &UnionBoard, flags: &Vec<bool>, rng: &mut SolverRng) -> (r: Vec<usize>)
    requires
        standard_board(*board),
        flags@.len() == 16,
    ensures
        fill_order_ok(*board, flags@, r@),
{
    let n1 = random_between(rng, 2, 6);
    let mut outer: Vec<usize> = Vec::new();
    let mut inner_flagged: Vec<usize> = Vec::new();
    let mut inner_rest: Vec<usize> = Vec::new();
    let mut k: usize = 0;
    while k < 16
        invariant
            k <= 16,
            board.groups@.len() == 16,
            flags@.len() == 16,
            forall|j: int| 0 <= j < outer@.len() ==> #[trigger] outer@[j] < 16,
            forall|j: int| 0 <= j < inner_flagged@.len() ==> #[trigger] inner_flagged@[j] < 16,
            forall|j: int| 0 <= j < inner_rest@.len() ==> #[trigger] inner_rest@[j] < 16,
            forall|g: usize|
                g < k ==> #[trigger] outer@.contains(g) || inner_flagged@.contains(g) || inner_rest@.contains(g),
            outer@ == outer_upto(*board, k as int),
            inner_flagged@ == inner_upto(*board, flags@, true, k as int),
            inner_rest@ == inner_upto(*board, flags@, false, k as int),
            outer@.len() + inner_flagged@.len() + inner_rest@.len() == k,
        decreases 16 - k,
    {
        let ghost (o0, f0, r0) = (outer@, inner_flagged@, inner_rest@);
        if board.groups[k].id.is_outer() {
            outer.push(k);
        } else if flags[k] {
            inner_flagged.push(k);
        } else {
            inner_rest.push(k);
        }
        proof {
            assert forall|g: usize| g < k + 1 implies #[trigger] outer@.contains(g) || inner_flagged@.contains(g)
                || inner_rest@.contains(g) by {
                if g < k {
                    if o0.contains(g) {
                        let j = choose|j: int| 0 <= j < o0.len() && o0[j] == g;
                        assert(outer@[j] == o0[j]);
                    } else if f0.contains(g) {
                        let j = choose|j: int| 0 <= j < f0.len() && f0[j] == g;
                        assert(inner_flagged@[j] == f0[j]);
                    } else {
                        let j = choose|j: int| 0 <= j < r0.len() && r0[j] == g;
                        assert(inner_rest@[j] == r0[j]);
                    }
                } else if outer@.len() > o0.len() {
                    assert(outer@[outer@.len() - 1] == g);
                } else if inner_flagged@.len() > f0.len() {
                    assert(inner_flagged@[inner_flagged@.len() - 1] == g);
                } else {
                    assert(inner_rest@[inner_rest@.len() - 1] == g);
                }
            }
        }
        k = k + 1;
    }
    let ghost outer0 = outer@;
    let ghost flagged0 = inner_flagged@;
    proof {
        lemma_outer_upto(*board, 16);
        lemma_inner_upto(*board, flags@, true, 16);
        lemma_inner_upto(*board, flags@, false, 16);
    }
    shuffle(outer.as_mut_slice(), rng);
    let n1_take = if n1 < outer.len() {
        n1
    } else {
        outer.len()
    };
    let mut priority: Vec<usize> = Vec::new();
    append_range(&mut priority, &outer, 0, n1_take);
    let ol = outer.len();
    append_range(&mut priority, &inner_flagged, 0, inner_flagged.len());
    let n2 = random_between(rng, 1, 4);
    let ghost rest0 = inner_rest@;
    shuffle(inner_rest.as_mut_slice(), rng);
    let n2_take = if n2 < inner_rest.len() {
        n2
    } else {
        inner_rest.len()
    };
    append_range(&mut priority, &inner_rest, 0, n2_take);
    let mut tier4: Vec<usize> = Vec::new();
    append_range(&mut tier4, &outer, n1_take, ol);
    let rl = inner_rest.len();
    append_range(&mut tier4, &inner_rest, n2_take, rl);
    let ghost tier4_0 = tier4@;
    shuffle(tier4.as_mut_slice(), rng);
    let ghost before4 = priority@;
    append_range(&mut priority, &tier4, 0, tier4.len());
    proof {
        lemma_rearrangement_contains(outer@, outer0);
        lemma_rearrangement_contains(outer0, outer@);
        lemma_rearrangement_contains(inner_rest@, rest0);
        lemma_rearrangement_contains(rest0, inner_rest@);
        lemma_rearrangement_contains(tier4@, tier4_0);
        lemma_rearrangement_contains(tier4_0, tier4@);
        let p = priority@;
        assert(p == before4 + tier4@.subrange(0, tier4@.len() as int));
        assert(tier4@.subrange(0, tier4@.len() as int) =~= tier4@);
        assert forall|j: int| 0 <= j < p.len() implies #[trigger] p[j] < 16 by {
            if j < before4.len() {
                assert(p[j] == before4[j]);
                if j < n1_take {
                    assert(outer0.contains(outer@[j]));
                } else if j < n1_take + inner_flagged@.len() {
                } else {
                    assert(rest0.contains(inner_rest@[j - n1_take - inner_flagged@.len()]));
                }
            } else {
                let t = tier4@[j - before4.len()];
                assert(p[j] == t);
                assert(tier4_0.contains(t));
                let m = choose|m: int| 0 <= m < tier4_0.len() && tier4_0[m] == t;
                if m < ol - n1_take {
                    assert(outer0.contains(outer@[n1_take + m]));
                } else {
                    assert(rest0.contains(inner_rest@[n2_take + (m - (ol - n1_take))]));
                }
            }
        }
        assert(p.len() == 16);
        assert forall|j: int| 0 <= j < n1_take implies board.groups@[#[trigger] p[j] as int].id is Outer by {
            assert(p[j] == outer@[j]);
            assert(outer0.contains(outer@[j]));
        }
        assert(p.subrange(n1_take as int, n1_take + flagged0.len()) =~= flagged0);
        assert forall|j: int|
            n1_take + flagged0.len() <= j < n1_take + flagged0.len() + n2_take implies !(board.groups@[
            #[trigger] p[j] as int].id is Outer) && !flags@[p[j] as int] by {
            assert(p[j] == inner_rest@[j - n1_take - flagged0.len()]);
            assert(rest0.contains(inner_rest@[j - n1_take - flagged0.len()]));
        }
        assert forall|g: usize| g < 16 implies #[trigger] p.contains(g) by {
            if outer0.contains(g) {
                let m = choose|m: int| 0 <= m < outer@.len() && outer@[m] == g;
                if m < n1_take {
                    assert(p[m] == g);
                } else {
                    assert(tier4_0[m - n1_take] == g);
                    assert(tier4@.contains(g));
                    let m2 = choose|m2: int| 0 <= m2 < tier4@.len() && tier4@[m2] == g;
                    assert(p[before4.len() + m2] == g);
                }
            } else if inner_flagged@.contains(g) {
                let m = choose|m: int| 0 <= m < inner_flagged@.len() && inner_flagged@[m] == g;
                assert(p[n1_take + m] == g);
            } else {
                assert(rest0.contains(g));
                let m = choose|m: int| 0 <= m < inner_rest@.len() && inner_rest@[m] == g;
                if m < n2_take {
                    assert(p[n1_take + inner_flagged@.len() + m] == g);
                } else {
                    assert(tier4_0[(ol - n1_take) + (m - n2_take)] == g);
                    assert(tier4@.contains(g));
                    let m2 = choose|m2: int| 0 <= m2 < tier4@.len() && tier4@[m2] == g;
                    assert(p[before4.len() + m2] == g);
                }
            }
        }
        assert(fill_order_at(*board, flags@, p, n1 as int, n2 as int));
    }
    priority
}

/// The board cells in row-major order are distinct, and a list of
/// distinct board cells has at most 440 of them.
proof fn lemma_grid_distinct(s: Seq<Coord>)
    requires
        s.no_duplicates(),
        forall|k: int| 0 <= k < s.len() ==> in_grid(#[trigger] s[k]),
    ensures
        Seq::new(440, |i: int| grid_cell(i)).no_duplicates(),
        s.len() <= 440,
{
    let g = Seq::new(440, |i: int| grid_cell(i));
    assert forall|a: int, b: int| 0 <= a < g.len() && 0 <= b < g.len() && a != b implies g[a] != g[b] by {
        lemma_grid_cell(a);
        lemma_grid_cell(b);
    }
    assert forall|k: int| 0 <= k < s.len() implies g.contains(#[trigger] s[k]) by {
        crate::ml::board::lemma_grid_index(s[k]);
        assert(g[crate::ml::board::grid_index(s[k])] == s[k]);
    }
    lemma_distinct_subset_len(s, g);
}

/// Once every group of the priority list is in `target`, all 440 board
/// cells are.
proof fn lemma_full_cover(board: UnionBoard, priority: Seq<usize>, target: Seq<Coord>)
    requires
        standard_board(board),
        all_groups(priority),
        target.no_duplicates(),
        forall|j: int, c: int|
            0 <= j < priority.len() && 0 <= c < board.groups@[priority[j] as int].cells@.len()
                ==> target.contains(#[trigger] board.groups@[priority[j] as int].cells@[c]),
    ensures
        target.len() >= 440,
{
    lemma_board_partition(board);
    let g = Seq::new(440, |i: int| grid_cell(i));
    lemma_grid_distinct(Seq::empty());
    assert forall|i: int| 0 <= i < 440 implies target.contains(#[trigger] g[i]) by {
        lemma_grid_cell(i);
        let k = group_index(grid_group(i));
        assert(priority.contains(k as usize));
        let j = choose|j: int| 0 <= j < priority.len() && priority[j] == k as usize;
        let cells = board.groups@[k].cells@;
        assert(cells.contains(grid_cell(i)));
        let c = choose|c: int| 0 <= c < cells.len() && cells[c] == grid_cell(i);
        assert(target.contains(board.groups@[priority[j] as int].cells@[c]));
    }
    lemma_distinct_subset_len(g, target);
}

/// Cell `x` is a cell of one of the groups `priority[0..m]`.
pub open spec fn in_groups_upto(board: UnionBoard, priority: Seq<usize>, m: int, x: Coord) -> bool {
    exists|j: int, c: int|
        0 <= j < m && j < priority.len() && 0 <= c < board.groups@[priority[j] as int].cells@.len()
            && #[trigger] board.groups@[priority[j] as int].cells@[c] == x
}

proof fn lemma_in_groups_grow(board: UnionBoard, priority: Seq<usize>, m: int, x: Coord)
    requires
        in_groups_upto(board, priority, m, x),
    ensures
        in_groups_upto(board, priority, m + 1, x),
{
    let (j, c) = choose|j: int, c: int|
        0 <= j < m && j < priority.len() && 0 <= c < board.groups@[priority[j] as int].cells@.len()
            && #[trigger] board.groups@[priority[j] as int].cells@[c] == x;
}

/// `target` holds every cell of the groups `priority[0..m]`, and each of
/// its other cells is a start cell or a cell of group `priority[m]`.
pub open spec fn filled_upto(
    board: UnionBoard,
    priority: Seq<usize>,
    start: Seq<Coord>,
    target: Seq<Coord>,
    m: int,
) -> bool {
    &&& 0 <= m <= priority.len()
    &&& forall|j: int, c: int|
        0 <= j < m && 0 <= c < board.groups@[priority[j] as int].cells@.len() ==> target.contains(
            #[trigger] board.groups@[priority[j] as int].cells@[c],
        )
    &&& forall|x: Coord| #[trigger] target.contains(x) ==> start.contains(x) || in_groups_upto(board, priority, m + 1, x)
}

/// `target` is `start` plus whole groups of a prefix of `priority`, plus
/// some cells of the next group.
pub open spec fn filled_from(board: UnionBoard, priority: Seq<usize>, start: Seq<Coord>, target: Seq<Coord>) -> bool {
    exists|m: int| #[trigger] filled_upto(board, priority, start, target, m)
}

/// Adds group cells to `start` in priority order until `total` cells are
/// chosen: whole groups while they fit, then a connected patch of the next
/// group (see [`bfs_pick`]).
pub(crate) fn fill_target(
    board: &UnionBoard,
    priority: &Vec<usize>,
    start: Vec<Coord>,
    total: usize,
    rng: &mut SolverRng,
) -> (r: Vec<Coord>)
    requires
        standard_board(*board),
        all_groups(priority@),
        start@.no_duplicates(),
        forall|k: int| 0 <= k < start@.len() ==> in_grid(#[trigger] start@[k]),
        total <= 440,
    ensures
        r@.no_duplicates(),
        forall|k: int| 0 <= k < r@.len() ==> in_grid(#[trigger] r@[k]),
        forall|k: int| 0 <= k < start@.len() ==> r@.contains(#[trigger] start@[k]),
        r@.len() == if total >= start@.len() {
            total as int
        } else {
            start@.len() as int
        },
        filled_from(*board, priority@, start@, r@),
{
    proof {
        lemma_board_partition(*board);
        lemma_grid_distinct(start@);
    }
    let ghost expected: int = if total >= start@.len() {
        total as int
    } else {
        start@.len() as int
    };
    let ghost s0 = start@;
    let mut target = start;
    let mut idx: usize = 0;
    assert(priority@.contains(0usize));
    while idx < priority.len()
        invariant_except_break
            forall|x: Coord| #[trigger] target@.contains(x) ==> s0.contains(x) || in_groups_upto(
                *board,
                priority@,
                idx as int,
                x,
            ),
        invariant
            standard_board(*board),
            all_groups(priority@),
            idx <= priority@.len(),
            total <= 440,
            expected == if total >= s0.len() {
                total as int
            } else {
                s0.len() as int
            },
            expected <= 440,
            target@.no_duplicates(),
            forall|k: int| 0 <= k < target@.len() ==> in_grid(#[trigger] target@[k]),
            forall|k: int| 0 <= k < s0.len() ==> target@.contains(#[trigger] s0[k]),
            target@.len() <= expected,
            total < s0.len() ==> target@.len() == s0.len(),
            forall|k: int, j: int|
                0 <= k < 16 && 0 <= j < board.groups@[k].cells@.len() ==> in_grid(
                    #[trigger] board.groups@[k].cells@[j],
                ),
            forall|k: int| 0 <= k < 16 ==> (#[trigger] board.groups@[k]).cells@.no_duplicates(),
            forall|j: int, c: int|
                0 <= j < idx && 0 <= c < board.groups@[priority@[j] as int].cells@.len()
                    ==> target@.contains(#[trigger] board.groups@[priority@[j] as int].cells@[c]),
            idx == priority@.len() ==> filled_from(*board, priority@, s0, target@),
        ensures
            filled_from(*board, priority@, s0, target@),
            target@.len() == expected || forall|j: int, c: int|
                0 <= j < priority@.len() && 0 <= c < board.groups@[priority@[j] as int].cells@.len()
                    ==> target@.contains(#[trigger] board.groups@[priority@[j] as int].cells@[c]),
            target@.len() <= expected,
            target@.no_duplicates(),
            forall|k: int| 0 <= k < target@.len() ==> in_grid(#[trigger] target@[k]),
            forall|k: int| 0 <= k < s0.len() ==> target@.contains(#[trigger] s0[k]),
        decreases priority.len() - idx,
    {
        if target.len() >= total {
            proof {
                assert forall|x: Coord| #[trigger] target@.contains(x) implies s0.contains(x) || in_groups_upto(
                    *board,
                    priority@,
                    idx + 1,
                    x,
                ) by {
                    if !s0.contains(x) {
                        lemma_in_groups_grow(*board, priority@, idx as int, x);
                    }
                }
                assert(filled_upto(*board, priority@, s0, target@, idx as int));
            }
            break;
        }
        let needed = total - target.len();
        let gi = priority[idx];
        assert(gi < 16);
        let cells = &board.groups[gi].cells;
        let mut available: Vec<Coord> = Vec::new();
        let mut c: usize = 0;
        while c < cells.len()
            invariant
                c <= cells@.len(),
                cells@.no_duplicates(),
                forall|j: int| 0 <= j < cells@.len() ==> in_grid(#[trigger] cells@[j]),
                available@.no_duplicates(),
                forall|j: int|
                    0 <= j < available@.len() ==> !target@.contains(#[trigger] available@[j])
                        && in_grid(available@[j]) && cells@.subrange(0, c as int).contains(available@[j]),
                forall|j: int|
                    0 <= j < c && !target@.contains(#[trigger] cells@[j]) ==> available@.contains(cells@[j]),
            decreases cells.len() - c,
        {
            let cell = cells[c];
            let ghost a0 = available@;
            if !contains_coord(&target, cell) {
                proof {
                    assert forall|j: int| 0 <= j < a0.len() implies a0[j] != cell by {
                        let m = choose|m: int| 0 <= m < c && cells@.subrange(0, c as int)[m] == a0[j];
                        assert(cells@[m] == a0[j]);
                    }
                }
                available.push(cell);
                proof {
                    assert forall|a: int, b: int| 0 <= a < b < available@.len() implies available@[a]
                        != available@[b] by {
                        if b < a0.len() {
                            assert(available@[a] == a0[a] && available@[b] == a0[b]);
                        } else {
                            assert(available@[a] == a0[a]);
                        }
                    }
                    assert(available@[available@.len() - 1] == cell);
                }
            }
            proof {
                assert forall|j: int|
                    0 <= j < available@.len() implies !target@.contains(#[trigger] available@[j])
                        && in_grid(available@[j]) && cells@.subrange(0, c + 1).contains(available@[j]) by {
                    if j < a0.len() {
                        assert(available@[j] == a0[j]);
                        let m = choose|m: int| 0 <= m < c && cells@.subrange(0, c as int)[m] == a0[j];
                        assert(cells@.subrange(0, c + 1)[m] == a0[j]);
                    } else {
                        assert(cells@.subrange(0, c + 1)[c as int] == cell);
                    }
                }
                assert forall|j: int| 0 <= j < c + 1 && !target@.contains(#[trigger] cells@[j]) implies available@.contains(
                    cells@[j],
                ) by {
                    if j < c {
                        let m = choose|m: int| 0 <= m < a0.len() && a0[m] == cells@[j];
                        assert(available@[m] == a0[m]);
                    } else {
                        assert(available@[available@.len() - 1] == cell);
                    }
                }
            }
            c = c + 1;
        }
        if available.len() == 0 {
            proof {
                assert forall|j: int, c2: int|
                    0 <= j < idx + 1 && 0 <= c2 < board.groups@[priority@[j] as int].cells@.len()
                        implies target@.contains(#[trigger] board.groups@[priority@[j] as int].cells@[c2]) by {
                    if j == idx {
                        if !target@.contains(cells@[c2]) {
                            assert(available@.contains(cells@[c2]));
                        }
                    }
                }
                assert forall|x: Coord| #[trigger] target@.contains(x) implies s0.contains(x) || in_groups_upto(
                    *board,
                    priority@,
                    idx + 1,
                    x,
                ) by {
                    if !s0.contains(x) {
                        lemma_in_groups_grow(*board, priority@, idx as int, x);
                    }
                }
            }
            idx = idx + 1;
            proof {
                if idx == priority@.len() {
                    assert forall|x: Coord| #[trigger] target@.contains(x) implies s0.contains(x) || in_groups_upto(
                        *board,
                        priority@,
                        idx + 1,
                        x,
                    ) by {
                        if !s0.contains(x) {
                            lemma_in_groups_grow(*board, priority@, idx as int, x);
                        }
                    }
                    assert(filled_upto(*board, priority@, s0, target@, idx as int));
                }
            }
            continue;
        }
        let ghost t0 = target@;
        let ghost avail = available@;
        let take_all = available.len() <= needed;
        let addition = if take_all {
            available
        } else {
            bfs_pick(&available, &target, needed, rng)
        };
        let mut a: usize = 0;
        while a < addition.len()
            invariant
                a <= addition@.len(),
                target@ == t0 + addition@.subrange(0, a as int),
            decreases addition.len() - a,
        {
            target.push(addition[a]);
            a = a + 1;
            assert(target@ =~= t0 + addition@.subrange(0, a as int));
        }
        assert(addition@.subrange(0, addition@.len() as int) =~= addition@);
        proof {
            assert(addition@.no_duplicates());
            assert forall|j: int| 0 <= j < addition@.len() implies !t0.contains(#[trigger] addition@[j])
                && in_grid(addition@[j]) by {
                assert(avail.contains(addition@[j]));
                let m = choose|m: int| 0 <= m < avail.len() && avail[m] == addition@[j];
            }
            assert forall|x: int, y: int| 0 <= x < y < target@.len() implies target@[x] != target@[y] by {
                if y < t0.len() {
                } else if x < t0.len() {
                    assert(target@[y] == addition@[y - t0.len()]);
                    assert(t0.contains(target@[x]));
                } else {
                    assert(target@[x] == addition@[x - t0.len()]);
                    assert(target@[y] == addition@[y - t0.len()]);
                }
            }
            assert forall|k: int| 0 <= k < target@.len() implies in_grid(#[trigger] target@[k]) by {
                if k >= t0.len() {
                    assert(target@[k] == addition@[k - t0.len()]);
                }
            }
            assert forall|k: int| 0 <= k < s0.len() implies target@.contains(#[trigger] s0[k]) by {
                let m = choose|m: int| 0 <= m < t0.len() && t0[m] == s0[k];
                assert(target@[m] == t0[m]);
            }
        }
        proof {
            assert forall|j: int, c2: int|
                0 <= j < idx && 0 <= c2 < board.groups@[priority@[j] as int].cells@.len()
                    implies target@.contains(#[trigger] board.groups@[priority@[j] as int].cells@[c2]) by {
                let x = board.groups@[priority@[j] as int].cells@[c2];
                assert(t0.contains(x));
                let m = choose|m: int| 0 <= m < t0.len() && t0[m] == x;
                assert(target@[m] == t0[m]);
            }
        }
        proof {
            assert forall|x: Coord| #[trigger] target@.contains(x) implies s0.contains(x) || in_groups_upto(
                *board,
                priority@,
                idx + 1,
                x,
            ) by {
                if t0.contains(x) {
                    if !s0.contains(x) {
                        lemma_in_groups_grow(*board, priority@, idx as int, x);
                    }
                } else {
                    let m = choose|m: int| 0 <= m < target@.len() && target@[m] == x;
                    assert(m >= t0.len());
                    assert(addition@[m - t0.len()] == x);
                    assert(avail.contains(x));
                    let a2 = choose|a2: int| 0 <= a2 < avail.len() && avail[a2] == x;
                    assert(cells@.subrange(0, cells@.len() as int).contains(x));
                    let q = choose|q: int| 0 <= q < cells@.len() && cells@.subrange(0, cells@.len() as int)[q] == x;
                    assert(board.groups@[priority@[idx as int] as int].cells@[q] == x);
                }
            }
        }
        if !take_all {
            proof {
                assert(filled_upto(*board, priority@, s0, target@, idx as int));
            }
            break;
        }
        proof {
            assert forall|j: int, c2: int|
                0 <= j < idx + 1 && 0 <= c2 < board.groups@[priority@[j] as int].cells@.len()
                    implies target@.contains(#[trigger] board.groups@[priority@[j] as int].cells@[c2]) by {
                let x = board.groups@[priority@[j] as int].cells@[c2];
                if j == idx {
                    if t0.contains(x) {
                        let m = choose|m: int| 0 <= m < t0.len() && t0[m] == x;
                        assert(target@[m] == t0[m]);
                    } else {
                        assert(avail.contains(x));
                        let m = choose|m: int| 0 <= m < avail.len() && avail[m] == x;
                        assert(target@[t0.len() + m] == addition@[m]);
                    }
                } else {
                    assert(t0.contains(x));
                    let m = choose|m: int| 0 <= m < t0.len() && t0[m] == x;
                    assert(target@[m] == t0[m]);
                }
            }
        }
        idx = idx + 1;
        proof {
            if idx == priority@.len() {
                assert forall|x: Coord| #[trigger] target@.contains(x) implies s0.contains(x) || in_groups_upto(
                    *board,
                    priority@,
                    idx + 1,
                    x,
                ) by {
                    if !s0.contains(x) {
                        lemma_in_groups_grow(*board, priority@, idx as int, x);
                    }
                }
                assert(filled_upto(*board, priority@, s0, target@, idx as int));
            }
        }
    }
    proof {
        if target@.len() != expected {
            lemma_full_cover(*board, priority@, target@);
        }
    }
    target
}

/// Two lists with the same cells are filled alike.
pub proof fn lemma_filled_same_cells(
    board: UnionBoard,
    priority: Seq<usize>,
    start: Seq<Coord>,
    a: Seq<Coord>,
    b: Seq<Coord>,
)
    requires
        filled_from(board, priority, start, a),
        forall|x: Coord| a.contains(x) <==> b.contains(x),
    ensures
        filled_from(board, priority, start, b),
{
    let m = choose|m: int| #[trigger] filled_upto(board, priority, start, a, m);
    assert forall|x: Coord| #[trigger] b.contains(x) implies start.contains(x) || in_groups_upto(board, priority, m + 1, x) by {
        assert(a.contains(x));
    }
    assert forall|j: int, c: int|
        0 <= j < m && 0 <= c < board.groups@[priority[j] as int].cells@.len() implies b.contains(
        #[trigger] board.groups@[priority[j] as int].cells@[c],
    ) by {
        assert(a.contains(board.groups@[priority[j] as int].cells@[c]));
    }
    assert(filled_upto(board, priority, start, b, m));
}

/// For each group, whether it holds one of `centers`.
pub open spec fn center_flags(board: UnionBoard, centers: Seq<Coord>) -> Seq<bool> {
    Seq::new(
        16,
        |k: int| exists|i: int| 0 <= i < centers.len() && board.groups@[k].cells@.contains(#[trigger] centers[i]),
    )
}

/// Whether some of `centers` lies in `cells`.
fn holds_any(cells: &Vec<Coord>, centers: &Vec<Coord>) -> (r: bool)
    ensures
        r == exists|k: int| 0 <= k < centers@.len() && cells@.contains(#[trigger] centers@[k]),
{
    let mut k: usize = 0;
    while k < centers.len()
        invariant
            k <= centers@.len(),
            forall|j: int| 0 <= j < k ==> !cells@.contains(#[trigger] centers@[j]),
        decreases centers.len() - k,
    {
        if contains_coord(cells, centers[k]) {
            return true;
        }
        k = k + 1;
    }
    false
}

/// Chooses the target cells of one instance with `center_count` center
/// cells and `piece_total_cells` cells in all: the center cells at random,
/// then whole groups in [`priority_order`] (the inner groups of the chosen
/// centers right after the first outer groups), and a connected patch of
/// the group that would overshoot.
///
/// The result holds exactly `piece_total_cells` distinct board cells, in
/// row-major order, among them every chosen center, unless there are more
/// centers than that; the centers are distinct center cells of the board,
/// in row-major order.
pub fn select_target_cells(
    board: &UnionBoard,
    piece_total_cells: usize,
    center_count: usize,
    rng: &mut SolverRng,
) -> (t: TargetSelection)
    requires
        standard_board(*board),
        1 <= center_count <= 4,
        piece_total_cells <= 440,
    ensures
        t.center_cells@.len() == center_count,
        sorted_by(t.center_cells@, row_major()),
        distinct_within(t.center_cells@, center_seq()),
        sorted_by(t.all_cells@, row_major()),
        t.all_cells@.no_duplicates(),
        forall|k: int| 0 <= k < t.all_cells@.len() ==> in_grid(#[trigger] t.all_cells@[k]),
        forall|k: int| 0 <= k < t.center_cells@.len() ==> t.all_cells@.contains(#[trigger] t.center_cells@[k]),
        t.all_cells@.len() == if piece_total_cells >= center_count {
            piece_total_cells as int
        } else {
            center_count as int
        },
        exists|priority: Seq<usize>|
            fill_order_ok(*board, center_flags(*board, t.center_cells@), priority) && filled_from(
                *board,
                priority,
                t.center_cells@,
                t.all_cells@,
            ),
{
    assert(center_seq().no_duplicates()) by {
        let cs = center_seq();
        assert(cs[0] == (9i8, 10i8) && cs[1] == (9i8, 11i8) && cs[2] == (10i8, 10i8) && cs[3] == (10i8, 11i8));
    }
    let sampled = sample_from(board.center_cells.as_slice(), rng, center_count);
    let selected = sort_coords(&sampled);
    proof {
        lemma_sort_cells(sampled@);
        assert forall|k: int| 0 <= k < selected@.len() implies center_seq().contains(#[trigger] selected@[k]) by {
            let m = choose|m: int| 0 <= m < sampled@.len() && sampled@[m] == selected@[k];
            assert(board.center_cells@.contains(sampled@[m]));
        }
        assert forall|k: int| 0 <= k < selected@.len() implies in_grid(#[trigger] selected@[k]) by {
            assert(center_seq().contains(selected@[k]));
        }
    }
    let mut flags: Vec<bool> = Vec::new();
    let mut k: usize = 0;
    while k < 16
        invariant
            k <= 16,
            board.groups@.len() == 16,
            flags@.len() == k,
            forall|j: int| 0 <= j < k ==> #[trigger] flags@[j] == center_flags(*board, selected@)[j],
        decreases 16 - k,
    {
        flags.push(holds_any(&board.groups[k].cells, &selected));
        k = k + 1;
    }
    assert(flags@ =~= center_flags(*board, selected@));
    let priority = priority_order(board, &flags, rng);
    let start = crate::domain::piece::copy_coords(&selected);
    let target = fill_target(board, &priority, start, piece_total_cells, rng);
    let all_cells = sort_coords(&target);
    proof {
        lemma_sort_cells(target@);
        assert forall|k: int| 0 <= k < all_cells@.len() implies in_grid(#[trigger] all_cells@[k]) by {
            let m = choose|m: int| 0 <= m < target@.len() && target@[m] == all_cells@[k];
        }
        assert forall|k: int| 0 <= k < selected@.len() implies all_cells@.contains(#[trigger] selected@[k]) by {
            assert(target@.contains(selected@[k]));
            let m = choose|m: int| 0 <= m < target@.len() && target@[m] == selected@[k];
            assert(all_cells@.contains(target@[m]));
        }
        assert forall|x: Coord| target@.contains(x) <==> all_cells@.contains(x) by {
            if target@.contains(x) {
                let m = choose|m: int| 0 <= m < target@.len() && target@[m] == x;
                assert(all_cells@.contains(target@[m]));
            }
            if all_cells@.contains(x) {
                let m = choose|m: int| 0 <= m < all_cells@.len() && all_cells@[m] == x;
                assert(target@.contains(all_cells@[m]));
            }
        }
        lemma_filled_same_cells(*board, priority@, selected@, target@, all_cells@);
    }
    TargetSelection { all_cells, center_cells: selected }
}

} // verus!
