//! Target cells laid out by board quadrant: a few outer groups within a
//! share of the cell budget, the center cells and inner groups of the
//! quadrants those outer groups lie in first, then the rest, until the
//! pieces' cell total is reached.

use vstd::prelude::*;

use crate::base::rng::{SolverRng, is_rearrangement, lemma_rearrangement_contains, random_between, shuffle};
use crate::domain::piece::{Coord, lemma_sort_cells, row_major, sort_coords};
use crate::ml::board::{
    Group, UnionBoard, center_seq, in_grid, lemma_groups_nonempty, standard_board,
};
use crate::ml::target::{
    TargetSelection, all_groups, append_range, distinct_within, fill_target, filled_from,
    lemma_filled_same_cells, lemma_rearrangement_distinct,
};
use vstd::relations::sorted_by;

verus! {

/// One of the four board quadrants.
#[derive(Clone, Copy, Debug, PartialEq, Eq, Structural)]
pub enum Quadrant {
    NW,
    NE,
    SW,
    SE,
}

/// The quadrant of a cell: rows 0-9 are north, columns 0-10 are west.
pub open spec fn quadrant_of(p: Coord) -> Quadrant {
    if p.0 < 10 {
        if p.1 < 11 {
            Quadrant::NW
        } else {
            Quadrant::NE
        }
    } else {
        if p.1 < 11 {
            Quadrant::SW
        } else {
            Quadrant::SE
        }
    }
}

/// Position of a quadrant among the four.
pub open spec fn quadrant_slot(q: Quadrant) -> int {
    match q {
        Quadrant::NW => 0,
        Quadrant::NE => 1,
        Quadrant::SW => 2,
        Quadrant::SE => 3,
    }
}

/// The quadrant a cell lies in.
pub fn cell_quadrant(cell: Coord) -> (q: Quadrant)
    ensures
        q == quadrant_of(cell),
{
    if cell.0 < 10 {
        if cell.1 < 11 {
            Quadrant::NW
        } else {
            Quadrant::NE
        }
    } else {
        if cell.1 < 11 {
            Quadrant::SW
        } else {
            Quadrant::SE
        }
    }
}

/// The quadrant of a group: that of its first cell.
pub fn group_quadrant(group: &Group) -> (q: Quadrant)
    requires
        group.cells@.len() > 0,
    ensures
        q == quadrant_of(group.cells@[0]),
{
    cell_quadrant(group.cells[0])
}

fn slot(q: Quadrant) -> (r: usize)
    ensures
        r as int == quadrant_slot(q),
        r < 4,
{
    match q {
        Quadrant::NW => 0,
        Quadrant::NE => 1,
        Quadrant::SW => 2,
        Quadrant::SE => 3,
    }
}

/// The cell lies in a quadrant marked in `flags`.
pub open spec fn flagged(flags: Seq<bool>, p: Coord) -> bool {
    flags[quadrant_slot(quadrant_of(p))]
}

/// The chosen centers all lie in quadrants marked in `flags`, or every
/// center cell in a marked quadrant is chosen.
pub open spec fn prefers_flagged(chosen: Seq<Coord>, flags: Seq<bool>) -> bool {
    ||| forall|k: int| 0 <= k < chosen.len() ==> flagged(flags, #[trigger] chosen[k])
    ||| forall|j: int| 0 <= j < 4 && flagged(flags, center_seq()[j]) ==> chosen.contains(#[trigger] center_seq()[j])
}

/// The four center cells, those in marked quadrants first, each part in
/// random order; the first `count` of them in row-major order.
fn pick_centers(board: &UnionBoard, flags: &Vec<bool>, count: usize, rng: &mut SolverRng) -> (r: Vec<Coord>)
    requires
        standard_board(*board),
        flags@.len() == 4,
        count <= 4,
    ensures
        r@.len() == count,
        sorted_by(r@, row_major()),
        distinct_within(r@, center_seq()),
        prefers_flagged(r@, flags@),
{
    let ghost cs = center_seq();
    assert(cs.no_duplicates()) by {
        assert(cs.len() == 4);
        assert(cs[0] == (9i8, 10i8) && cs[1] == (9i8, 11i8) && cs[2] == (10i8, 10i8) && cs[3] == (10i8, 11i8));
    }
    let mut inside: Vec<Coord> = Vec::new();
    let mut outside: Vec<Coord> = Vec::new();
    let mut c: usize = 0;
    while c < board.center_cells.len()
        invariant
            c <= 4,
            cs.len() == 4,
            board.center_cells@ == cs,
            cs.no_duplicates(),
            flags@.len() == 4,
            inside@.len() + outside@.len() == c,
            inside@.no_duplicates(),
            outside@.no_duplicates(),
            forall|k: int| 0 <= k < inside@.len() ==> cs.subrange(0, c as int).contains(#[trigger] inside@[k]),
            forall|k: int| 0 <= k < outside@.len() ==> cs.subrange(0, c as int).contains(#[trigger] outside@[k]),
            forall|k: int| 0 <= k < inside@.len() ==> flagged(flags@, #[trigger] inside@[k]),
            forall|k: int| 0 <= k < outside@.len() ==> !flagged(flags@, #[trigger] outside@[k]),
            forall|j: int| 0 <= j < c && flagged(flags@, cs[j]) ==> inside@.contains(#[trigger] cs[j]),
        decreases 4 - c,
    {
        let p = board.center_cells[c];
        let ghost (in0, out0) = (inside@, outside@);
        proof {
            assert forall|k: int| 0 <= k < in0.len() implies in0[k] != p by {
                let j = choose|j: int| 0 <= j < c && cs.subrange(0, c as int)[j] == in0[k];
                assert(cs[j] == in0[k]);
            }
            assert forall|k: int| 0 <= k < out0.len() implies out0[k] != p by {
                let j = choose|j: int| 0 <= j < c && cs.subrange(0, c as int)[j] == out0[k];
                assert(cs[j] == out0[k]);
            }
        }
        if flags[slot(cell_quadrant(p))] {
            inside.push(p);
        } else {
            outside.push(p);
        }
        proof {
            assert forall|j: int| 0 <= j < c + 1 && flagged(flags@, cs[j]) implies inside@.contains(#[trigger] cs[j]) by {
                if j < c {
                    let m = choose|m: int| 0 <= m < in0.len() && in0[m] == cs[j];
                    assert(inside@[m] == in0[m]);
                } else {
                    assert(inside@[inside@.len() - 1] == p);
                }
            }
            assert forall|k: int| 0 <= k < inside@.len() implies cs.subrange(0, c + 1).contains(#[trigger] inside@[k]) by {
                if k < in0.len() {
                    let j = choose|j: int| 0 <= j < c && cs.subrange(0, c as int)[j] == in0[k];
                    assert(cs.subrange(0, c + 1)[j] == in0[k]);
                } else {
                    assert(cs.subrange(0, c + 1)[c as int] == p);
                }
            }
            assert forall|k: int| 0 <= k < outside@.len() implies cs.subrange(0, c + 1).contains(#[trigger] outside@[k]) by {
                if k < out0.len() {
                    let j = choose|j: int| 0 <= j < c && cs.subrange(0, c as int)[j] == out0[k];
                    assert(cs.subrange(0, c + 1)[j] == out0[k]);
                } else {
                    assert(cs.subrange(0, c + 1)[c as int] == p);
                }
            }
        }
        c = c + 1;
    }
    assert(cs.subrange(0, 4) =~= cs);
    let ghost (in0, out0) = (inside@, outside@);
    shuffle(inside.as_mut_slice(), rng);
    shuffle(outside.as_mut_slice(), rng);
    proof {
        lemma_rearrangement_contains(in0, inside@);
        lemma_rearrangement_contains(out0, outside@);
        lemma_rearrangement_distinct(in0, inside@);
        lemma_rearrangement_distinct(out0, outside@);
    }
    let ghost (in1, out1) = (inside@, outside@);
    let ghost inside_after = inside@;
    let mut both = inside;
    both.append(&mut outside);
    proof {
        let b = both@;
        assert(b == in1 + out1);
        assert forall|k: int| 0 <= k < b.len() implies cs.contains(#[trigger] b[k]) && (flagged(flags@, b[k])
            <==> k < in1.len()) by {
            if k < in1.len() {
                assert(b[k] == in1[k]);
                assert(in0.contains(in1[k]));
            } else {
                assert(b[k] == out1[k - in1.len()]);
                assert(out0.contains(out1[k - in1.len()]));
            }
        }
        assert forall|a: int, d: int| 0 <= a < b.len() && 0 <= d < b.len() && a != d implies b[a] != b[d] by {
            if a < in1.len() && d < in1.len() {
                assert(b[a] == in1[a] && b[d] == in1[d]);
            } else if a >= in1.len() && d >= in1.len() {
                assert(b[a] == out1[a - in1.len()] && b[d] == out1[d - in1.len()]);
            }
        }
    }
    let ghost b0 = both@;
    both.truncate(count);
    proof {
        assert(both@ == b0.subrange(0, count as int));
        assert forall|k: int| 0 <= k < both@.len() implies cs.contains(#[trigger] both@[k]) by {
            assert(both@[k] == b0[k]);
        }
        assert forall|a: int, d: int| 0 <= a < both@.len() && 0 <= d < both@.len() && a != d implies both@[a]
            != both@[d] by {
            assert(both@[a] == b0[a] && both@[d] == b0[d]);
        }
    }
    proof {
        let b = both@;
        if count <= in1.len() {
            assert forall|k: int| 0 <= k < b.len() implies flagged(flags@, #[trigger] b[k]) by {
                assert(b[k] == b0[k]);
            }
        } else {
            assert forall|j: int| 0 <= j < 4 && flagged(flags@, cs[j]) implies b.contains(#[trigger] cs[j]) by {
                assert(in0.contains(cs[j]));
                lemma_rearrangement_contains(inside_after, in0);
                let m = choose|m: int| 0 <= m < in1.len() && in1[m] == cs[j];
                assert(b[m] == b0[m]);
            }
        }
    }
    let sorted = sort_coords(&both);
    proof {
        lemma_sort_cells(both@);
        if forall|k: int| 0 <= k < both@.len() ==> flagged(flags@, #[trigger] both@[k]) {
            assert forall|k: int| 0 <= k < sorted@.len() implies flagged(flags@, #[trigger] sorted@[k]) by {
                let m = choose|m: int| 0 <= m < both@.len() && both@[m] == sorted@[k];
            }
        } else {
            assert forall|j: int| 0 <= j < 4 && flagged(flags@, cs[j]) implies sorted@.contains(#[trigger] cs[j]) by {
                assert(both@.contains(cs[j]));
                let m = choose|m: int| 0 <= m < both@.len() && both@[m] == cs[j];
                assert(sorted@.contains(both@[m]));
            }
        }
        assert forall|k: int| 0 <= k < sorted@.len() implies cs.contains(#[trigger] sorted@[k]) by {
            let m = choose|m: int| 0 <= m < both@.len() && both@[m] == sorted@[k];
        }
    }
    sorted
}

/// The inner group at position `k` lies in a quadrant whose flag is set.
pub open spec fn inner_flagged(board: UnionBoard, flags: Seq<bool>, k: int) -> bool {
    flags[quadrant_slot(quadrant_of(board.groups@[k].cells@[0]))]
}

/// The positions from 8 up to `k` of the inner groups whose quadrant flag
/// is `want`, in increasing order.
pub open spec fn quadrant_inner_upto(board: UnionBoard, flags: Seq<bool>, want: bool, k: int) -> Seq<usize>
    decreases k,
{
    if k <= 8 {
        Seq::empty()
    } else {
        let prev = quadrant_inner_upto(board, flags, want, k - 1);
        if inner_flagged(board, flags, k - 1) == want {
            prev.push((k - 1) as usize)
        } else {
            prev
        }
    }
}

proof fn lemma_quadrant_inner_upto(board: UnionBoard, flags: Seq<bool>, want: bool, k: int)
    requires
        8 <= k <= 16,
    ensures
        forall|j: int|
            0 <= j < quadrant_inner_upto(board, flags, want, k).len() ==> 8 <= (
            #[trigger] quadrant_inner_upto(board, flags, want, k)[j]) < k && inner_flagged(
                board,
                flags,
                quadrant_inner_upto(board, flags, want, k)[j] as int,
            ) == want,
    decreases k,
{
    if k > 8 {
        lemma_quadrant_inner_upto(board, flags, want, k - 1);
        let prev = quadrant_inner_upto(board, flags, want, k - 1);
        assert forall|j: int| 0 <= j < quadrant_inner_upto(board, flags, want, k).len() implies 8 <= (
        #[trigger] quadrant_inner_upto(board, flags, want, k)[j]) < k && inner_flagged(
            board,
            flags,
            quadrant_inner_upto(board, flags, want, k)[j] as int,
        ) == want by {
            if j < prev.len() {
                assert(quadrant_inner_upto(board, flags, want, k)[j] == prev[j]);
            }
        }
    }
}

/// `r` is a fill order as [`quadrant_priority`] draws them, with `n2`
/// further inner groups wanted: the first `n1_take` groups of `outer`,
/// then the inner groups of the flagged quadrants in some order, then
/// `min(n2, others)` inner groups of the other quadrants, then the rest;
/// every group once.
pub open spec fn quadrant_order_at(
    board: UnionBoard,
    outer: Seq<usize>,
    n1_take: int,
    flags: Seq<bool>,
    r: Seq<usize>,
    n2: int,
) -> bool {
    let np = quadrant_inner_upto(board, flags, true, 16).len() as int;
    let nr = quadrant_inner_upto(board, flags, false, 16).len() as int;
    let nc = if n2 < nr {
        n2
    } else {
        nr
    };
    &&& 1 <= n2 <= 4
    &&& r.len() == 16
    &&& all_groups(r)
    &&& r.subrange(0, n1_take) == outer.subrange(0, n1_take)
    &&& forall|j: int| n1_take <= j < n1_take + np ==> 8 <= #[trigger] r[j] && inner_flagged(board, flags, r[j] as int)
    &&& forall|j: int|
        n1_take + np <= j < n1_take + np + nc ==> 8 <= #[trigger] r[j] && !inner_flagged(board, flags, r[j] as int)
}

/// `r` is a fill order as [`quadrant_priority`] draws them.
pub open spec fn quadrant_order_ok(board: UnionBoard, outer: Seq<usize>, n1_take: int, flags: Seq<bool>, r: Seq<usize>) -> bool {
    exists|n2: int| quadrant_order_at(board, outer, n1_take, flags, r, n2)
}

/// The groups in fill order: the first `n1_take` groups of `outer` (the
/// outer groups in random order), then the inner groups of the quadrants
/// marked in `flags` in random order, then 1 to 4 other inner groups at
/// random, then all the rest in random order.
#[verifier::rlimit(80)]
fn quadrant_priority(
    board: &UnionBoard,
    outer: &Vec<usize>,
    n1_take: usize,
    flags: &Vec<bool>,
    rng: &mut SolverRng,
) -> (r: Vec<usize>)
    requires
        standard_board(*board),
        flags@.len() == 4,
        outer@.len() == 8,
        n1_take <= 8,
        forall|j: int| 0 <= j < 8 ==> #[trigger] outer@[j] < 8,
        forall|g: usize| g < 8 ==> #[trigger] outer@.contains(g),
    ensures
        quadrant_order_ok(*board, outer@, n1_take as int, flags@, r@),
{
    proof {
        lemma_groups_nonempty(*board);
    }
    let mut path: Vec<usize> = Vec::new();
    let mut other: Vec<usize> = Vec::new();
    let mut k: usize = 8;
    while k < 16
        invariant
            8 <= k <= 16,
            board.groups@.len() == 16,
            flags@.len() == 4,
            forall|j: int| 0 <= j < 16 ==> 0 < (#[trigger] board.groups@[j]).cells@.len(),
            forall|j: int| 0 <= j < path@.len() ==> #[trigger] path@[j] < 16,
            forall|j: int| 0 <= j < other@.len() ==> #[trigger] other@[j] < 16,
            forall|g: usize| 8 <= g < k ==> #[trigger] path@.contains(g) || other@.contains(g),
            path@ == quadrant_inner_upto(*board, flags@, true, k as int),
            other@ == quadrant_inner_upto(*board, flags@, false, k as int),
            path@.len() + other@.len() == k - 8,
        decreases 16 - k,
    {
        let ghost (p0, o0) = (path@, other@);
        let q = group_quadrant(&board.groups[k]);
        if flags[slot(q)] {
            path.push(k);
        } else {
            other.push(k);
        }
        proof {
            assert forall|g: usize| 8 <= g < k + 1 implies #[trigger] path@.contains(g) || other@.contains(g) by {
                if g < k {
                    if p0.contains(g) {
                        let j = choose|j: int| 0 <= j < p0.len() && p0[j] == g;
                        assert(path@[j] == p0[j]);
                    } else {
                        let j = choose|j: int| 0 <= j < o0.len() && o0[j] == g;
                        assert(other@[j] == o0[j]);
                    }
                } else if path@.len() > p0.len() {
                    assert(path@[path@.len() - 1] == g);
                } else {
                    assert(other@[other@.len() - 1] == g);
                }
            }
        }
        k = k + 1;
    }
    let ghost path0 = path@;
    proof {
        lemma_quadrant_inner_upto(*board, flags@, true, 16);
        lemma_quadrant_inner_upto(*board, flags@, false, 16);
    }
    shuffle(path.as_mut_slice(), rng);
    let mut priority: Vec<usize> = Vec::new();
    append_range(&mut priority, outer, 0, n1_take);
    append_range(&mut priority, &path, 0, path.len());
    let n2 = random_between(rng, 1, 4);
    let ghost other0 = other@;
    shuffle(other.as_mut_slice(), rng);
    let n2_take = if n2 < other.len() {
        n2
    } else {
        other.len()
    };
    append_range(&mut priority, &other, 0, n2_take);
    let mut tier4: Vec<usize> = Vec::new();
    append_range(&mut tier4, outer, n1_take, 8);
    let ol = other.len();
    append_range(&mut tier4, &other, n2_take, ol);
    let ghost tier4_0 = tier4@;
    shuffle(tier4.as_mut_slice(), rng);
    let ghost before4 = priority@;
    append_range(&mut priority, &tier4, 0, tier4.len());
    proof {
        lemma_rearrangement_contains(path@, path0);
        lemma_rearrangement_contains(path0, path@);
        lemma_rearrangement_contains(other@, other0);
        lemma_rearrangement_contains(other0, other@);
        lemma_rearrangement_contains(tier4@, tier4_0);
        lemma_rearrangement_contains(tier4_0, tier4@);
        let p = priority@;
        let pl = path@.len();
        assert(p == before4 + tier4@.subrange(0, tier4@.len() as int));
        assert(tier4@.subrange(0, tier4@.len() as int) =~= tier4@);
        assert forall|j: int| 0 <= j < p.len() implies #[trigger] p[j] < 16 by {
            if j < before4.len() {
                assert(p[j] == before4[j]);
                if j < n1_take {
                } else if j < n1_take + pl {
                    assert(path0.contains(path@[j - n1_take]));
                } else {
                    assert(other0.contains(other@[j - n1_take - pl]));
                }
            } else {
                let t = tier4@[j - before4.len()];
                assert(p[j] == t);
                assert(tier4_0.contains(t));
                let m = choose|m: int| 0 <= m < tier4_0.len() && tier4_0[m] == t;
                if m < 8 - n1_take {
                    assert(tier4_0[m] == outer@[n1_take + m]);
                } else {
                    assert(other0.contains(other@[n2_take + (m - (8 - n1_take))]));
                }
            }
        }
        assert(p.len() == 16);
        assert(p.subrange(0, n1_take as int) =~= outer@.subrange(0, n1_take as int));
        assert forall|j: int| n1_take <= j < n1_take + pl implies 8 <= #[trigger] p[j] && inner_flagged(
            *board,
            flags@,
            p[j] as int,
        ) by {
            assert(p[j] == path@[j - n1_take]);
            assert(path0.contains(path@[j - n1_take]));
        }
        assert forall|j: int| n1_take + pl <= j < n1_take + pl + n2_take implies 8 <= #[trigger] p[j]
            && !inner_flagged(*board, flags@, p[j] as int) by {
            assert(p[j] == other@[j - n1_take - pl]);
            assert(other0.contains(other@[j - n1_take - pl]));
        }
        assert forall|g: usize| g < 16 implies #[trigger] p.contains(g) by {
            if g < 8 {
                assert(outer@.contains(g));
                let m = choose|m: int| 0 <= m < outer@.len() && outer@[m] == g;
                if m < n1_take {
                    assert(p[m] == g);
                } else {
                    assert(tier4_0[m - n1_take] == g);
                    assert(tier4@.contains(g));
                    let m2 = choose|m2: int| 0 <= m2 < tier4@.len() && tier4@[m2] == g;
                    assert(p[before4.len() + m2] == g);
                }
            } else if path0.contains(g) {
                assert(path@.contains(g));
                let m = choose|m: int| 0 <= m < path@.len() && path@[m] == g;
                assert(p[n1_take + m] == g);
            } else {
                assert(other0.contains(g));
                assert(other@.contains(g));
                let m = choose|m: int| 0 <= m < other@.len() && other@[m] == g;
                if m < n2_take {
                    assert(p[n1_take + pl + m] == g);
                } else {
                    assert(tier4_0[(8 - n1_take) + (m - n2_take)] == g);
                    assert(tier4@.contains(g));
                    let m2 = choose|m2: int| 0 <= m2 < tier4@.len() && tier4@[m2] == g;
                    assert(p[before4.len() + m2] == g);
                }
            }
        }
        assert(quadrant_order_at(*board, outer@, n1_take as int, flags@, p, n2 as int));
    }
    priority
}

/// The outer groups chosen first: all eight in random order, how many of
/// them lead the fill order, and the quadrants those lie in.
pub struct OuterPick {
    /// The outer group positions 0-7, in random order.
    pub outer: Vec<usize>,
    /// How many of `outer` come first in the fill order.
    pub n1_take: usize,
    /// For each quadrant, whether one of the leading outer groups lies in it.
    pub flags: Vec<bool>,
}

/// The pick is well formed: `outer` holds each outer group position once,
/// two to five of them lead, and there is a flag per quadrant.
pub open spec fn outer_pick_ok(p: OuterPick) -> bool {
    &&& p.outer@.len() == 8
    &&& forall|j: int| 0 <= j < 8 ==> #[trigger] p.outer@[j] < 8
    &&& forall|g: usize| g < 8 ==> #[trigger] p.outer@.contains(g)
    &&& 2 <= p.n1_take <= 5
    &&& p.flags@.len() == 4
}

/// Picks the leading outer groups: three to five are wanted, taken in
/// random order while their cells stay within 60% of `piece_total_cells`,
/// but at least two whatever their size.
pub fn pick_outer(board: &UnionBoard, piece_total_cells: usize, rng: &mut SolverRng) -> (p: OuterPick)
    requires
        standard_board(*board),
        piece_total_cells <= 440,
    ensures
        outer_pick_ok(p),
        forall|q: int|
            0 <= q < 4 ==> (#[trigger] p.flags@[q] <==> exists|j: int|
                0 <= j < p.n1_take && quadrant_slot(quadrant_of(board.groups@[p.outer@[j] as int].cells@[0]))
                    == q),
{
    proof {
        lemma_groups_nonempty(*board);
    }
    let n1_target = random_between(rng, 3, 5);
    let outer_budget = piece_total_cells * 60 / 100;
    let mut outer: Vec<usize> = Vec::new();
    let mut k: usize = 0;
    while k < 8
        invariant
            k <= 8,
            outer@ == Seq::new(k as nat, |i: int| i as usize),
        decreases 8 - k,
    {
        outer.push(k);
        k = k + 1;
        assert(outer@ =~= Seq::new(k as nat, |i: int| i as usize));
    }
    let ghost outer0 = outer@;
    shuffle(outer.as_mut_slice(), rng);
    proof {
        lemma_rearrangement_contains(outer0, outer@);
        lemma_rearrangement_contains(outer@, outer0);
        assert forall|g: usize| g < 8 implies #[trigger] outer@.contains(g) by {
            assert(outer0[g as int] == g);
        }
        assert forall|j: int| 0 <= j < 8 implies #[trigger] outer@[j] < 8 by {
            assert(outer0.contains(outer@[j]));
        }
    }
    let mut n1: usize = 0;
    let mut outer_sum: usize = 0;
    while n1 < outer.len()
        invariant
            n1 <= n1_target <= 5,
            n1 <= outer@.len() == 8,
            outer_sum <= 440 * n1,
            board.groups@.len() == 16,
            forall|j: int| 0 <= j < 8 ==> #[trigger] outer@[j] < 8,
            forall|j: int| 0 <= j < 16 ==> (#[trigger] board.groups@[j]).cells@.len() <= 440,
        decreases 8 - n1,
    {
        if n1 >= n1_target {
            break;
        }
        let new_sum = outer_sum + board.groups[outer[n1]].cells.len();
        if new_sum > outer_budget && n1 >= 2 {
            break;
        }
        outer_sum = new_sum;
        n1 = n1 + 1;
    }
    let at_least = if n1 < 2 {
        2
    } else {
        n1
    };
    let n1_take = if at_least < outer.len() {
        at_least
    } else {
        outer.len()
    };
    let mut flags: Vec<bool> = vec![false, false, false, false];
    let mut j: usize = 0;
    while j < n1_take
        invariant
            j <= n1_take <= 8,
            outer@.len() == 8,
            flags@.len() == 4,
            board.groups@.len() == 16,
            forall|i: int| 0 <= i < 8 ==> #[trigger] outer@[i] < 8,
            forall|i: int| 0 <= i < 16 ==> 0 < (#[trigger] board.groups@[i]).cells@.len(),
            forall|q: int|
                0 <= q < 4 ==> (#[trigger] flags@[q] <==> exists|i: int|
                    0 <= i < j && quadrant_slot(quadrant_of(board.groups@[outer@[i] as int].cells@[0])) == q),
        decreases n1_take - j,
    {
        let q = group_quadrant(&board.groups[outer[j]]);
        let ghost f0 = flags@;
        flags.set(slot(q), true);
        proof {
            assert forall|q2: int| 0 <= q2 < 4 implies (#[trigger] flags@[q2] <==> exists|i: int|
                0 <= i < j + 1 && quadrant_slot(quadrant_of(board.groups@[outer@[i] as int].cells@[0])) == q2) by {
                if q2 == quadrant_slot(q) {
                    assert(quadrant_slot(quadrant_of(board.groups@[outer@[j as int] as int].cells@[0])) == q2);
                } else {
                    assert(flags@[q2] == f0[q2]);
                    if exists|i: int|
                        0 <= i < j + 1 && quadrant_slot(quadrant_of(board.groups@[outer@[i] as int].cells@[0])) == q2 {
                        let i = choose|i: int|
                            0 <= i < j + 1 && quadrant_slot(quadrant_of(board.groups@[outer@[i] as int].cells@[0])) == q2;
                        assert(i < j);
                    }
                }
            }
        }
        j = j + 1;
    }
    OuterPick { outer, n1_take, flags }
}

/// Chooses the target cells of one instance after [`pick_outer`], with
/// `center_count` center cells and `piece_total_cells` cells in all: the
/// center cells come from the quadrants of the leading outer groups first
/// (see [`prefers_flagged`]); the cells are then filled in
/// [`quadrant_priority`] order, with a connected patch of the group that
/// would overshoot.
///
/// The result holds exactly `piece_total_cells` distinct board cells, in
/// row-major order, among them every chosen center, unless there are more
/// centers than that; the centers are distinct center cells of the board,
/// in row-major order.
pub fn select_quadrant_target_cells(
    board: &UnionBoard,
    piece_total_cells: usize,
    pick: &OuterPick,
    center_count: usize,
    rng: &mut SolverRng,
) -> (t: TargetSelection)
    requires
        standard_board(*board),
        outer_pick_ok(*pick),
        1 <= center_count <= 4,
        piece_total_cells <= 440,
    ensures
        t.center_cells@.len() == center_count,
        sorted_by(t.center_cells@, row_major()),
        distinct_within(t.center_cells@, center_seq()),
        prefers_flagged(t.center_cells@, pick.flags@),
        sorted_by(t.all_cells@, row_major()),
        t.all_cells@.no_duplicates(),
        forall|k: int| 0 <= k < t.all_cells@.len() ==> in_grid(#[trigger] t.all_cells@[k]),
        forall|k: int| 0 <= k < t.center_cells@.len() ==> t.all_cells@.contains(#[trigger] t.center_cells@[k]),
        t.all_cells@.len() == if piece_total_cells >= center_count {
            piece_total_cells as int
        } else {
            center_count as int
        },
        exists|priority: Seq<usize>|
            quadrant_order_ok(*board, pick.outer@, pick.n1_take as int, pick.flags@, priority) && filled_from(
                *board,
                priority,
                t.center_cells@,
                t.all_cells@,
            ),
{
    let selected = pick_centers(board, &pick.flags, center_count, rng);
    let priority = quadrant_priority(board, &pick.outer, pick.n1_take, &pick.flags, rng);
    proof {
        assert forall|i: int| 0 <= i < selected@.len() implies in_grid(#[trigger] selected@[i]) by {
            assert(center_seq().contains(selected@[i]));
        }
    }
    let start = crate::domain::piece::copy_coords(&selected);
    let target = fill_target(board, &priority, start, piece_total_cells, rng);
    let all_cells = sort_coords(&target);
    proof {
        lemma_sort_cells(target@);
        assert forall|i: int| 0 <= i < all_cells@.len() implies in_grid(#[trigger] all_cells@[i]) by {
            let m = choose|m: int| 0 <= m < target@.len() && target@[m] == all_cells@[i];
        }
        assert forall|i: int| 0 <= i < selected@.len() implies all_cells@.contains(#[trigger] selected@[i]) by {
            assert(target@.contains(selected@[i]));
            let m = choose|m: int| 0 <= m < target@.len() && target@[m] == selected@[i];
            assert(all_cells@.contains(target@[m]));
        }
        assert forall|x: Coord| target@.contains(x) <==> all_cells@.contains(x) by {
            if target@.contains(x) {
                let m = choose|m: int| 0 <= m < target@.len() && target@[m] == x;
                assert(all_cells@.contains(target@[m]));
            }
            if all_cells@.contains(x) {
                let m = choose|m: int| 0 <= m < all_cells@.len() && all_cells@[m] == x;
                assert(target@.contains(all_cells@[m]));
            }
        }
        lemma_filled_same_cells(*board, priority@, selected@, target@, all_cells@);
    }
    TargetSelection { all_cells, center_cells: selected }
}

} // verus!
