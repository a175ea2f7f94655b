//! Placement enumeration.
//!
//! Given a board layout (the valid cells with their indices) and the piece
//! definitions, produces every legal [`Placement`] along with everything
//! the solver needs at decision time.
//!
//! Coordinates are shifted in `i16`, so a translated cell that leaves the
//! `i8` range is simply off the board.

use crate::base::bitset::{BitSet, CAPACITY};
use crate::domain::defs::PieceDefMap;
use crate::domain::piece::{
    all_variants, coords_in_range, distinct_candidates, lemma_variant_shape, variants_model, Coord,
    PieceDefModel, PieceVariant, VariantModel,
};
use crate::domain::placement::Placement;
use crate::error::{Result, SolverError};
use std::collections::HashMap;
use vstd::prelude::*;

verus! {

broadcast use vstd::std_specs::hash::group_hash_axioms;

/// The last position of `p` in `cells`: when a coordinate is listed twice,
/// its later index wins.
pub open spec fn last_index(cells: Seq<Coord>, p: Coord) -> Option<int>
    decreases cells.len(),
{
    if cells.len() == 0 {
        None
    } else if cells.last() == p {
        Some(cells.len() - 1)
    } else {
        last_index(cells.drop_last(), p)
    }
}

/// A one-to-one encoding of a coordinate as a `u16`.
pub open spec fn coord_key(p: Coord) -> u16 {
    ((p.0 + 128) * 256 + (p.1 + 128)) as u16
}

/// The key-to-index map built by inserting the cells in order.
pub open spec fn index_map(cells: Seq<Coord>) -> Map<u16, u16>
    decreases cells.len(),
{
    if cells.len() == 0 {
        Map::empty()
    } else {
        index_map(cells.drop_last()).insert(coord_key(cells.last()), (cells.len() - 1) as u16)
    }
}

/// Board index of the integer point `q`, if it is a board cell.
pub open spec fn board_index(cells: Seq<Coord>, q: (int, int)) -> Option<int> {
    if -128 <= q.0 <= 127 && -128 <= q.1 <= 127 {
        last_index(cells, (q.0 as i8, q.1 as i8))
    } else {
        None
    }
}

/// Checkerboard color of a cell: 0 when `r + c` is even, 1 otherwise.
pub open spec fn color_of(p: Coord) -> u8 {
    if (p.0 + p.1) % 2 == 0 {
        0
    } else {
        1
    }
}

proof fn lemma_key_injective(p: Coord, q: Coord)
    ensures
        coord_key(p) == coord_key(q) ==> p == q,
{
    let a = (p.0 + 128) * 256 + (p.1 + 128);
    let b = (q.0 + 128) * 256 + (q.1 + 128);
    assert(0 <= a < 65536 && 0 <= b < 65536);
    assert(coord_key(p) == a && coord_key(q) == b);
}

pub proof fn lemma_last_index_bound(cells: Seq<Coord>, p: Coord)
    ensures
        last_index(cells, p) matches Some(i) ==> 0 <= i < cells.len() && cells[i] == p,
        last_index(cells, p) is None ==> !cells.contains(p),
    decreases cells.len(),
{
    if cells.len() > 0 && cells.last() != p {
        lemma_last_index_bound(cells.drop_last(), p);
        if cells.contains(p) {
            let j = choose|j: int| 0 <= j < cells.len() && cells[j] == p;
            assert(cells.drop_last()[j] == p);
        }
    }
}

proof fn lemma_index_map(cells: Seq<Coord>, p: Coord)
    requires
        cells.len() <= 65536,
    ensures
        index_map(cells).contains_key(coord_key(p)) == last_index(cells, p) is Some,
        last_index(cells, p) matches Some(i) ==> index_map(cells)[coord_key(p)] == i,
    decreases cells.len(),
{
    if cells.len() > 0 {
        lemma_index_map(cells.drop_last(), p);
        lemma_key_injective(cells.last(), p);
        lemma_last_index_bound(cells.drop_last(), p);
    }
}

/// A board index names a board cell, the one at that point.
pub proof fn lemma_board_index_bound(cells: Seq<Coord>, q: (int, int))
    ensures
        board_index(cells, q) matches Some(i) ==> 0 <= i < cells.len() && cells[i] == (
            q.0 as i8,
            q.1 as i8,
        ) && -128 <= q.0 <= 127 && -128 <= q.1 <= 127,
{
    if -128 <= q.0 <= 127 && -128 <= q.1 <= 127 {
        lemma_last_index_bound(cells, (q.0 as i8, q.1 as i8));
    }
}

/// Board geometry shared by the solver and the enumerator.
pub struct BoardLayout {
    pub cells: Vec<Coord>,
    pub coord_to_idx: HashMap<u16, u16>,
    pub center_cells: Vec<Coord>,
    pub cell_color: Vec<u8>,
}

impl BoardLayout {
    /// The lookup and colors agree with the cell list, which fits a bitset.
    pub open spec fn wf(&self) -> bool {
        &&& self.cells@.len() <= CAPACITY
        &&& self.coord_to_idx@ == index_map(self.cells@)
        &&& self.cell_color@.len() == self.cells@.len()
        &&& forall|i: int|
            0 <= i < self.cells@.len() ==> self.cell_color@[i] == color_of(#[trigger] self.cells@[i])
    }

    /// Builds a board layout from a list of cell coordinates and the center region.
    pub fn new(cells: Vec<Coord>, center_cells: Vec<Coord>) -> (r: Result<Self>)
        ensures
            match r {
                Ok(b) => {
                    &&& cells@.len() <= CAPACITY
                    &&& b.wf()
                    &&& b.cells@ == cells@
                    &&& b.center_cells@ == center_cells@
                },
                Err(e) => cells@.len() > CAPACITY && e == (SolverError::BoardTooLarge {
                    actual: cells@.len() as usize,
                    capacity: CAPACITY,
                }),
            },
    {
        if cells.len() > CAPACITY {
            return Err(SolverError::BoardTooLarge { actual: cells.len(), capacity: CAPACITY });
        }
        let mut coord_to_idx: HashMap<u16, u16> = HashMap::with_capacity(cells.len());
        let mut cell_color: Vec<u8> = Vec::with_capacity(cells.len());
        let mut i: usize = 0;
        while i < cells.len()
            invariant
                i <= cells@.len() <= CAPACITY,
                coord_to_idx@ == index_map(cells@.take(i as int)),
                cell_color@.len() == i,
                forall|j: int| 0 <= j < i ==> cell_color@[j] == color_of(#[trigger] cells@[j]),
            decreases cells@.len() - i,
        {
            let (r, c) = cells[i];
            let key: u16 = ((r as i16 + 128) as u16) * 256 + ((c as i16 + 128) as u16);
            coord_to_idx.insert(key, i as u16);
            let s: u16 = (r as i16 + c as i16 + 256) as u16;
            let color: u8 = if s % 2 == 0 {
                0
            } else {
                1
            };
            cell_color.push(color);
            proof {
                assert(cells@.take(i + 1).drop_last() =~= cells@.take(i as int));
                assert(cells@.take(i + 1).last() == cells@[i as int]);
                assert(key == coord_key(cells@[i as int]));
            }
            i = i + 1;
        }
        proof {
            assert(cells@.take(i as int) =~= cells@);
        }
        Ok(BoardLayout { cells, coord_to_idx, center_cells, cell_color })
    }

    /// Board index of the point `(r, c)`, if it is a board cell.
    pub fn lookup(&self, r: i16, c: i16) -> (res: Option<u16>)
        requires
            self.wf(),
        ensures
            match res {
                Some(i) => board_index(self.cells@, (r as int, c as int)) == Some(i as int),
                None => board_index(self.cells@, (r as int, c as int)) is None,
            },
            res matches Some(i) ==> i < self.cells@.len(),
    {
        if r < -128 || r > 127 || c < -128 || c > 127 {
            return None;
        }
        let key: u16 = ((r + 128) as u16) * 256 + ((c + 128) as u16);
        let ghost p: Coord = (r as i8, c as i8);
        proof {
            assert(key == coord_key(p));
            lemma_index_map(self.cells@, p);
            lemma_last_index_bound(self.cells@, p);
        }
        match self.coord_to_idx.get(&key) {
            Some(v) => Some(*v),
            None => None,
        }
    }
}


/// One instance of a piece in the puzzle input.
#[derive(Debug)]
pub struct PieceInstance {
    pub type_idx: u16,
    pub def_id: String,
}

impl Clone for PieceInstance {
    fn clone(&self) -> (r: Self)
        ensures
            r == *self,
    {
        PieceInstance { type_idx: self.type_idx, def_id: self.def_id.clone() }
    }
}

/// The point one step from `p` in direction `d`: up, down, left, right.
pub open spec fn step(p: Coord, d: int) -> (int, int) {
    if d == 0 {
        (p.0 - 1, p.1 as int)
    } else if d == 1 {
        (p.0 + 1, p.1 as int)
    } else if d == 2 {
        (p.0 as int, p.1 - 1)
    } else {
        (p.0 as int, p.1 + 1)
    }
}

/// Board cells reached by one of the first `n` steps, step `4 * k + d`
/// leading from `pcs[k]` in direction `d`.
pub open spec fn adjacent_upto(board: Seq<Coord>, pcs: Seq<Coord>, n: int) -> Set<int> {
    Set::new(
        |i: int|
            exists|k: int, d: int|
                0 <= k < pcs.len() && 0 <= d < 4 && 4 * k + d < n && #[trigger] board_index(
                    board,
                    step(pcs[k], d),
                ) == Some(i),
    )
}

/// Board cells orthogonally adjacent to at least one of `pcs`.
pub open spec fn adjacent_cells(board: Seq<Coord>, pcs: Seq<Coord>) -> Set<int> {
    adjacent_upto(board, pcs, 4 * pcs.len() as int)
}

/// Builds the bitset of board cells adjacent to the placement but not in it.
fn compute_neighbor_bits(placement_cells: &[Coord], board: &BoardLayout, placement_bits: &BitSet) -> (r: BitSet)
    requires
        board.wf(),
    ensures
        r@ == adjacent_cells(board.cells@, placement_cells@).difference(placement_bits@),
{
    let ghost bc = board.cells@;
    let ghost pcs = placement_cells@;
    let mut neighbor_bits = BitSet::new();
    let mut k: usize = 0;
    proof {
        assert(adjacent_upto(bc, pcs, 0) =~= Set::<int>::empty());
        assert(neighbor_bits@ =~= adjacent_upto(bc, pcs, 0).difference(placement_bits@));
    }
    while k < placement_cells.len()
        invariant
            board.wf(),
            bc == board.cells@,
            pcs == placement_cells@,
            k <= pcs.len(),
            neighbor_bits@ == adjacent_upto(bc, pcs, 4 * k).difference(placement_bits@),
        decreases pcs.len() - k,
    {
        let (r, c) = placement_cells[k];
        let mut d: usize = 0;
        while d < 4
            invariant
                board.wf(),
                bc == board.cells@,
                pcs == placement_cells@,
                k < pcs.len(),
                pcs[k as int] == (r, c),
                d <= 4,
                neighbor_bits@ == adjacent_upto(bc, pcs, 4 * k + d).difference(placement_bits@),
            decreases 4 - d,
        {
            let (nr, nc): (i16, i16) = if d == 0 {
                (r as i16 - 1, c as i16)
            } else if d == 1 {
                (r as i16 + 1, c as i16)
            } else if d == 2 {
                (r as i16, c as i16 - 1)
            } else {
                (r as i16, c as i16 + 1)
            };
            let ghost before = neighbor_bits@;
            let found = board.lookup(nr, nc);
            proof {
                assert(step(pcs[k as int], d as int) == (nr as int, nc as int));
            }
            if let Some(idx) = found {
                if !placement_bits.test(idx as usize) {
                    neighbor_bits.set(idx as usize);
                }
            }
            proof {
                let lhs = adjacent_upto(bc, pcs, 4 * k + d + 1);
                let rhs = adjacent_upto(bc, pcs, 4 * k + d);
                assert forall|i: int| #[trigger] lhs.contains(i) == (rhs.contains(i) || board_index(
                    bc,
                    step(pcs[k as int], d as int),
                ) == Some(i)) by {
                    if lhs.contains(i) && !rhs.contains(i) {
                        let (k2, d2) = choose|k2: int, d2: int|
                            0 <= k2 < pcs.len() && 0 <= d2 < 4 && 4 * k2 + d2 < 4 * k + d + 1
                                && #[trigger] board_index(bc, step(pcs[k2], d2)) == Some(i);
                        assert(k2 == k && d2 == d);
                    }
                }
                assert(neighbor_bits@ =~= lhs.difference(placement_bits@));
            }
            d = d + 1;
        }
        k = k + 1;
    }
    neighbor_bits
}

/// `v` lists the elements of `s` in strictly increasing order.
pub open spec fn lists_in_order(v: Seq<u16>, s: Set<int>) -> bool {
    &&& forall|a: int, b: int| 0 <= a < b < v.len() ==> v[a] < v[b]
    &&& forall|i: int| s.contains(i) <==> exists|k: int| 0 <= k < v.len() && v[k] as int == i
}

/// The indices of the set bits, in increasing order.
fn set_bit_indices(bits: &BitSet) -> (r: Vec<u16>)
    ensures
        lists_in_order(r@, bits@),
{
    let mut out: Vec<u16> = Vec::new();
    let mut i: usize = 0;
    while i < CAPACITY
        invariant
            i <= CAPACITY,
            forall|a: int, b: int| 0 <= a < b < out@.len() ==> out@[a] < out@[b],
            forall|k: int| 0 <= k < out@.len() ==> out@[k] < i,
            forall|j: int|
                0 <= j < i ==> (bits@.contains(j) <==> exists|k: int|
                    0 <= k < out@.len() && out@[k] as int == j),
        decreases CAPACITY - i,
    {
        let ghost before = out@;
        let b = bits.test(i);
        if b {
            out.push(i as u16);
        }
        proof {
            assert forall|j: int| 0 <= j < i + 1 implies (bits@.contains(j) <==> exists|k: int|
                0 <= k < out@.len() && out@[k] as int == j) by {
                if j < i {
                    if exists|k: int| 0 <= k < before.len() && before[k] as int == j {
                        let k = choose|k: int| 0 <= k < before.len() && before[k] as int == j;
                        assert(out@[k] == before[k]);
                    }
                    if exists|k: int| 0 <= k < out@.len() && out@[k] as int == j {
                        let k = choose|k: int| 0 <= k < out@.len() && out@[k] as int == j;
                        assert(k < before.len());
                        assert(before[k] == out@[k]);
                    }
                } else if b {
                    assert(out@[out@.len() - 1] as int == j);
                }
            }
        }
        i = i + 1;
    }
    proof {
        bits.lemma_view_finite();
        assert forall|j: int| bits@.contains(j) implies exists|k: int|
            0 <= k < out@.len() && out@[k] as int == j by {
            assert(vstd::set_lib::set_int_range(0, CAPACITY as int).contains(j));
        }
    }
    out
}


/// The translation that puts the first cell of a variant on board cell `a`.
pub open spec fn anchor_offset(board: Seq<Coord>, vcells: Seq<Coord>, a: int) -> (int, int) {
    (board[a].0 - vcells[0].0, board[a].1 - vcells[0].1)
}

/// `p` translated by `off`.
pub open spec fn shifted(p: Coord, off: (int, int)) -> (int, int) {
    (p.0 + off.0, p.1 + off.1)
}

/// The coordinate of an integer point that lies in the `i8` range.
pub open spec fn as_coord(q: (int, int)) -> Coord {
    (q.0 as i8, q.1 as i8)
}

/// Anchored at board cell `a`, every cell of the variant lands on the board.
pub open spec fn fits(board: Seq<Coord>, vcells: Seq<Coord>, a: int) -> bool {
    forall|k: int|
        0 <= k < vcells.len() ==> #[trigger] board_index(
            board,
            shifted(vcells[k], anchor_offset(board, vcells, a)),
        ) is Some
}

/// Number of listed cells whose color is 0.
pub open spec fn black_count(colors: Seq<u8>, idx: Seq<u16>) -> int
    decreases idx.len(),
{
    if idx.len() == 0 {
        0
    } else {
        black_count(colors, idx.drop_last()) + if colors[idx.last() as int] == 0 {
            1int
        } else {
            0int
        }
    }
}

/// The set of listed indices.
pub open spec fn index_set(idx: Seq<u16>) -> Set<int> {
    Set::new(|i: int| exists|k: int| 0 <= k < idx.len() && idx[k] as int == i)
}

/// `pl` is the placement of the variant `v` of piece type `type_idx`
/// anchored at board cell `a`.
pub open spec fn is_placement_at(
    pl: Placement,
    board: BoardLayout,
    type_idx: u16,
    v: VariantModel,
    a: int,
) -> bool {
    let off = anchor_offset(board.cells@, v.0, a);
    &&& pl.type_idx == type_idx
    &&& pl.cells@.len() == v.0.len()
    &&& pl.cell_indices@.len() == v.0.len()
    &&& forall|k: int|
        0 <= k < v.0.len() ==> board_index(board.cells@, shifted(v.0[k], off)) == Some(
            #[trigger] pl.cell_indices@[k] as int,
        ) && pl.cells@[k] == as_coord(shifted(v.0[k], off))
    &&& pl.bits@ == index_set(pl.cell_indices@)
    &&& pl.b_count == black_count(board.cell_color@, pl.cell_indices@)
    &&& pl.mark == as_coord(shifted(v.1, off))
    &&& pl.mark_on_center == board.center_cells@.contains(pl.mark)
    &&& pl.neighbor_bits@ == adjacent_cells(board.cells@, pl.cells@).difference(pl.bits@)
    &&& lists_in_order(pl.neighbor_indices@, pl.neighbor_bits@)
}

/// Returns `true` when `p` occurs in `v`.
pub fn contains_coord(v: &Vec<Coord>, p: Coord) -> (r: bool)
    ensures
        r == v@.contains(p),
{
    let mut i: usize = 0;
    while i < v.len()
        invariant
            i <= v@.len(),
            forall|j: int| 0 <= j < i ==> v@[j] != p,
        decreases v@.len() - i,
    {
        let q = v[i];
        if q.0 == p.0 && q.1 == p.1 {
            proof {
                assert(v@[i as int] == p);
            }
            return true;
        }
        i = i + 1;
    }
    false
}

/// The placement of `variant` anchored at board cell `a`, or `None` when a
/// cell falls off the board.
fn place_at(type_idx: u16, variant: &PieceVariant, board: &BoardLayout, a: usize) -> (r: Option<Placement>)
    requires
        board.wf(),
        a < board.cells@.len(),
        0 < variant.cells@.len() <= 255,
        variant.cells@.contains(variant.mark),
    ensures
        match r {
            Some(pl) => fits(board.cells@, variant.cells@, a as int) && is_placement_at(
                pl,
                *board,
                type_idx,
                (variant.cells@, variant.mark),
                a as int,
            ),
            None => !fits(board.cells@, variant.cells@, a as int),
        },
{
    let ghost vc = variant.cells@;
    let ghost off = anchor_offset(board.cells@, vc, a as int);
    let (anchor_r, anchor_c) = variant.cells[0];
    let (br, bc) = board.cells[a];
    let dr: i16 = br as i16 - anchor_r as i16;
    let dc: i16 = bc as i16 - anchor_c as i16;
    let n = variant.cells.len();
    let mut cell_indices: Vec<u16> = Vec::with_capacity(n);
    let mut cells: Vec<Coord> = Vec::with_capacity(n);
    let mut bits = BitSet::new();
    let mut b_count: u8 = 0;
    let mut k: usize = 0;
    proof {
        assert(index_set(cell_indices@) =~= Set::<int>::empty());
    }
    while k < n
        invariant
            board.wf(),
            vc == variant.cells@,
            n == vc.len(),
            n <= 255,
            off == (dr as int, dc as int),
            off == anchor_offset(board.cells@, vc, a as int),
            -256 < dr < 256,
            -256 < dc < 256,
            k <= n,
            cell_indices@.len() == k,
            cells@.len() == k,
            forall|j: int|
                0 <= j < k ==> board_index(board.cells@, shifted(vc[j], off)) == Some(
                    #[trigger] cell_indices@[j] as int,
                ) && cells@[j] == as_coord(shifted(vc[j], off)),
            forall|j: int| 0 <= j < k ==> (#[trigger] cell_indices@[j]) < board.cells@.len(),
            bits@ == index_set(cell_indices@),
            b_count == black_count(board.cell_color@, cell_indices@),
            b_count <= k,
        decreases n - k,
    {
        let (vr, vcol) = variant.cells[k];
        let r = vr as i16 + dr;
        let c = vcol as i16 + dc;
        match board.lookup(r, c) {
            Some(idx) => {
                let ghost before = cell_indices@;
                cell_indices.push(idx);
                cells.push((r as i8, c as i8));
                bits.set(idx as usize);
                if board.cell_color[idx as usize] == 0 {
                    b_count = b_count + 1;
                }
                proof {
                    assert(cell_indices@.drop_last() =~= before);
                    assert forall|i: int| #[trigger] index_set(cell_indices@).contains(i) == index_set(
                        before,
                    ).insert(idx as int).contains(i) by {
                        if index_set(before).contains(i) {
                            let w = choose|w: int| 0 <= w < before.len() && before[w] as int == i;
                            assert(cell_indices@[w] == before[w]);
                        }
                        if index_set(cell_indices@).contains(i) {
                            let w = choose|w: int|
                                0 <= w < cell_indices@.len() && cell_indices@[w] as int == i;
                            if w < before.len() {
                                assert(before[w] == cell_indices@[w]);
                            }
                        }
                        if i == idx as int {
                            assert(cell_indices@[before.len() as int] as int == i);
                        }
                    }
                    assert(index_set(cell_indices@) =~= index_set(before).insert(idx as int));
                }
            },
            None => {
                proof {
                    assert(shifted(vc[k as int], off) == (r as int, c as int));
                    assert(board_index(
                        board.cells@,
                        shifted(vc[k as int], anchor_offset(board.cells@, vc, a as int)),
                    ) is None);
                }
                return None;
            },
        }
        k = k + 1;
    }
    proof {
        let j = choose|j: int| 0 <= j < vc.len() && vc[j] == variant.mark;
        assert(board_index(board.cells@, shifted(vc[j], off)) == Some(cell_indices@[j] as int));
        assert forall|q: int| 0 <= q < vc.len() implies #[trigger] board_index(
            board.cells@,
            shifted(vc[q], anchor_offset(board.cells@, vc, a as int)),
        ) is Some by {
            assert(board_index(board.cells@, shifted(vc[q], off)) == Some(cell_indices@[q] as int));
        }
    }
    let mr: i16 = variant.mark.0 as i16 + dr;
    let mc: i16 = variant.mark.1 as i16 + dc;
    let mark: Coord = (mr as i8, mc as i8);
    let mark_on_center = contains_coord(&board.center_cells, mark);
    let neighbor_bits = compute_neighbor_bits(&cells, board, &bits);
    let neighbor_indices = set_bit_indices(&neighbor_bits);
    Some(
        Placement {
            type_idx,
            bits,
            neighbor_bits,
            neighbor_indices,
            b_count,
            mark_on_center,
            cell_indices,
            mark,
            cells,
        },
    )
}


/// The board cells, among the first `n`, at which the variant fits when
/// anchored there, in board order.
pub open spec fn valid_anchors(board: Seq<Coord>, vcells: Seq<Coord>, n: int) -> Seq<int>
    decreases n,
{
    if n <= 0 {
        Seq::empty()
    } else {
        let p = valid_anchors(board, vcells, n - 1);
        if fits(board, vcells, n - 1) {
            p.push(n - 1)
        } else {
            p
        }
    }
}

/// Where a placement comes from: piece type, variant and anchor cell.
pub type Site = (u16, VariantModel, int);

/// The sites of one variant, in board order.
pub open spec fn variant_sites(board: Seq<Coord>, type_idx: u16, v: VariantModel) -> Seq<Site> {
    valid_anchors(board, v.0, board.len() as int).map_values(|a: int| (type_idx, v, a))
}

/// The sites of the first `n` variants, variant by variant.
pub open spec fn variants_sites(board: Seq<Coord>, type_idx: u16, vs: Seq<VariantModel>, n: int) -> Seq<
    Site,
>
    decreases n,
{
    if n <= 0 {
        Seq::empty()
    } else {
        variants_sites(board, type_idx, vs, n - 1) + variant_sites(board, type_idx, vs[n - 1])
    }
}

/// The variants that enumeration uses for a definition.
pub open spec fn def_variants(d: PieceDefModel) -> Seq<VariantModel> {
    distinct_candidates(d.1, d.1[d.2 as int], 8)
}

/// The sites of the first `n` pieces, piece by piece.
pub open spec fn all_sites(
    board: Seq<Coord>,
    defs: Map<Seq<char>, PieceDefModel>,
    pieces: Seq<PieceInstance>,
    n: int,
) -> Seq<Site>
    decreases n,
{
    if n <= 0 {
        Seq::empty()
    } else {
        let vs = def_variants(defs[pieces[n - 1].def_id@]);
        all_sites(board, defs, pieces, n - 1) + variants_sites(
            board,
            pieces[n - 1].type_idx,
            vs,
            vs.len() as int,
        )
    }
}

/// Each placement is the one built at the corresponding site.
pub open spec fn placements_match(pls: Seq<Placement>, board: BoardLayout, sites: Seq<Site>) -> bool {
    &&& pls.len() == sites.len()
    &&& forall|k: int|
        0 <= k < sites.len() ==> is_placement_at(
            #[trigger] pls[k],
            board,
            sites[k].0,
            sites[k].1,
            sites[k].2,
        )
}

proof fn lemma_match_concat(
    a: Seq<Placement>,
    b: Seq<Placement>,
    board: BoardLayout,
    sa: Seq<Site>,
    sb: Seq<Site>,
)
    requires
        placements_match(a, board, sa),
        placements_match(b, board, sb),
    ensures
        placements_match(a + b, board, sa + sb),
{
    assert forall|k: int| 0 <= k < (sa + sb).len() implies is_placement_at(
        #[trigger] (a + b)[k],
        board,
        (sa + sb)[k].0,
        (sa + sb)[k].1,
        (sa + sb)[k].2,
    ) by {
        if k < sa.len() {
            assert((a + b)[k] == a[k]);
            assert((sa + sb)[k] == sa[k]);
        } else {
            assert((a + b)[k] == b[k - a.len()]);
            assert((sa + sb)[k] == sb[k - sa.len()]);
        }
    }
}

/// Enumerates all anchor positions for one variant and appends the
/// placements that fit to `out`.
fn enumerate_variant(type_idx: u16, variant: &PieceVariant, board: &BoardLayout, out: &mut Vec<Placement>)
    requires
        board.wf(),
        0 < variant.cells@.len() <= 255,
        variant.cells@.contains(variant.mark),
    ensures
        final(out)@.len() >= old(out)@.len(),
        final(out)@.subrange(0, old(out)@.len() as int) == old(out)@,
        placements_match(
            final(out)@.subrange(old(out)@.len() as int, final(out)@.len() as int),
            *board,
            variant_sites(board.cells@, type_idx, (variant.cells@, variant.mark)),
        ),
{
    let ghost start = old(out)@.len() as int;
    let ghost v: VariantModel = (variant.cells@, variant.mark);
    let mut a: usize = 0;
    proof {
        assert(out@.subrange(start, out@.len() as int) =~= Seq::<Placement>::empty());
        assert(valid_anchors(board.cells@, v.0, 0).map_values(|x: int| (type_idx, v, x))
            =~= Seq::<Site>::empty());
    }
    while a < board.cells.len()
        invariant
            board.wf(),
            0 < variant.cells@.len() <= 255,
            variant.cells@.contains(variant.mark),
            v == (variant.cells@, variant.mark),
            a <= board.cells@.len(),
            0 <= start <= out@.len(),
            out@.subrange(0, start) == old(out)@,
            placements_match(
                out@.subrange(start, out@.len() as int),
                *board,
                valid_anchors(board.cells@, v.0, a as int).map_values(|x: int| (type_idx, v, x)),
            ),
        decreases board.cells@.len() - a,
    {
        let ghost before = out@;
        let placed = place_at(type_idx, variant, board, a);
        proof {
            let prev = valid_anchors(board.cells@, v.0, a as int);
            assert(valid_anchors(board.cells@, v.0, a + 1) == if fits(board.cells@, v.0, a as int) {
                prev.push(a as int)
            } else {
                prev
            });
        }
        match placed {
            Some(pl) => {
                let ghost plg = pl;
                out.push(pl);
                proof {
                    assert(out@ == before.push(plg));
                    assert(start <= before.len());
                    let prev = valid_anchors(board.cells@, v.0, a as int);
                    let sp = prev.map_values(|x: int| (type_idx, v, x));
                    let sn = prev.push(a as int).map_values(|x: int| (type_idx, v, x));
                    assert(sn =~= sp + seq![(type_idx, v, a as int)]);
                    assert(out@.subrange(start, out@.len() as int) =~= before.subrange(
                        start,
                        before.len() as int,
                    ) + seq![plg]);
                    assert(placements_match(seq![plg], *board, seq![(type_idx, v, a as int)]));
                    lemma_match_concat(
                        before.subrange(start, before.len() as int),
                        seq![plg],
                        *board,
                        sp,
                        seq![(type_idx, v, a as int)],
                    );
                    assert(out@.subrange(0, start) =~= before.subrange(0, start));
                }
            },
            None => {},
        }
        a = a + 1;
    }
}

/// A definition that enumeration accepts: a mark cell among at most 255
/// cells whose rotations and reflections stay in the coordinate range.
pub open spec fn def_usable(d: PieceDefModel) -> bool {
    &&& 0 < d.1.len() <= 255
    &&& d.2 < d.1.len()
    &&& coords_in_range(d.1)
}

/// Enumerates all legal placements for every piece instance: piece by
/// piece, variant by variant, anchor cell by anchor cell. Fails with the
/// first piece whose definition is missing.
pub fn enumerate_all_placements(
    pieces: &[PieceInstance],
    piece_defs: &PieceDefMap,
    board: &BoardLayout,
) -> (r: Result<Vec<Placement>>)
    requires
        board.wf(),
        forall|i: int|
            0 <= i < pieces@.len() && piece_defs@.contains_key(#[trigger] pieces@[i].def_id@)
                ==> def_usable(piece_defs@[pieces@[i].def_id@]),
    ensures
        match r {
            Ok(v) => {
                &&& forall|i: int|
                    0 <= i < pieces@.len() ==> piece_defs@.contains_key(#[trigger] pieces@[i].def_id@)
                &&& placements_match(
                    v@,
                    *board,
                    all_sites(board.cells@, piece_defs@, pieces@, pieces@.len() as int),
                )
            },
            Err(e) => exists|i: int|
                0 <= i < pieces@.len() && !piece_defs@.contains_key(#[trigger] pieces@[i].def_id@)
                    && (forall|j: int|
                    0 <= j < i ==> piece_defs@.contains_key(#[trigger] pieces@[j].def_id@)) && e
                    == (SolverError::UnknownPieceDef { id: pieces@[i].def_id }),
        },
{
    let mut placements: Vec<Placement> = Vec::new();
    let mut i: usize = 0;
    while i < pieces.len()
        invariant
            board.wf(),
            forall|q: int|
                0 <= q < pieces@.len() && piece_defs@.contains_key(#[trigger] pieces@[q].def_id@)
                    ==> def_usable(piece_defs@[pieces@[q].def_id@]),
            i <= pieces@.len(),
            forall|j: int| 0 <= j < i ==> piece_defs@.contains_key(#[trigger] pieces@[j].def_id@),
            placements_match(placements@, *board, all_sites(board.cells@, piece_defs@, pieces@, i as int)),
        decreases pieces@.len() - i,
    {
        let piece = &pieces[i];
        let def = match piece_defs.get(piece.def_id.as_str()) {
            Some(d) => d,
            None => {
                return Err(SolverError::UnknownPieceDef { id: piece.def_id.clone() });
            },
        };
        let ghost dm = piece_defs@[pieces@[i as int].def_id@];
        proof {
            assert(def@ == dm);
            assert(def_usable(dm));
        }
        let variants = all_variants(def);
        proof {
            lemma_variant_shape(def.cells@, def.mark_index as int, 8);
        }
        let ghost vs = def_variants(dm);
        let ghost base = all_sites(board.cells@, piece_defs@, pieces@, i as int);
        let mut j: usize = 0;
        proof {
            assert(vs == variants_model(variants@));
            assert(base + variants_sites(board.cells@, piece.type_idx, vs, 0) =~= base);
        }
        while j < variants.len()
            invariant
                board.wf(),
                vs == variants_model(variants@),
                vs.len() == variants@.len(),
                forall|q: int|
                    0 <= q < vs.len() ==> {
                        let v = #[trigger] vs[q];
                        &&& v.0.len() == dm.1.len()
                        &&& v.0.contains(v.1)
                    },
                0 < dm.1.len() <= 255,
                j <= variants@.len(),
                placements_match(
                    placements@,
                    *board,
                    base + variants_sites(board.cells@, piece.type_idx, vs, j as int),
                ),
            decreases variants@.len() - j,
        {
            let ghost before = placements@;
            proof {
                assert(vs[j as int] == (variants@[j as int].cells@, variants@[j as int].mark));
            }
            enumerate_variant(piece.type_idx, &variants[j], board, &mut placements);
            proof {
                let added = placements@.subrange(before.len() as int, placements@.len() as int);
                assert(placements@ =~= before + added);
                lemma_match_concat(
                    before,
                    added,
                    *board,
                    base + variants_sites(board.cells@, piece.type_idx, vs, j as int),
                    variant_sites(board.cells@, piece.type_idx, vs[j as int]),
                );
                assert(base + variants_sites(board.cells@, piece.type_idx, vs, j + 1) =~= base
                    + variants_sites(board.cells@, piece.type_idx, vs, j as int) + variant_sites(
                    board.cells@,
                    piece.type_idx,
                    vs[j as int],
                ));
            }
            j = j + 1;
        }
        proof {
            assert(all_sites(board.cells@, piece_defs@, pieces@, i + 1) == base + variants_sites(
                board.cells@,
                pieces@[i as int].type_idx,
                vs,
                vs.len() as int,
            ));
        }
        i = i + 1;
    }
    Ok(placements)
}

proof fn lemma_black_count_bound(colors: Seq<u8>, idx: Seq<u16>)
    ensures
        0 <= black_count(colors, idx) <= idx.len(),
    decreases idx.len(),
{
    if idx.len() > 0 {
        lemma_black_count_bound(colors, idx.drop_last());
    }
}

/// A placement of a variant with distinct cells covers distinct board
/// cells, as many as the variant has; at most that many are black; and its
/// neighbours are board cells.
pub proof fn lemma_placement_facts(pl: Placement, board: BoardLayout, type_idx: u16, v: VariantModel, a: int)
    requires
        is_placement_at(pl, board, type_idx, v, a),
        v.0.no_duplicates(),
    ensures
        pl.cell_indices@.no_duplicates(),
        forall|k: int| 0 <= k < pl.cell_indices@.len() ==> (#[trigger] pl.cell_indices@[k]) < board.cells@.len(),
        pl.b_count <= pl.cell_indices@.len(),
        forall|k: int| 0 <= k < pl.neighbor_indices@.len() ==> (#[trigger] pl.neighbor_indices@[k]) < board.cells@.len(),
{
    let off = anchor_offset(board.cells@, v.0, a);
    let ci = pl.cell_indices@;
    let bc = board.cells@;
    assert forall|k: int| 0 <= k < ci.len() implies (#[trigger] ci[k]) < bc.len() by {
        assert(board_index(bc, shifted(v.0[k], off)) == Some(ci[k] as int));
        lemma_board_index_bound(bc, shifted(v.0[k], off));
    }
    assert forall|i: int, j: int| 0 <= i < ci.len() && 0 <= j < ci.len() && i != j implies ci[i] != ci[j] by {
        assert(board_index(bc, shifted(v.0[i], off)) == Some(ci[i] as int));
        assert(board_index(bc, shifted(v.0[j], off)) == Some(ci[j] as int));
        lemma_board_index_bound(bc, shifted(v.0[i], off));
        lemma_board_index_bound(bc, shifted(v.0[j], off));
        if ci[i] == ci[j] {
            assert(shifted(v.0[i], off) == shifted(v.0[j], off));
            assert(v.0[i] == v.0[j]);
        }
    }
    lemma_black_count_bound(board.cell_color@, ci);
    let ni = pl.neighbor_indices@;
    assert forall|k: int| 0 <= k < ni.len() implies (#[trigger] ni[k]) < bc.len() by {
        assert(pl.neighbor_bits@.contains(ni[k] as int));
        let i = ni[k] as int;
        assert(adjacent_cells(bc, pl.cells@).contains(i));
        let (k2, d2) = choose|k2: int, d2: int|
            0 <= k2 < pl.cells@.len() && 0 <= d2 < 4 && 4 * k2 + d2 < 4 * pl.cells@.len()
                && #[trigger] board_index(bc, step(pl.cells@[k2], d2)) == Some(i);
        lemma_board_index_bound(bc, step(pl.cells@[k2], d2));
    }
}

proof fn lemma_valid_anchors(board: Seq<Coord>, vcells: Seq<Coord>, n: int)
    requires
        0 <= n,
    ensures
        valid_anchors(board, vcells, n).len() <= n,
        forall|k: int|
            0 <= k < valid_anchors(board, vcells, n).len() ==> 0 <= #[trigger] valid_anchors(
                board,
                vcells,
                n,
            )[k] < n && fits(board, vcells, valid_anchors(board, vcells, n)[k]),
    decreases n,
{
    if n > 0 {
        lemma_valid_anchors(board, vcells, n - 1);
        let prev = valid_anchors(board, vcells, n - 1);
        let cur = valid_anchors(board, vcells, n);
        assert forall|k: int| 0 <= k < cur.len() implies 0 <= #[trigger] cur[k] < n && fits(
            board,
            vcells,
            cur[k],
        ) by {
            if k < prev.len() {
                assert(cur[k] == prev[k]);
            }
        }
    }
}

proof fn lemma_candidates_len(cells: Seq<Coord>, mark: Coord, n: int)
    requires
        0 <= n,
    ensures
        distinct_candidates(cells, mark, n).len() <= n,
    decreases n,
{
    if n > 0 {
        lemma_candidates_len(cells, mark, n - 1);
    }
}

proof fn lemma_variants_sites(board: Seq<Coord>, type_idx: u16, vs: Seq<VariantModel>, m: int)
    requires
        0 <= m <= vs.len(),
    ensures
        variants_sites(board, type_idx, vs, m).len() <= m * board.len(),
        forall|k: int|
            0 <= k < variants_sites(board, type_idx, vs, m).len() ==> {
                let st = #[trigger] variants_sites(board, type_idx, vs, m)[k];
                &&& st.0 == type_idx
                &&& exists|j: int| 0 <= j < m && st.1 == vs[j]
                &&& 0 <= st.2 < board.len()
                &&& fits(board, st.1.0, st.2)
            },
    decreases m,
{
    if m > 0 {
        lemma_variants_sites(board, type_idx, vs, m - 1);
        let prev = variants_sites(board, type_idx, vs, m - 1);
        let anchors = valid_anchors(board, vs[m - 1].0, board.len() as int);
        lemma_valid_anchors(board, vs[m - 1].0, board.len() as int);
        let last = variant_sites(board, type_idx, vs[m - 1]);
        let cur = variants_sites(board, type_idx, vs, m);
        assert(cur == prev + last);
        assert((m - 1) * board.len() + board.len() == m * board.len()) by (nonlinear_arith);
        assert forall|k: int| 0 <= k < cur.len() implies {
            let st = #[trigger] cur[k];
            &&& st.0 == type_idx
            &&& exists|j: int| 0 <= j < m && st.1 == vs[j]
            &&& 0 <= st.2 < board.len()
            &&& fits(board, st.1.0, st.2)
        } by {
            if k < prev.len() {
                assert(cur[k] == prev[k]);
                let st = prev[k];
                let j = choose|j: int| 0 <= j < m - 1 && st.1 == vs[j];
            } else {
                let q = k - prev.len();
                assert(cur[k] == last[q]);
                assert(last[q] == (type_idx, vs[m - 1], anchors[q]));
            }
        }
    }
}

/// Every site of the first `n` pieces belongs to one of those pieces and
/// one of its variants, at a board cell where that variant fits; there are
/// at most `8 * board.len()` sites per piece.
pub proof fn lemma_all_sites(
    board: Seq<Coord>,
    defs: Map<Seq<char>, PieceDefModel>,
    pieces: Seq<PieceInstance>,
    n: int,
)
    requires
        0 <= n <= pieces.len(),
    ensures
        all_sites(board, defs, pieces, n).len() <= n * 8 * board.len(),
        forall|k: int|
            0 <= k < all_sites(board, defs, pieces, n).len() ==> {
                let st = #[trigger] all_sites(board, defs, pieces, n)[k];
                exists|i: int, j: int|
                    0 <= i < n && 0 <= j < def_variants(defs[pieces[i].def_id@]).len() && st.0
                        == pieces[i].type_idx && st.1 == def_variants(defs[pieces[i].def_id@])[j]
                        && 0 <= st.2 < board.len() && fits(board, st.1.0, st.2)
            },
    decreases n,
{
    if n > 0 {
        lemma_all_sites(board, defs, pieces, n - 1);
        let prev = all_sites(board, defs, pieces, n - 1);
        let d = defs[pieces[n - 1].def_id@];
        let vs = def_variants(d);
        lemma_candidates_len(d.1, d.1[d.2 as int], 8);
        lemma_variants_sites(board, pieces[n - 1].type_idx, vs, vs.len() as int);
        let last = variants_sites(board, pieces[n - 1].type_idx, vs, vs.len() as int);
        let cur = all_sites(board, defs, pieces, n);
        assert(cur == prev + last);
        assert(vs.len() * board.len() <= 8 * board.len()) by (nonlinear_arith)
            requires
                vs.len() <= 8,
        ;
        assert((n - 1) * 8 * board.len() + 8 * board.len() == n * 8 * board.len()) by (nonlinear_arith);
        assert forall|k: int| 0 <= k < cur.len() implies {
            let st = #[trigger] cur[k];
            exists|i: int, j: int|
                0 <= i < n && 0 <= j < def_variants(defs[pieces[i].def_id@]).len() && st.0
                    == pieces[i].type_idx && st.1 == def_variants(defs[pieces[i].def_id@])[j]
                    && 0 <= st.2 < board.len() && fits(board, st.1.0, st.2)
        } by {
            if k < prev.len() {
                assert(cur[k] == prev[k]);
            } else {
                let q = k - prev.len();
                assert(cur[k] == last[q]);
                let st = last[q];
                let j = choose|j: int| 0 <= j < vs.len() && st.1 == vs[j];
                assert(st.0 == pieces[n - 1].type_idx);
            }
        }
    }
}

} // verus!
