//! Concrete piece placements on the board.
//!
//! A [`Placement`] is a piece variant anchored at a specific board location,
//! with everything the solver needs at decision time precomputed.

use crate::base::bitset::BitSet;
use crate::domain::piece::{Coord, copy_coords};
use vstd::prelude::*;

verus! {

/// A piece variant placed at a specific board location.
#[derive(Debug)]
pub struct Placement {
    /// Solver type index of the piece.
    pub type_idx: u16,
    /// Board cells covered, as a bitset of cell indices.
    pub bits: BitSet,
    /// Board cells orthogonally adjacent to the placement but outside it.
    pub neighbor_bits: BitSet,
    /// The cells of `neighbor_bits`, in increasing index order.
    pub neighbor_indices: Vec<u16>,
    /// Number of checkerboard-black cells covered.
    pub b_count: u8,
    /// Whether the mark cell lands on the center region.
    pub mark_on_center: bool,
    /// Board cell indices covered, in variant order.
    pub cell_indices: Vec<u16>,
    /// Board coordinate of the mark cell.
    pub mark: Coord,
    /// Board coordinates covered, in variant order.
    pub cells: Vec<Coord>,
}

impl Clone for Placement {
    fn clone(&self) -> (r: Self)
        ensures
            r.type_idx == self.type_idx,
            r.bits == self.bits,
            r.neighbor_bits == self.neighbor_bits,
            r.neighbor_indices@ == self.neighbor_indices@,
            r.b_count == self.b_count,
            r.mark_on_center == self.mark_on_center,
            r.cell_indices@ == self.cell_indices@,
            r.mark == self.mark,
            r.cells@ == self.cells@,
    {
        Placement {
            type_idx: self.type_idx,
            bits: self.bits,
            neighbor_bits: self.neighbor_bits,
            neighbor_indices: self.neighbor_indices.clone(),
            b_count: self.b_count,
            mark_on_center: self.mark_on_center,
            cell_indices: self.cell_indices.clone(),
            mark: self.mark,
            cells: copy_coords(&self.cells),
        }
    }
}

impl Placement {
    /// Returns the number of cells this placement covers.
    pub fn size(&self) -> (r: usize)
        ensures
            r == self.cell_indices@.len(),
    {
        self.cell_indices.len()
    }
}

} // verus!
