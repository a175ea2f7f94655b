//! Input types for the solvers.

use crate::domain::piece::Coord;
use crate::error::Result;
use crate::io::common::{keys_parsed, parse_cell_keys, SolverInput};
use vstd::prelude::*;

verus! {

/// One group constraint for the GroupCount solver.
#[derive(Debug, Clone)]
pub struct GroupConstraintJson {
    pub group_id: u32,
    pub cells: Vec<String>,
    pub count: u32,
}

impl GroupConstraintJson {
    /// Parses this group's `cells` strings into coordinates.
    pub fn parse_cells(&self) -> (r: Result<Vec<Coord>>)
        ensures
            keys_parsed(self.cells@, r),
    {
        parse_cell_keys(&self.cells)
    }
}

/// Input to the ExactCover solver.
#[derive(Debug, Clone)]
pub struct ExactCoverInput {
    pub target_cells: Vec<String>,
    pub common: SolverInput,
}

impl ExactCoverInput {
    /// Parses `target_cells` strings into coordinates.
    pub fn parse_target_cells(&self) -> (r: Result<Vec<Coord>>)
        ensures
            keys_parsed(self.target_cells@, r),
    {
        parse_cell_keys(&self.target_cells)
    }
}

/// Input to the GroupCount solver.
#[derive(Debug, Clone)]
pub struct GroupCountInput {
    pub exact_cells: Vec<String>,
    pub group_constraints: Vec<GroupConstraintJson>,
    pub common: SolverInput,
}

impl GroupCountInput {
    /// Parses `exact_cells` strings into coordinates.
    pub fn parse_exact_cells(&self) -> (r: Result<Vec<Coord>>)
        ensures
            keys_parsed(self.exact_cells@, r),
    {
        parse_cell_keys(&self.exact_cells)
    }
}

} // verus!
