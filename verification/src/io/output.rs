//! Outputs of the solvers.

use crate::domain::piece::{Coord, copy_coords};
use crate::io::common::{PieceInstanceJson, SolverStats};
use vstd::prelude::*;

verus! {

/// A complete solution: ordered list of placements.
pub type Solution = Vec<SolutionPlacement>;

/// One piece placement in a solution.
#[derive(Debug)]
pub struct SolutionPlacement {
    pub piece: PieceInstanceJson,
    pub cells: Vec<Coord>,
    pub mark: Coord,
}

impl Clone for SolutionPlacement {
    fn clone(&self) -> (r: Self)
        ensures
            r.piece.def_id@ == self.piece.def_id@,
            r.piece.index == self.piece.index,
            r.cells@ == self.cells@,
            r.mark == self.mark,
    {
        SolutionPlacement { piece: self.piece.clone(), cells: copy_coords(&self.cells), mark: self.mark }
    }
}

/// Result returned by the ExactCover solver.
#[derive(Debug, Clone)]
pub struct ExactCoverResult {
    pub solution: Option<Solution>,
    pub stats: ExactCoverStats,
}

/// Statistics from an ExactCover solve.
#[derive(Debug, Clone, Copy)]
pub struct ExactCoverStats {
    pub common: SolverStats,
}

impl ExactCoverStats {
    /// Constructs a stats object representing zero work.
    pub fn empty(seed: u64) -> (s: Self)
        ensures
            s.common == SolverStats::spec_empty(seed),
    {
        Self { common: SolverStats::empty(seed) }
    }
}

/// Result returned by the GroupCount solver.
#[derive(Debug, Clone)]
pub struct GroupCountResult {
    pub solution: Option<Solution>,
    pub stats: GroupCountStats,
}

/// Statistics from a GroupCount solve.
#[derive(Debug, Clone, Copy)]
pub struct GroupCountStats {
    pub common: SolverStats,
    pub budget_prunes: u64,
    pub group_slack_prunes: u64,
}

impl GroupCountStats {
    /// Constructs a stats object representing zero work.
    pub fn empty(seed: u64) -> (s: Self)
        ensures
            s.common == SolverStats::spec_empty(seed),
            s.budget_prunes == 0,
            s.group_slack_prunes == 0,
    {
        Self { common: SolverStats::empty(seed), budget_prunes: 0, group_slack_prunes: 0 }
    }
}

} // verus!
