//! Solver library for the MapleStory Union placement puzzle.

pub mod base;
pub mod bench;
pub mod domain;
pub mod error;
pub mod io;
pub mod ml;
pub mod solver;
pub mod text;

pub use domain::piece::{Coord, PieceDef};
pub use error::SolverError;
pub use io::common::{PieceDefJson, PieceInstanceJson, SolverInput, SolverStats};
pub use io::input::{ExactCoverInput, GroupConstraintJson, GroupCountInput};
pub use io::output::{
    ExactCoverResult, ExactCoverStats, GroupCountResult, GroupCountStats, Solution,
    SolutionPlacement,
};
pub use solver::cancel::CancelFlag;
pub use solver::exact_cover::{SolveOptions, solve_exact_cover};
