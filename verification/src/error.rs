//! Error types for the solver library.
//!
//! The variants cover the failure modes that callers may need to
//! discriminate.

use vstd::prelude::*;

verus! {

#[verifier::external_type_specification]
#[verifier::external_body]
pub struct ExJsonError(serde_json::Error);

/// Errors that can occur during solver setup or execution.
#[derive(Debug)]
pub enum SolverError {
    /// The input contains more cells than the bitset can represent.
    BoardTooLarge { actual: usize, capacity: usize },
    /// A piece references a definition id that was not supplied.
    UnknownPieceDef { id: String },
    /// The total cell count of all pieces does not match the target cell count.
    PieceCellMismatch { piece_cells: usize, target_cells: usize },
    /// No placement of any piece can land its mark on the center region.
    NoCenterMarkPossible,
    /// JSON (de)serialization failed.
    Json(serde_json::Error),
}

pub type Result<T> = core::result::Result<T, SolverError>;

} // verus!
