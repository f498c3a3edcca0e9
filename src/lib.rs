//! Line-local constraint propagation for nonogram puzzles: candidate
//! placements per line, their consensus, filtering against the grid, and the
//! loop that drives these to a fixpoint.
use vstd::prelude::*;

pub mod nonogram;
pub mod parser;
pub mod solver;

pub use nonogram::{BuilderError, CellState, Constraint, Nonogram, NonogramBuilder};
pub use parser::{parse_list, parse_usize, trim_bytes, unquote, Parser, ParserError, ParserMode};
pub use solver::{
    candidates, filter_candidates, find_consensus, into_mask, CandidateMask, CandidateMaskSet,
    GenerateError, Line, Outcome, Solver, Violation,
};
