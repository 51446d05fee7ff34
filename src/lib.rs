//! Incremental solver for small systems of equations, one `lhs = rhs` per line.
//!
//! Each pass substitutes the values known so far into every equation, picks the
//! equations that have exactly one unknown left, has that unknown solved
//! numerically, and records it. Passes repeat until one adds nothing.
//!
//! Numeric work (evaluating expressions, stepping the root search) happens
//! outside this library; the library decides what is solved, in which order,
//! with which text, and when the search and the passes stop.

mod analyze;
mod driver;
mod extract;
mod knowns;
mod residual;
mod search;
mod text;

pub use knowns::Knowns;
pub use search::{Move, Search, HALVINGS, MAX_ADVANCES};
pub use residual::{residual_sides, EvaluationError, Residual};
pub use driver::{Resolver, Step};
pub use analyze::{EqnParser, ParseError};
pub use extract::{extract, identifier_runs, unique_names};
pub use text::{replace, split_equation, split_lines};
