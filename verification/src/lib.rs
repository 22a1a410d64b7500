//! Verified core of a Nerdle-style equation puzzle.
//!
//! The library holds the three engines of the game and their proofs: an
//! evaluator for the restricted arithmetic grammar with the exact-integer /
//! rational-fallback policy (`parse`, `eval`), an exhaustive generator of
//! the valid equations of a fixed character length (`gen`), and the
//! feedback-mask scorer and corpus-filtering solver (`mask`, `solver`).
//! Exact rational arithmetic is done by `num_rational` behind the trusted
//! wrappers of `ratio`; everything else is verified down to the character
//! level.

pub mod text;
pub mod parse;
pub mod ratio;
pub mod eval;
pub mod gen;
pub mod mask;
pub mod solver;
