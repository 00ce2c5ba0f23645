//! Exact-arithmetic solver for the self-referential optimal-stopping
//! equations of a turn-based dice race game.
//!
//! The library is built from three layers: checked rational arithmetic
//! (`rat`), an expression algebra over one implicit free variable with
//! fixed-point extraction by bisection (`expr`), and a memoized position
//! solver for the game itself (`solver`).

pub mod expr;
pub mod rat;
pub mod solver;
