//! Galette: a GAL assembler library.
//!
//! This crate holds the equation optimizer of the assembler: it turns the
//! sum-of-products terms of a GAL equation into the boolean expressions of the
//! `quine-mc_cluskey` minimizer, picks the smallest of the input, its
//! minimized form and (where allowed) the minimized form of its complement,
//! and renders equations back into galasm syntax.
use vstd::prelude::*;

pub mod bool_expr;
pub mod chips;
pub mod equivalence;
pub mod errors;
pub mod gal;
pub mod interactive;
pub mod optimize;
pub mod parser;

verus! {

/// What an interactive optimization pass over a source file ended with.
pub enum OptimizeOutcome {
    /// The user cancelled; nothing was written.
    Cancelled,
    /// No change was accepted or confirmed; nothing was written.
    NoChanges,
    /// The given number of equations were rewritten in the source file.
    Wrote(usize),
}

} // verus!
