//! Source positions used in error reports and equation bookkeeping.
use vstd::prelude::*;

verus! {

/// A 1-based line number in a `.pld` source file.
pub type LineNum = usize;

} // verus!
