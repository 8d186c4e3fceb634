//! Equations as they are written in a `.pld` source file.
use vstd::prelude::*;

use crate::errors::LineNum;
use crate::gal::Pin;

verus! {

/// The suffix of an output pin on the left-hand side of an equation.
#[derive(Clone, Copy, Debug, PartialEq, Eq, Structural)]
pub enum Suffix {
    Plain,
    T,
    R,
    E,
    CLK,
    APRST,
    ARST,
}

/// The left-hand side of an equation: an output pin with its suffix, or one
/// of the global asynchronous-reset / synchronous-preset terms.
#[derive(Clone, Copy, Debug, PartialEq, Eq)]
pub enum LHS {
    Pin((Pin, Suffix)),
    Ar,
    Sp,
}

/// An equation `lhs = rhs`, where `rhs[i]` is joined to the previous pin by
/// OR when `is_or[i]` holds and by AND otherwise.
#[derive(Clone, Debug)]
pub struct Equation {
    pub line_num: LineNum,
    pub end_line: LineNum,
    pub lhs: LHS,
    pub rhs: Vec<Pin>,
    pub is_or: Vec<bool>,
}

} // verus!
