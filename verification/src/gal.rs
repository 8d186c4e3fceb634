//! Pins and sum-of-products terms, the logic that a GAL implements.
use vstd::prelude::*;

use crate::errors::LineNum;

verus! {

/// A reference to a pin of the chip, possibly negated.
#[derive(Clone, Copy, Debug, PartialEq, Eq, Structural)]
pub struct Pin {
    /// 1-based pin number.
    pub pin: usize,
    /// Whether the pin is used inverted.
    pub neg: bool,
}

/// A sum of products: the OR of `pins.len()` products, each the AND of its
/// pins. No product at all is constant false; one empty product is
/// constant true.
#[derive(Clone, Debug)]
pub struct Term {
    pub line_num: LineNum,
    pub pins: Vec<Vec<Pin>>,
}

impl Term {
    /// The products of the term as sequences of pins.
    pub open spec fn products(&self) -> Seq<Seq<Pin>> {
        self.pins@.map_values(|p: Vec<Pin>| p@)
    }
}

/// The number of literals of a sum of products: the sum of the lengths of
/// its products.
pub open spec fn literal_count(products: Seq<Seq<Pin>>) -> int
    decreases products.len(),
{
    if products.len() == 0 {
        0
    } else {
        literal_count(products.drop_last()) + products.last().len()
    }
}

/// A pin reference is true under `assignment` (the level of each pin).
pub open spec fn literal_holds(pin: Pin, assignment: spec_fn(int) -> bool) -> bool {
    assignment(pin.pin as int) != pin.neg
}

/// A product is true when all of its pins are.
pub open spec fn product_holds(product: Seq<Pin>, assignment: spec_fn(int) -> bool) -> bool {
    forall|j: int| 0 <= j < product.len() ==> literal_holds(#[trigger] product[j], assignment)
}

/// A sum of products is true when one of its products is.
pub open spec fn sum_holds(products: Seq<Seq<Pin>>, assignment: spec_fn(int) -> bool) -> bool {
    exists|i: int| 0 <= i < products.len() && product_holds(#[trigger] products[i], assignment)
}

/// The pin `pin` occurs somewhere in the products.
pub open spec fn pin_occurs(products: Seq<Seq<Pin>>, pin: usize) -> bool {
    exists|i: int, j: int|
        0 <= i < products.len() && 0 <= j < products[i].len() && (#[trigger] products[i][j]).pin == pin
}

/// The set of pins that occur in the products.
pub open spec fn pin_set(products: Seq<Seq<Pin>>) -> Set<usize> {
    Set::new(|pin: usize| pin_occurs(products, pin))
}

/// The term that is always true: a single empty product.
pub fn true_term(line_num: LineNum) -> (t: Term)
    ensures
        t.line_num == line_num,
        t.products() == seq![Seq::<Pin>::empty()],
{
    let mut pins: Vec<Vec<Pin>> = Vec::new();
    pins.push(Vec::new());
    let t = Term { line_num, pins };
    assert(t.products() =~= seq![Seq::<Pin>::empty()]);
    t
}

/// The term that is always false: no product.
pub fn false_term(line_num: LineNum) -> (t: Term)
    ensures
        t.line_num == line_num,
        t.products() == Seq::<Seq<Pin>>::empty(),
{
    let t = Term { line_num, pins: Vec::new() };
    assert(t.products() =~= Seq::<Seq<Pin>>::empty());
    t
}

} // verus!
