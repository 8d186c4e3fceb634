//! The GAL chips that galette can assemble for.
use vstd::prelude::*;

verus! {

/// A supported GAL device.
#[derive(Clone, Copy, Debug, PartialEq, Eq, Structural)]
pub enum Chip {
    GAL16V8,
    GAL20V8,
    GAL22V10,
    GAL20RA10,
}

/// The number of pins of a chip's package.
pub open spec fn spec_num_pins(chip: Chip) -> nat {
    match chip {
        Chip::GAL16V8 => 20,
        Chip::GAL20V8 => 24,
        Chip::GAL22V10 => 24,
        Chip::GAL20RA10 => 24,
    }
}

impl Chip {
    /// The number of pins of the chip's package; the last one is VCC and
    /// the middle one is GND.
    pub fn num_pins(&self) -> (n: usize)
        ensures
            n == spec_num_pins(*self),
    {
        match self {
            Chip::GAL16V8 => 20,
            Chip::GAL20V8 => 24,
            Chip::GAL22V10 => 24,
            Chip::GAL20RA10 => 24,
        }
    }
}

} // verus!
