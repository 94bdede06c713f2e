//! Colour types for pixels.
use vstd::prelude::*;

verus! {

/// A colour with two states, as on a monochrome display.
#[derive(Debug, Clone, Copy, PartialEq, Eq, Structural)]
pub enum BinaryColor {
    /// The pixel is dark.
    Off,
    /// The pixel is lit.
    On,
}

} // verus!
