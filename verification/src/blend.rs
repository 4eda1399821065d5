//! Photoshop-style blend modes known to the compositor.
use vstd::prelude::*;

verus! {

/// A blend mode of the compositor: the document's modes and the further
/// modes only the compositor offers.
#[derive(PartialEq, Eq, Structural, Clone, Copy, Debug)]
pub enum BlendMode {
    Normal,
    Multiply,
    Screen,
    Overlay,
    Darken,
    Lighten,
    ColorDodge,
    ColorBurn,
    HardLight,
    SoftLight,
    Difference,
    Exclusion,
    Hue,
    Saturation,
    Color,
    Luminosity,
    LinearDodge,
    LinearBurn,
    VividLight,
    LinearLight,
    PinLight,
    HardMix,
    Divide,
    Subtract,
}

} // verus!
