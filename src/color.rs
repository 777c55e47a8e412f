//! Pixel colors.
use vstd::prelude::*;

verus! {

/// A pixel color: one 8-bit intensity for each of red, green and blue.
pub type Color = rgb::RGB8;

/// `rgb::Rgb`, whose three public channel fields Verus reads as they stand.
#[verifier::external_type_specification]
#[verifier::reject_recursive_types(T)]
pub struct ExRgb<T>(rgb::Rgb<T>);

/// The color with the given red, green and blue intensities.
pub open spec fn color(r: u8, g: u8, b: u8) -> Color {
    rgb::Rgb { r, g, b }
}

/// Builds a color from its three channel intensities.
pub fn new_color(r: u8, g: u8, b: u8) -> (c: Color)
    ensures
        c == color(r, g, b),
{
    rgb::Rgb { r, g, b }
}

} // verus!
