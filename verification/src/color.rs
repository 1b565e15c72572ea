//! Colours with four 8-bit channels.

use vstd::prelude::*;

verus! {

/// The value of a channel at full intensity.
pub const CHANNEL_MAX: u8 = 255;

/// A colour: red, green, blue and alpha, each from 0 (none) to
/// [`CHANNEL_MAX`] (full). Two colours are equal when all four channels are.
#[derive(Clone, Copy, Debug, PartialEq, Eq, Structural)]
pub struct Color {
    pub red: u8,
    pub green: u8,
    pub blue: u8,
    pub alpha: u8,
}

impl Color {
    /// Whether the colour hides all that lies behind it.
    pub open spec fn is_opaque(self) -> bool {
        self.alpha == CHANNEL_MAX
    }

    /// The opaque colour with the given red, green and blue.
    pub fn opaque(red: u8, green: u8, blue: u8) -> (c: Color)
        ensures
            c == (Color { red, green, blue, alpha: CHANNEL_MAX }),
            c.is_opaque(),
    {
        Color { red, green, blue, alpha: CHANNEL_MAX }
    }
}

} // verus!
