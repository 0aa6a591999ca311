//! Value types shared with the REX Paint file format.

use vstd::prelude::*;

verus! {

/// An R/G/B color component triple as stored in an xp file.
#[derive(Clone, Copy, Debug, PartialEq, Eq, Structural, Hash)]
pub struct XpColor {
    /// Red component, 0..=255.
    pub r: u8,
    /// Green component, 0..=255.
    pub g: u8,
    /// Blue component, 0..=255.
    pub b: u8,
}

impl XpColor {
    /// Creates a color component triple.
    pub fn new(r: u8, g: u8, b: u8) -> (c: XpColor)
        ensures
            c == (XpColor { r, g, b }),
    {
        XpColor { r, g, b }
    }
}

} // verus!
