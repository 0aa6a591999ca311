//! Console cell storage.

use vstd::prelude::*;

use crate::color::Color;

verus! {

/// The internal storage for one character cell of a console.
#[derive(Clone, Copy, Debug, PartialEq, Eq, Structural, Hash)]
pub struct Tile {
    /// The glyph drawn to represent the cell.
    pub glyph: u8,
    /// The color of the glyph.
    pub fg: Color,
    /// The color of the background behind the glyph.
    pub bg: Color,
}

} // verus!
