//! Color value types: a packed 24-bit color and an R/G/B triplet.

use vstd::prelude::*;

use crate::rex::XpColor;

verus! {

/// A color packed into a `u32` as `0xRRGGBB`.
#[derive(Clone, Copy, Debug, PartialEq, Eq, Structural, Hash)]
pub struct Color(pub u32);

/// The packed value of an R/G/B byte triple.
pub open spec fn pack_rgb(r: u8, g: u8, b: u8) -> u32 {
    (r as u32 * 0x1_0000 + g as u32 * 0x100 + b as u32) as u32
}

impl Color {
    /// Creates a color from its packed value.
    pub fn new(c: u32) -> (r: Color)
        ensures
            r.0 == c,
    {
        Color(c)
    }

    /// Creates a color from its red, green and blue components.
    pub fn from_rgb(r: u8, g: u8, b: u8) -> (c: Color)
        ensures
            c.0 == pack_rgb(r, g, b),
    {
        Color(r as u32 * 0x1_0000 + g as u32 * 0x100 + b as u32)
    }

    /// The red component.
    pub fn r(self) -> (r: u8)
        ensures
            r == ((self.0 / 0x1_0000) % 0x100) as u8,
    {
        ((self.0 / 0x1_0000) % 0x100) as u8
    }

    /// The green component.
    pub fn g(self) -> (r: u8)
        ensures
            r == ((self.0 / 0x100) % 0x100) as u8,
    {
        ((self.0 / 0x100) % 0x100) as u8
    }

    /// The blue component.
    pub fn b(self) -> (r: u8)
        ensures
            r == (self.0 % 0x100) as u8,
    {
        (self.0 % 0x100) as u8
    }

    /// The red, green and blue components as a tuple.
    pub fn tuple(self) -> (t: (u8, u8, u8))
        ensures
            t.0 == ((self.0 / 0x1_0000) % 0x100) as u8,
            t.1 == ((self.0 / 0x100) % 0x100) as u8,
            t.2 == (self.0 % 0x100) as u8,
    {
        (self.r(), self.g(), self.b())
    }
}

impl Default for Color {
    /// The default color is black.
    fn default() -> (c: Color)
        ensures
            c.0 == 0,
    {
        Color(0)
    }
}

impl From<i32> for Color {
    /// Reinterprets the value as a packed color.
    fn from(t: i32) -> (c: Color) {
        Color(t as u32)
    }
}

impl vstd::std_specs::convert::FromSpecImpl<i32> for Color {
    open spec fn obeys_from_spec() -> bool {
        true
    }

    open spec fn from_spec(t: i32) -> Color {
        Color(t as u32)
    }
}

impl From<u32> for Color {
    /// Takes the value as a packed color.
    fn from(t: u32) -> (c: Color) {
        Color(t)
    }
}

impl vstd::std_specs::convert::FromSpecImpl<u32> for Color {
    open spec fn obeys_from_spec() -> bool {
        true
    }

    open spec fn from_spec(t: u32) -> Color {
        Color(t)
    }
}

impl From<u64> for Color {
    /// Truncates the value to a packed color.
    fn from(t: u64) -> (c: Color) {
        Color(t as u32)
    }
}

impl vstd::std_specs::convert::FromSpecImpl<u64> for Color {
    open spec fn obeys_from_spec() -> bool {
        true
    }

    open spec fn from_spec(t: u64) -> Color {
        Color(t as u32)
    }
}

impl From<(u8, u8, u8)> for Color {
    /// Packs an R/G/B byte triple.
    fn from(t: (u8, u8, u8)) -> (c: Color) {
        Color::from_rgb(t.0, t.1, t.2)
    }
}

impl vstd::std_specs::convert::FromSpecImpl<(u8, u8, u8)> for Color {
    open spec fn obeys_from_spec() -> bool {
        true
    }

    open spec fn from_spec(t: (u8, u8, u8)) -> Color {
        Color(pack_rgb(t.0, t.1, t.2))
    }
}

/// Pure white.
pub fn white() -> (c: Color)
    ensures
        c.0 == 0xFFFFFF,
{
    Color(0xFFFFFF)
}

/// Pure black.
pub fn black() -> (c: Color)
    ensures
        c.0 == 0,
{
    Color(0)
}

/// Snow, a near-white.
pub fn snow() -> (c: Color)
    ensures
        c.0 == 0xFFFAFA,
{
    Color(0xFFFAFA)
}

/// Pure red.
pub fn red() -> (c: Color)
    ensures
        c.0 == 0xFF0000,
{
    Color(0xFF0000)
}

/// Pure green.
pub fn green() -> (c: Color)
    ensures
        c.0 == 0x00FF00,
{
    Color(0x00FF00)
}

/// Pure blue.
pub fn blue() -> (c: Color)
    ensures
        c.0 == 0x0000FF,
{
    Color(0x0000FF)
}

/// The level every channel takes in the greyscale of an R/G/B triplet,
/// using the luma weights scaled by the byte range (so most colors
/// saturate).
pub open spec fn greyscale_level(r: u8, g: u8, b: u8) -> int {
    let v = (2126 * r + 7152 * g + 722 * b) * 255 / 10000;
    if v > 255 {
        255
    } else {
        v
    }
}

/// Represents an R/G/B triplet with byte components.
#[derive(Clone, Copy, Debug, PartialEq, Eq, Structural, Hash)]
pub struct RGB {
    /// Red component, 0..=255.
    pub r: u8,
    /// Green component, 0..=255.
    pub g: u8,
    /// Blue component, 0..=255.
    pub b: u8,
}

impl Default for RGB {
    /// The default triplet is black.
    fn default() -> (c: RGB)
        ensures
            c == (RGB { r: 0, g: 0, b: 0 }),
    {
        RGB { r: 0, g: 0, b: 0 }
    }
}

impl RGB {
    /// Constructs a new, zeroed (black) triplet.
    pub fn new() -> (c: RGB)
        ensures
            c == (RGB { r: 0, g: 0, b: 0 }),
    {
        RGB { r: 0, g: 0, b: 0 }
    }

    /// Constructs a triplet from three bytes.
    pub fn from_u8(r: u8, g: u8, b: u8) -> (c: RGB)
        ensures
            c == (RGB { r, g, b }),
    {
        RGB { r, g, b }
    }

    /// Converts an xp file color component to a triplet.
    pub fn from_xp(col: XpColor) -> (c: RGB)
        ensures
            c == (RGB { r: col.r, g: col.g, b: col.b }),
    {
        RGB::from_u8(col.r, col.g, col.b)
    }

    /// Converts a triplet to an xp file color component.
    pub fn to_xp(&self) -> (c: XpColor)
        ensures
            c == (XpColor { r: self.r, g: self.g, b: self.b }),
    {
        XpColor::new(self.r, self.g, self.b)
    }

    /// Applies a quick greyscale conversion to the color: every channel
    /// takes the (saturated) scaled luma level.
    pub fn to_greyscale(&self) -> (c: RGB)
        ensures
            c.r == greyscale_level(self.r, self.g, self.b),
            c.g == c.r,
            c.b == c.r,
    {
        let v: u64 = (2126 * (self.r as u64) + 7152 * (self.g as u64) + 722 * (self.b as u64))
            * 255 / 10000;
        let linear: u8 = if v > 255 {
            255
        } else {
            v as u8
        };
        RGB::from_u8(linear, linear, linear)
    }
}

} // verus!
