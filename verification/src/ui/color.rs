//! The colours of the display.
use vstd::prelude::*;

verus! {

/// A colour and how opaque it is.
#[derive(Clone, Copy, Debug, PartialEq, Eq, Structural)]
pub struct Color {
    pub r: u8,
    pub g: u8,
    pub b: u8,
    pub a: u8,
}

/// A colour by its parts.
pub open spec fn spec_rgba(r: u8, g: u8, b: u8, a: u8) -> Color {
    Color { r, g, b, a }
}

#[verifier::when_used_as_spec(spec_rgba)]
pub fn rgba(r: u8, g: u8, b: u8, a: u8) -> (c: Color)
    ensures
        c == spec_rgba(r, g, b, a),
{
    Color { r, g, b, a }
}

/// The colours of texts.
#[derive(Clone, Copy, Debug, PartialEq, Eq, Structural)]
pub enum Ink {
    Amber,
    Dim,
    Green,
    Red,
    White,
    Cyan,
    Blue,
    Code,
    Black,
}

impl Ink {
    pub open spec fn shade(self) -> Color {
        match self {
            Ink::Amber => rgba(0xff, 0xaa, 0x00, 0xff),
            Ink::Dim => rgba(0x88, 0x77, 0x44, 0xff),
            Ink::Green => rgba(0x00, 0xff, 0x88, 0xff),
            Ink::Red => rgba(0xff, 0x44, 0x44, 0xff),
            Ink::White => rgba(0xff, 0xdd, 0xaa, 0xff),
            Ink::Cyan => rgba(0x00, 0xcc, 0xff, 0xff),
            Ink::Blue => rgba(0x44, 0x88, 0xff, 0xff),
            Ink::Code => rgba(0xcc, 0xaa, 0x66, 0xff),
            Ink::Black => rgba(0x00, 0x00, 0x00, 0xff),
        }
    }

    pub fn color(self) -> (c: Color)
        ensures
            c == self.shade(),
    {
        match self {
            Ink::Amber => rgba(0xff, 0xaa, 0x00, 0xff),
            Ink::Dim => rgba(0x88, 0x77, 0x44, 0xff),
            Ink::Green => rgba(0x00, 0xff, 0x88, 0xff),
            Ink::Red => rgba(0xff, 0x44, 0x44, 0xff),
            Ink::White => rgba(0xff, 0xdd, 0xaa, 0xff),
            Ink::Cyan => rgba(0x00, 0xcc, 0xff, 0xff),
            Ink::Blue => rgba(0x44, 0x88, 0xff, 0xff),
            Ink::Code => rgba(0xcc, 0xaa, 0x66, 0xff),
            Ink::Black => rgba(0x00, 0x00, 0x00, 0xff),
        }
    }
}

} // verus!
