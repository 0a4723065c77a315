//! Colours with an alpha channel, eight bits each.

use vstd::prelude::*;

verus! {

#[derive(Clone, Copy, Eq, PartialEq, Debug, Structural)]
pub struct Color {
    pub r: u8,
    pub g: u8,
    pub b: u8,
    pub a: u8,
}

/// The four channels in one word: red in the lowest byte, then green, blue
/// and alpha.
pub open spec fn packed(c: Color) -> u32 {
    (c.r as u32) | ((c.g as u32) << 8) | ((c.b as u32) << 16) | ((c.a as u32) << 24)
}

/// The colour whose channels are the four bytes of `c`, red the lowest.
pub open spec fn unpacked(c: u32) -> Color {
    Color {
        r: (c & 0xff) as u8,
        g: ((c >> 8) & 0xff) as u8,
        b: ((c >> 16) & 0xff) as u8,
        a: ((c >> 24) & 0xff) as u8,
    }
}

impl Color {
    /// An opaque colour.
    #[allow(non_snake_case)]
    pub fn RGB(r: u8, g: u8, b: u8) -> (c: Self)
        ensures
            c == (Color { r, g, b, a: 255 }),
    {
        Self { r, g, b, a: 255 }
    }

    #[allow(non_snake_case)]
    pub fn RGBA(r: u8, g: u8, b: u8, a: u8) -> (c: Self)
        ensures
            c == (Color { r, g, b, a }),
    {
        Self { r, g, b, a }
    }

    /// The colour that is packed in `c`.
    #[allow(non_snake_case)]
    pub fn U32(c: u32) -> (r: Self)
        ensures
            r == unpacked(c),
    {
        Self {
            r: (c & 0xff) as u8,
            g: ((c >> 8) & 0xff) as u8,
            b: ((c >> 16) & 0xff) as u8,
            a: ((c >> 24) & 0xff) as u8,
        }
    }

    /// The colour packed into one word.
    pub fn as_u32(self) -> (r: u32)
        ensures
            r == packed(self),
    {
        (self.r as u32) | ((self.g as u32) << 8) | ((self.b as u32) << 16) | ((self.a as u32)
            << 24)
    }
}

/// Packing and unpacking undo each other.
pub proof fn lemma_pack_roundtrip(c: Color, w: u32)
    ensures
        unpacked(packed(c)) == c,
        packed(unpacked(w)) == w,
{
    let (r, g, b, a) = (c.r, c.g, c.b, c.a);
    let p = (r as u32) | ((g as u32) << 8) | ((b as u32) << 16) | ((a as u32) << 24);
    assert((p & 0xff) as u8 == r && ((p >> 8) & 0xff) as u8 == g && ((p >> 16) & 0xff) as u8 == b
        && ((p >> 24) & 0xff) as u8 == a) by (bit_vector)
        requires
            p == (r as u32) | ((g as u32) << 8) | ((b as u32) << 16) | ((a as u32) << 24),
    ;
    assert((((w & 0xff) as u8) as u32) | ((((w >> 8) & 0xff) as u8) as u32) << 8 | ((((w >> 16)
        & 0xff) as u8) as u32) << 16 | ((((w >> 24) & 0xff) as u8) as u32) << 24 == w)
        by (bit_vector);
}

} // verus!
