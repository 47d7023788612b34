//! 32-bit ARGB packed pixels.
//!
//! A pixel packs as `0xAARRGGBB` (alpha in the most significant byte). Colors
//! handed to the compositor are premultiplied at blend time; the struct itself
//! stores the raw channel bytes.

use vstd::prelude::*;

verus! {

/// A color given as four 8-bit channels: alpha, red, green, blue.
#[derive(Clone, Copy, PartialEq, Eq, Structural, Debug)]
pub struct Color {
    pub a: u8,
    pub r: u8,
    pub g: u8,
    pub b: u8,
}

/// How four channel bytes pack into one `0xAARRGGBB` word.
pub open spec fn pack_argb(a: int, r: int, g: int, b: int) -> int {
    a * 0x100_0000 + r * 0x1_0000 + g * 0x100 + b
}

impl Color {
    /// Channel values, as mathematical integers, in packing order.
    pub open spec fn spec_a(self) -> int {
        self.a as int
    }

    pub open spec fn spec_r(self) -> int {
        self.r as int
    }

    pub open spec fn spec_g(self) -> int {
        self.g as int
    }

    pub open spec fn spec_b(self) -> int {
        self.b as int
    }

    /// The packed `0xAARRGGBB` form of this color.
    pub open spec fn spec_packed(self) -> int {
        pack_argb(self.spec_a(), self.spec_r(), self.spec_g(), self.spec_b())
    }

    /// Build a color from its red, green, blue and alpha bytes.
    pub fn rgba(r: u8, g: u8, b: u8, a: u8) -> (c: Color)
        ensures
            c.spec_a() == a as int,
            c.spec_r() == r as int,
            c.spec_g() == g as int,
            c.spec_b() == b as int,
    {
        Color { a, r, g, b }
    }

    pub fn a(&self) -> (v: u8)
        ensures
            v as int == self.spec_a(),
    {
        self.a
    }

    pub fn r(&self) -> (v: u8)
        ensures
            v as int == self.spec_r(),
    {
        self.r
    }

    pub fn g(&self) -> (v: u8)
        ensures
            v as int == self.spec_g(),
    {
        self.g
    }

    pub fn b(&self) -> (v: u8)
        ensures
            v as int == self.spec_b(),
    {
        self.b
    }

    /// Pack the channels into one `0xAARRGGBB` word.
    pub fn packed(&self) -> (p: u32)
        ensures
            p as int == self.spec_packed(),
    {
        (self.a as u32) * 0x100_0000 + (self.r as u32) * 0x1_0000 + (self.g as u32) * 0x100 + (
        self.b as u32)
    }

    /// Recover a color from its packed `0xAARRGGBB` form.
    pub fn from_packed(p: u32) -> (c: Color)
        ensures
            c.spec_a() == p as int / 0x100_0000,
            c.spec_r() == (p as int / 0x1_0000) % 0x100,
            c.spec_g() == (p as int / 0x100) % 0x100,
            c.spec_b() == p as int % 0x100,
            c.spec_packed() == p as int,
    {
        let a = (p / 0x100_0000) as u8;
        let r = ((p / 0x1_0000) % 0x100) as u8;
        let g = ((p / 0x100) % 0x100) as u8;
        let b = (p % 0x100) as u8;
        proof {
            lemma_unpack_repack(p as int);
        }
        Color { a, r, g, b }
    }
}

/// Splitting a 32-bit word into its four bytes and repacking them gives the
/// word back.
proof fn lemma_unpack_repack(p: int)
    by (nonlinear_arith)
    requires
        0 <= p < 0x1_0000_0000,
    ensures
        pack_argb(p / 0x100_0000, (p / 0x1_0000) % 0x100, (p / 0x100) % 0x100, p % 0x100) == p,
        p / 0x100_0000 < 0x100,
{
}

/// Packed channel bytes are each recoverable: packing is injective on bytes.
pub proof fn lemma_pack_unpack(a: int, r: int, g: int, b: int)
    by (nonlinear_arith)
    requires
        0 <= a < 0x100,
        0 <= r < 0x100,
        0 <= g < 0x100,
        0 <= b < 0x100,
    ensures
        pack_argb(a, r, g, b) / 0x100_0000 == a,
        (pack_argb(a, r, g, b) / 0x1_0000) % 0x100 == r,
        (pack_argb(a, r, g, b) / 0x100) % 0x100 == g,
        pack_argb(a, r, g, b) % 0x100 == b,
        0 <= pack_argb(a, r, g, b) < 0x1_0000_0000,
{
}

impl From<Color> for u32 {
    /// The packed `0xAARRGGBB` form, as `color.into()`.
    fn from(c: Color) -> (p: u32) {
        c.packed()
    }
}

impl vstd::std_specs::convert::FromSpecImpl<Color> for u32 {
    open spec fn obeys_from_spec() -> bool {
        true
    }

    open spec fn from_spec(c: Color) -> u32 {
        c.spec_packed() as u32
    }
}

} // verus!
