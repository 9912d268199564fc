use vstd::arithmetic::div_mod::lemma_fundamental_div_mod_converse;
use vstd::prelude::*;

verus! {

/// An 8-bit-per-channel RGBA color.
#[derive(Clone, Copy, Debug, PartialEq, Eq, Structural)]
pub struct Rgba {
    pub r: u8,
    pub g: u8,
    pub b: u8,
    pub a: u8,
}

impl Rgba {
    /// Builds a color from its four channels.
    pub fn new(r: u8, g: u8, b: u8, a: u8) -> (c: Rgba)
        ensures
            c == (Rgba { r, g, b, a }),
    {
        Rgba { r, g, b, a }
    }

    /// Opaque black.
    pub fn black() -> (c: Rgba)
        ensures
            c == (Rgba { r: 0, g: 0, b: 0, a: 255 }),
    {
        Rgba { r: 0, g: 0, b: 0, a: 255 }
    }

    /// Opaque white.
    pub fn white() -> (c: Rgba)
        ensures
            c == (Rgba { r: 255, g: 255, b: 255, a: 255 }),
    {
        Rgba { r: 255, g: 255, b: 255, a: 255 }
    }
}

/// The packed form of a color: alpha in the top byte, then red, green, blue.
pub open spec fn packed(c: Rgba) -> u32 {
    ((c.a as int) * 0x100_0000 + (c.r as int) * 0x1_0000 + (c.g as int) * 0x100 + (c.b as int)) as u32
}

/// The color whose packed form is `w`.
pub open spec fn unpacked(w: u32) -> Rgba {
    Rgba {
        r: ((w / 0x1_0000) % 0x100) as u8,
        g: ((w / 0x100) % 0x100) as u8,
        b: (w % 0x100) as u8,
        a: (w / 0x100_0000) as u8,
    }
}

/// Packs a color into one word, alpha in the top byte, then red, green and blue.
pub fn color_to_u32(c: Rgba) -> (w: u32)
    ensures
        w == packed(c),
{
    let a = c.a as u32;
    let r = c.r as u32;
    let g = c.g as u32;
    let b = c.b as u32;
    let w = (a << 24u32) | (r << 16u32) | (g << 8u32) | b;
    assert(w == a * 0x100_0000 + r * 0x1_0000 + g * 0x100 + b) by (bit_vector)
        requires
            a < 0x100,
            r < 0x100,
            g < 0x100,
            b < 0x100,
            w == (a << 24u32) | (r << 16u32) | (g << 8u32) | b,
    ;
    w
}

/// Splits a packed word back into its four channels.
pub fn u32_to_color(w: u32) -> (c: Rgba)
    ensures
        c == unpacked(w),
{
    let r = ((w >> 16u32) & 0xFFu32) as u8;
    let g = ((w >> 8u32) & 0xFFu32) as u8;
    let b = (w & 0xFFu32) as u8;
    let a = ((w >> 24u32) & 0xFFu32) as u8;
    assert((w >> 16u32) & 0xFFu32 == (w / 0x1_0000) % 0x100) by (bit_vector);
    assert((w >> 8u32) & 0xFFu32 == (w / 0x100) % 0x100) by (bit_vector);
    assert(w & 0xFFu32 == w % 0x100) by (bit_vector);
    assert((w >> 24u32) & 0xFFu32 == w / 0x100_0000) by (bit_vector);
    Rgba { r, g, b, a }
}

/// Unpacking a packed color gives the color back.
pub proof fn lemma_unpack_pack(c: Rgba)
    ensures
        unpacked(packed(c)) == c,
{
    let a = c.a as int;
    let r = c.r as int;
    let g = c.g as int;
    let b = c.b as int;
    let w = a * 0x100_0000 + r * 0x1_0000 + g * 0x100 + b;
    assert(w == a * 0x100_0000 + (r * 0x1_0000 + g * 0x100 + b));
    lemma_fundamental_div_mod_converse(w, 0x100_0000, a, r * 0x1_0000 + g * 0x100 + b);
    assert(w == (a * 0x100 + r) * 0x1_0000 + (g * 0x100 + b));
    lemma_fundamental_div_mod_converse(w, 0x1_0000, a * 0x100 + r, g * 0x100 + b);
    lemma_fundamental_div_mod_converse(a * 0x100 + r, 0x100, a, r);
    assert(w == (a * 0x1_0000 + r * 0x100 + g) * 0x100 + b);
    lemma_fundamental_div_mod_converse(w, 0x100, a * 0x1_0000 + r * 0x100 + g, b);
    lemma_fundamental_div_mod_converse(a * 0x1_0000 + r * 0x100 + g, 0x100, a * 0x100 + r, g);
    assert(packed(c) == w);
}

/// Packing the channels of a word gives the word back.
pub proof fn lemma_pack_unpack(w: u32)
    ensures
        packed(unpacked(w)) == w,
{
    assert(w == (w / 0x100_0000) * 0x100_0000 + ((w / 0x1_0000) % 0x100) * 0x1_0000 + ((w / 0x100)
        % 0x100) * 0x100 + w % 0x100) by (nonlinear_arith);
}

} // verus!
