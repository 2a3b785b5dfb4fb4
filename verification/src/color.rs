//! The pixel type and its packing into a single 32-bit word.

use vstd::prelude::*;

verus! {

/// One RGBA pixel: four independent 8-bit channels.
/// Alpha is carried through unchanged; nothing ever blends.
#[derive(Clone, Copy, PartialEq, Eq, Structural, Debug)]
pub struct Pixel {
    pub r: u8,
    pub g: u8,
    pub b: u8,
    pub a: u8,
}

/// The packing rule: one 32-bit word whose bytes are, from most to least
/// significant, alpha, red, green, blue.
pub open spec fn pack_pixel(p: Pixel) -> u32 {
    ((p.a as u32) << 24) | ((p.r as u32) << 16) | ((p.g as u32) << 8) | (p.b as u32)
}

/// The inverse of `pack_pixel`: each byte back to its channel.
pub open spec fn unpack_pixel(v: u32) -> Pixel {
    Pixel {
        r: ((v >> 16) & 0xff) as u8,
        g: ((v >> 8) & 0xff) as u8,
        b: (v & 0xff) as u8,
        a: ((v >> 24) & 0xff) as u8,
    }
}

/// The color every cell starts from and is cleared to: opaque black.
pub open spec fn opaque_black() -> Pixel {
    Pixel { r: 0, g: 0, b: 0, a: 255 }
}

impl Pixel {
    /// A pixel out of its four channel values.
    pub fn new(r: u8, g: u8, b: u8, a: u8) -> (p: Pixel)
        ensures
            p == (Pixel { r, g, b, a }),
    {
        Pixel { r, g, b, a }
    }

    /// This pixel as one packed 32-bit word.
    pub fn to_u32(self) -> (v: u32)
        ensures
            v == pack_pixel(self),
    {
        ((self.a as u32) << 24) | ((self.r as u32) << 16) | ((self.g as u32) << 8)
            | (self.b as u32)
    }
}

/// Law: unpacking a packed pixel gives back the pixel, channel for channel;
/// no information is lost by packing.
pub proof fn lemma_unpack_pack(p: Pixel)
    ensures
        unpack_pixel(pack_pixel(p)) == p,
{
    let r = p.r;
    let g = p.g;
    let b = p.b;
    let a = p.a;
    let v = pack_pixel(p);
    assert(v == ((a as u32) << 24) | ((r as u32) << 16) | ((g as u32) << 8) | (b as u32));
    assert(((((a as u32) << 24) | ((r as u32) << 16) | ((g as u32) << 8) | (b as u32)) >> 16)
        & 0xff == r as u32) by (bit_vector);
    assert(((((a as u32) << 24) | ((r as u32) << 16) | ((g as u32) << 8) | (b as u32)) >> 8)
        & 0xff == g as u32) by (bit_vector);
    assert((((a as u32) << 24) | ((r as u32) << 16) | ((g as u32) << 8) | (b as u32))
        & 0xff == b as u32) by (bit_vector);
    assert(((((a as u32) << 24) | ((r as u32) << 16) | ((g as u32) << 8) | (b as u32)) >> 24)
        & 0xff == a as u32) by (bit_vector);
    assert(unpack_pixel(v).r == r);
    assert(unpack_pixel(v).g == g);
    assert(unpack_pixel(v).b == b);
    assert(unpack_pixel(v).a == a);
}

} // verus!
