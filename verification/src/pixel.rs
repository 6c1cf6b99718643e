use vstd::prelude::*;

verus! {

/// One RGBA pixel: four unsigned 8-bit channels.
#[derive(Clone, Copy, Debug, PartialEq, Eq, Structural)]
pub struct Pixel {
    pub r: u8,
    pub g: u8,
    pub b: u8,
    pub a: u8,
}

/// The pixel the codec starts from before any output exists: opaque black.
pub open spec fn initial_pixel() -> Pixel {
    Pixel { r: 0, g: 0, b: 0, a: 255 }
}

/// The zero pixel that fills every cache slot before anything is stored.
pub open spec fn zero_pixel() -> Pixel {
    Pixel { r: 0, g: 0, b: 0, a: 0 }
}

/// Channel-byte addition, wrapping modulo 256.
pub open spec fn wadd(a: u8, b: u8) -> u8 {
    vstd::wrapping::u8_specs::wrapping_add(a, b)
}

/// Channel-byte subtraction, wrapping modulo 256.
pub open spec fn wsub(a: u8, b: u8) -> u8 {
    vstd::wrapping::u8_specs::wrapping_sub(a, b)
}

/// The 6-bit cache index of a pixel: `(r*3 + g*5 + b*7 + a*11) mod 64`.
pub open spec fn pixel_hash(p: Pixel) -> int {
    ((p.r as int) * 3 + (p.g as int) * 5 + (p.b as int) * 7 + (p.a as int) * 11) % 64
}

impl Pixel {
    /// Computes this pixel's cache index.
    pub fn hash_index(&self) -> (h: u8)
        ensures
            h as int == pixel_hash(*self),
            h < 64,
    {
        let sum: u16 = (self.r as u16) * 3 + (self.g as u16) * 5 + (self.b as u16) * 7
            + (self.a as u16) * 11;
        (sum % 64) as u8
    }
}

/// Adding back the wrapped difference of two bytes restores the second byte:
/// the bias technique stays invertible even when intermediate sums wrap.
pub proof fn lemma_wadd_wsub_cancel(a: u8, x: u8)
    ensures
        wadd(a, wsub(x, a)) == x,
{
}

/// Wrapped addition then subtraction of the same byte is the identity.
pub proof fn lemma_wsub_wadd_cancel(x: u8, c: u8)
    ensures
        wsub(wadd(x, c), c) == x,
        wadd(wsub(x, c), c) == x,
{
}

/// The LUMA green byte: biasing the green delta by 32, adding the op tag
/// (128) and removing 168 is the same as biasing the delta by -8.
pub proof fn lemma_luma_green_bias(dg: u8, b1: u8)
    requires
        wadd(dg, 32) < 64,
        b1 == wadd(dg, 32) + 128,
    ensures
        wsub(b1, 168) == wsub(dg, 8),
{
}

/// The LUMA secondary delta: adding the stored `delta - green_delta + 8`
/// field to `green_delta - 8` restores the full channel delta.
pub proof fn lemma_luma_chain(a: u8, c: u8)
    ensures
        wadd(wadd(wsub(a, c), 8), wsub(c, 8)) == a,
{
}

} // verus!
