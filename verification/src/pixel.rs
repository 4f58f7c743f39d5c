use vstd::prelude::*;

verus! {

/// One RGBA pixel; each channel is an unsigned 8-bit value.
#[derive(Clone, Copy, Debug, PartialEq, Eq, Structural)]
pub struct Pixel {
    pub r: u8,
    pub g: u8,
    pub b: u8,
    pub a: u8,
}

/// A decoded image: dimensions plus a row-major pixel buffer.
pub struct Image<T> {
    pub width: usize,
    pub height: usize,
    pub pixels: Vec<T>,
}

/// The pixel both predictor states start from: opaque black.
pub open spec fn init_pixel() -> Pixel {
    Pixel { r: 0, g: 0, b: 0, a: 255 }
}

/// The initial cache: all 64 slots hold the initial pixel.
pub open spec fn init_cache() -> Seq<Pixel> {
    Seq::new(64, |i: int| init_pixel())
}

/// The 6-bit cache index of a pixel. Each term wraps at 8 bits in the
/// implementation, which agrees with this formula because 64 divides 256.
pub open spec fn hash_of(p: Pixel) -> int {
    (p.r * 3 + p.g * 5 + p.b * 7 + p.a * 11) % 64
}

/// A fresh 64-entry cache, every slot holding the initial pixel.
pub(crate) fn fresh_cache() -> (c: Vec<Pixel>)
    ensures
        c@ == init_cache(),
{
    let mut c: Vec<Pixel> = Vec::new();
    let mut k: usize = 0;
    while k < 64
        invariant
            k <= 64,
            c@.len() == k,
            forall|j: int| 0 <= j < k ==> c@[j] == init_pixel(),
        decreases 64 - k,
    {
        c.push(Pixel { r: 0, g: 0, b: 0, a: 255 });
        k = k + 1;
    }
    proof {
        assert(c@ =~= init_cache());
    }
    c
}

impl Pixel {
    pub fn new(r: u8, g: u8, b: u8, a: u8) -> (p: Self)
        ensures
            p == (Pixel { r, g, b, a }),
    {
        Self { r, g, b, a }
    }

    /// The cache slot this pixel hashes to; always below 64.
    pub fn hash(&self) -> (h: u8)
        ensures
            h == hash_of(*self),
            h < 64,
    {
        let s: u32 = self.r as u32 * 3 + self.g as u32 * 5 + self.b as u32 * 7 + self.a as u32
            * 11;
        (s % 64) as u8
    }

    /// The four channels in R, G, B, A order.
    pub fn to_bytes(&self) -> (bytes: [u8; 4])
        ensures
            bytes@ == seq![self.r, self.g, self.b, self.a],
    {
        let bytes = [self.r, self.g, self.b, self.a];
        proof {
            assert(bytes@ =~= seq![self.r, self.g, self.b, self.a]);
        }
        bytes
    }
}

} // verus!
