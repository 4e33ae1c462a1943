//! What fills the raster a cell is generated from.

use crate::storage::cells::Source;
use crate::storage::raster::{
    byte_count, can_fill, can_hold, can_source, filled, raster, raster_bytes, raster_of, raster_size, source_bytes,
};
use vstd::prelude::*;

verus! {

/// The deterministic RGB gradient: three ramps with prime moduli, so that no two
/// tiles of any size a sweep uses are the same bytes.
pub fn gradient(width: u32, height: u32) -> (r: libviprs::Raster)
    requires
        can_hold(width, height),
    ensures
        raster_bytes(&r) == source_bytes(Source::Gradient, width, height),
        raster_size(&r) == (width as nat, height as nat),
{
    raster(Source::Gradient, width, height)
}

/// The same ramp with power-of-two moduli, which makes it repeat every 256
/// pixels.
pub fn periodic_gradient(width: u32, height: u32) -> (r: libviprs::Raster)
    requires
        can_hold(width, height),
    ensures
        raster_bytes(&r) == source_bytes(Source::PeriodicGradient, width, height),
        raster_size(&r) == (width as nat, height as nat),
{
    raster(Source::PeriodicGradient, width, height)
}

/// The seed of the xorshift walk, and its multiplier.
pub const XORSHIFT: u64 = 0x2545_F491_4F6C_DD1D;

/// One step of `xorshift64star`.
pub open spec fn xorshifted(state: u64) -> u64 {
    let a = state ^ (state >> 12);
    let b = a ^ (a << 25);
    b ^ (b >> 27)
}

/// The state after `n` steps.
pub open spec fn xorshift_state(n: nat) -> u64
    decreases n,
{
    if n == 0 {
        XORSHIFT
    } else {
        xorshifted(xorshift_state((n - 1) as nat))
    }
}

/// The three bytes of a pixel.
pub open spec fn word_pixel(word: u64) -> Seq<u8> {
    seq![(word % 256) as u8, ((word >> 16) % 256) as u8, ((word >> 32) % 256) as u8]
}

/// The first `n` pixels of the noise: a walk over the whole raster, three bytes
/// of each of its numbers.
pub open spec fn xorshift_pixels(n: nat) -> Seq<u8>
    decreases n,
{
    if n == 0 {
        Seq::empty()
    } else {
        xorshift_pixels((n - 1) as nat) + word_pixel(xorshift_state(n).wrapping_mul(XORSHIFT))
    }
}

/// A seeded xorshift fill: the incompressible source.
pub fn noise(width: u32, height: u32) -> (r: libviprs::Raster)
    requires
        can_fill(width, height),
    ensures
        raster_bytes(&r) == xorshift_pixels(width as nat * height as nat),
        raster_size(&r) == (width as nat, height as nat),
{
    let bytes: usize = byte_count(width, height);
    let pixels: usize = bytes / 3;
    let mut data: Vec<u8> = Vec::new();
    let mut state: u64 = XORSHIFT;
    let mut i: usize = 0;
    while i < pixels
        invariant
            i <= pixels,
            state == xorshift_state(i as nat),
            data@ == xorshift_pixels(i as nat),
            data@.len() == 3 * i,
        decreases pixels - i,
    {
        state = state ^ (state >> 12);
        state = state ^ (state << 25);
        state = state ^ (state >> 27);
        let word: u64 = state.wrapping_mul(XORSHIFT);
        let ghost before = data@;
        data.push((word % 256) as u8);
        data.push(((word >> 16) % 256) as u8);
        data.push(((word >> 32) % 256) as u8);
        assert(data@ =~= before + word_pixel(word));
        i = i + 1;
    }
    raster_of(width, height, data)
}

/// A solid colour: the dedupe guard, never a published row.
pub fn flat(width: u32, height: u32) -> (r: libviprs::Raster)
    requires
        can_fill(width, height),
    ensures
        raster_bytes(&r) == Seq::new(width as nat * height as nat * 3, |i: int| 0x40u8),
        raster_size(&r) == (width as nat, height as nat),
{
    let data: Vec<u8> = filled(0x40, byte_count(width, height));
    assert(data@ =~= Seq::new(width as nat * height as nat * 3, |i: int| 0x40u8));
    raster_of(width, height, data)
}

/// The bytes that a source fills a raster with here.
pub open spec fn fill_bytes(source: Source, width: u32, height: u32) -> Seq<u8> {
    match source {
        Source::Noise => xorshift_pixels(width as nat * height as nat),
        Source::Flat => Seq::new(width as nat * height as nat * 3, |i: int| 0x40u8),
        _ => source_bytes(source, width, height),
    }
}

impl Source {
    /// The raster a cell of this source generates from.
    pub fn raster(self, width: u32, height: u32) -> (r: libviprs::Raster)
        requires
            can_source(self, width, height),
        ensures
            raster_bytes(&r) == fill_bytes(self, width, height),
            raster_size(&r) == (width as nat, height as nat),
    {
        match self {
            Source::Gradient => gradient(width, height),
            Source::Noise => noise(width, height),
            Source::Flat => {
                let r = flat(width, height);
                assert(raster_bytes(&r) =~= fill_bytes(self, width, height));
                r
            },
            Source::PeriodicGradient => periodic_gradient(width, height),
        }
    }
}

} // verus!
