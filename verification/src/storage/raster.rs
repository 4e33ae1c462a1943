//! The rasters that cells are generated from.

use crate::storage::cells::{Source, SEED};
use crate::storage::splitmix::{advanced, mixed, Splitmix};
use vstd::prelude::*;

verus! {

/// `libviprs::Raster`, an image of an outside crate.
#[verifier::external_type_specification]
#[verifier::external_body]
pub struct ExRaster(libviprs::Raster);

/// The bytes of a raster, row by row.
pub uninterp spec fn raster_bytes(r: &libviprs::Raster) -> Seq<u8>;

/// The width and the height of a raster.
pub uninterp spec fn raster_size(r: &libviprs::Raster) -> (nat, nat);

/// `libviprs::Raster::new` of eight-bit RGB pixels. It takes a buffer of three
/// bytes for each pixel of a canvas that is not empty, and keeps it as it is.
#[verifier::external_body]
pub(crate) fn raster_of(width: u32, height: u32, data: Vec<u8>) -> (r: libviprs::Raster)
    requires
        width > 0,
        height > 0,
        data@.len() == width as nat * height as nat * 3,
    ensures
        raster_bytes(&r) == data@,
        raster_size(&r) == (width as nat, height as nat),
{
    libviprs::Raster::new(width, height, libviprs::PixelFormat::Rgb8, data)
        .expect("three bytes for each pixel make a raster")
}

/// The three moduli of a ramp.
pub struct Moduli {
    pub x: nat,
    pub y: nat,
    pub both: nat,
}

/// One pixel of a ramp.
pub open spec fn ramp_pixel(m: Moduli, x: int, y: int) -> Seq<u8> {
    seq![
        (x % m.x as int) as u8,
        (y % m.y as int) as u8,
        ((x * 7 + y * 13) % m.both as int) as u8,
    ]
}

/// The first `n` pixels of the row `y` of a ramp.
pub open spec fn ramp_row(m: Moduli, y: int, n: int) -> Seq<u8>
    decreases n,
{
    if n <= 0 {
        Seq::empty()
    } else {
        ramp_row(m, y, n - 1) + ramp_pixel(m, n - 1, y)
    }
}

/// The first `n` rows of a ramp.
pub open spec fn ramp_rows(m: Moduli, width: int, n: int) -> Seq<u8>
    decreases n,
{
    if n <= 0 {
        Seq::empty()
    } else {
        ramp_rows(m, width, n - 1) + ramp_row(m, n - 1, width)
    }
}

/// The gradient's moduli: three primes.
pub open spec fn prime_moduli() -> Moduli {
    Moduli { x: 251, y: 241, both: 239 }
}

/// The moduli of a ramp that repeats every 256 pixels.
pub open spec fn round_moduli() -> Moduli {
    Moduli { x: 256, y: 256, both: 256 }
}

/// Whether the pixels of a canvas can be held: it is not empty, and its bytes
/// stay within the address space.
pub open spec fn can_fill(width: u32, height: u32) -> bool {
    &&& width > 0
    &&& height > 0
    &&& width as nat * height as nat * 3 <= usize::MAX
}

/// Whether the ramp of a canvas can be computed and held: it stays within 32
/// bits.
pub open spec fn can_hold(width: u32, height: u32) -> bool {
    can_fill(width, height) && (width - 1) * 7 + (height - 1) * 13 <= u32::MAX
}

/// Whether a source can fill a canvas: only a ramp has numbers to compute.
pub open spec fn can_source(source: Source, width: u32, height: u32) -> bool {
    match source {
        Source::Gradient | Source::PeriodicGradient => can_hold(width, height),
        Source::Noise | Source::Flat => can_fill(width, height),
    }
}

/// A row of a ramp has three bytes for each pixel.
pub(crate) proof fn lemma_ramp_row_len(m: Moduli, y: int, n: int)
    requires
        0 <= n,
    ensures
        ramp_row(m, y, n).len() == 3 * n,
    decreases n,
{
    if n > 0 {
        lemma_ramp_row_len(m, y, n - 1);
    }
}

/// A ramp has three bytes for each pixel.
pub(crate) proof fn lemma_ramp_len(m: Moduli, width: int, n: int)
    requires
        0 <= n,
        0 <= width,
    ensures
        ramp_rows(m, width, n).len() == width * n * 3,
    decreases n,
{
    if n > 0 {
        lemma_ramp_len(m, width, n - 1);
        lemma_ramp_row_len(m, n - 1, width);
        assert(width * n * 3 == width * (n - 1) * 3 + 3 * width) by (nonlinear_arith);
    } else {
        assert(width * n * 3 == 0) by (nonlinear_arith)
            requires
                n == 0,
        ;
    }
}

/// The bytes of a ramp.
fn ramp(width: u32, height: u32, mx: u32, my: u32, mz: u32) -> (data: Vec<u8>)
    requires
        can_hold(width, height),
        0 < mx <= 256,
        0 < my <= 256,
        0 < mz <= 256,
    ensures
        data@ == ramp_rows(
            (Moduli { x: mx as nat, y: my as nat, both: mz as nat }),
            width as int,
            height as int,
        ),
        data@.len() == width as nat * height as nat * 3,
{
    let ghost m = Moduli { x: mx as nat, y: my as nat, both: mz as nat };
    let mut data: Vec<u8> = Vec::new();
    let mut y: u32 = 0;
    while y < height
        invariant
            y <= height,
            can_hold(width, height),
            0 < mx <= 256,
            0 < my <= 256,
            0 < mz <= 256,
            m == (Moduli { x: mx as nat, y: my as nat, both: mz as nat }),
            data@ == ramp_rows(m, width as int, y as int),
        decreases height - y,
    {
        let ghost above = data@;
        let mut x: u32 = 0;
        assert(data@ =~= above + ramp_row(m, y as int, 0));
        while x < width
            invariant
                x <= width,
                y < height,
                can_hold(width, height),
                0 < mx <= 256,
                0 < my <= 256,
                0 < mz <= 256,
                m == (Moduli { x: mx as nat, y: my as nat, both: mz as nat }),
                data@ == above + ramp_row(m, y as int, x as int),
            decreases width - x,
        {
            let ghost before = data@;
            data.push((x % mx) as u8);
            data.push((y % my) as u8);
            data.push(((x * 7 + y * 13) % mz) as u8);
            assert(data@ =~= before + ramp_pixel(m, x as int, y as int));
            x = x + 1;
            assert(data@ =~= above + ramp_row(m, y as int, x as int));
        }
        y = y + 1;
    }
    proof {
        lemma_ramp_len(m, width as int, height as int);
    }
    data
}

/// The byte `k` of a 64-bit number, the lowest first.
pub open spec fn byte_of(word: u64, k: int) -> u8 {
    if k == 0 {
        (word % 256) as u8
    } else if k == 1 {
        ((word >> 8) % 256) as u8
    } else if k == 2 {
        ((word >> 16) % 256) as u8
    } else if k == 3 {
        ((word >> 24) % 256) as u8
    } else if k == 4 {
        ((word >> 32) % 256) as u8
    } else if k == 5 {
        ((word >> 40) % 256) as u8
    } else if k == 6 {
        ((word >> 48) % 256) as u8
    } else {
        ((word >> 56) % 256) as u8
    }
}

/// The state of the walk after `n` numbers.
pub open spec fn state_after(seed: u64, n: nat) -> u64
    decreases n,
{
    if n == 0 {
        seed
    } else {
        advanced(state_after(seed, (n - 1) as nat))
    }
}

/// The byte `i` of a noise: eight bytes from each number of the walk, the lowest
/// first.
pub open spec fn noise_byte(seed: u64, i: int) -> u8 {
    byte_of(mixed(state_after(seed, (i / 8 + 1) as nat)), i % 8)
}

/// The first `n` bytes of a noise.
pub open spec fn noise_bytes(seed: u64, n: nat) -> Seq<u8> {
    Seq::new(n, |i: int| noise_byte(seed, i))
}

/// The byte `k` of a 64-bit number, the lowest first.
fn byte_at(word: u64, k: u8) -> (b: u8)
    requires
        k < 8,
    ensures
        b == byte_of(word, k as int),
{
    match k {
        0 => (word % 256) as u8,
        1 => ((word >> 8) % 256) as u8,
        2 => ((word >> 16) % 256) as u8,
        3 => ((word >> 24) % 256) as u8,
        4 => ((word >> 32) % 256) as u8,
        5 => ((word >> 40) % 256) as u8,
        6 => ((word >> 48) % 256) as u8,
        _ => ((word >> 56) % 256) as u8,
    }
}

/// The first `n` bytes of a noise.
fn noise_data(seed: u64, n: usize) -> (data: Vec<u8>)
    ensures
        data@ == noise_bytes(seed, n as nat),
{
    let mut rng = Splitmix::new(seed);
    let mut word: u64 = rng.next_u64();
    let mut taken: u8 = 0;
    let mut data: Vec<u8> = Vec::new();
    let ghost mut drawn: nat = 1;
    assert(state_after(seed, 0) == seed);
    while data.len() < n
        invariant
            data@.len() <= n,
            taken <= 8,
            drawn >= 1,
            8 * (drawn - 1) + taken == data@.len(),
            rng@ == state_after(seed, drawn),
            word == mixed(state_after(seed, drawn)),
            forall|i: int| 0 <= i < data@.len() ==> #[trigger] data@[i] == noise_byte(seed, i),
        decreases n - data@.len(),
    {
        if taken == 8 {
            word = rng.next_u64();
            taken = 0;
            proof {
                drawn = drawn + 1;
            }
        }
        let b: u8 = byte_at(word, taken);
        proof {
            let i = data@.len() as int;
            assert(i / 8 == drawn - 1 && i % 8 == taken);
        }
        data.push(b);
        taken = taken + 1;
    }
    assert(data@ =~= noise_bytes(seed, n as nat));
    data
}

/// The bytes of a source on a canvas.
pub open spec fn source_bytes(source: Source, width: u32, height: u32) -> Seq<u8> {
    let count = width as nat * height as nat * 3;
    match source {
        Source::Gradient => ramp_rows(prime_moduli(), width as int, height as int),
        Source::PeriodicGradient => ramp_rows(round_moduli(), width as int, height as int),
        Source::Noise => noise_bytes(SEED, count),
        Source::Flat => Seq::new(count, |i: int| 0u8),
    }
}

/// `n` bytes of one value.
pub(crate) fn filled(value: u8, n: usize) -> (data: Vec<u8>)
    ensures
        data@ == Seq::new(n as nat, |i: int| value),
{
    let mut data: Vec<u8> = Vec::new();
    while data.len() < n
        invariant
            data@.len() <= n,
            forall|i: int| 0 <= i < data@.len() ==> #[trigger] data@[i] == value,
        decreases n - data@.len(),
    {
        data.push(value);
    }
    assert(data@ =~= Seq::new(n as nat, |i: int| value));
    data
}

/// How many bytes a canvas has.
pub(crate) fn byte_count(width: u32, height: u32) -> (n: usize)
    requires
        can_fill(width, height),
    ensures
        n == width as nat * height as nat * 3,
{
    let (w, h): (u128, u128) = (width as u128, height as u128);
    assert(w * h <= 0x1_0000_0000 * 0x1_0000_0000) by (nonlinear_arith)
        requires
            w <= 0x1_0000_0000,
            h <= 0x1_0000_0000,
    ;
    assert(w * h == width as nat * height as nat);
    (w * h * 3) as usize
}

/// The raster behind a cell.
pub fn raster(source: Source, width: u32, height: u32) -> (r: libviprs::Raster)
    requires
        can_source(source, width, height),
    ensures
        raster_bytes(&r) == source_bytes(source, width, height),
        raster_size(&r) == (width as nat, height as nat),
{
    let data: Vec<u8> = match source {
        Source::Gradient => ramp(width, height, 251, 241, 239),
        Source::PeriodicGradient => ramp(width, height, 256, 256, 256),
        Source::Noise => noise_data(SEED, byte_count(width, height)),
        Source::Flat => filled(0, byte_count(width, height)),
    };
    assert(data@ =~= source_bytes(source, width, height));
    raster_of(width, height, data)
}

} // verus!
