//! Where each byte of a raster comes from, and how far a source repeats.

use crate::storage::cells::{is_collapsing, is_published, period_of, Source};
use crate::storage::raster::{
    byte_of, lemma_ramp_len, lemma_ramp_row_len, noise_bytes, prime_moduli, ramp_pixel, ramp_row,
    ramp_rows, round_moduli, source_bytes, state_after, Moduli,
};
use crate::storage::scenarios::fills::{xorshift_pixels, xorshift_state};
use crate::storage::splitmix::mixed;
use crate::storage::stats::{drawn, state_at};
use vstd::arithmetic::div_mod::{
    lemma_add_mod_noop, lemma_fundamental_div_mod, lemma_mod_multiples_basic, lemma_mod_twice,
};
use vstd::arithmetic::mul::{
    lemma_mul_is_distributive_add, lemma_mul_is_distributive_add_other_way,
};
use vstd::prelude::*;

verus! {

/// Where the bytes of a pixel stand in its row.
proof fn lemma_row_at(m: Moduli, y: int, n: int, x: int, c: int)
    requires
        0 <= x < n,
        0 <= c < 3,
    ensures
        3 * x + c < ramp_row(m, y, n).len(),
        ramp_row(m, y, n)[3 * x + c] == ramp_pixel(m, x, y)[c],
    decreases n,
{
    lemma_ramp_row_len(m, y, n);
    lemma_ramp_row_len(m, y, n - 1);
    if x < n - 1 {
        lemma_row_at(m, y, n - 1, x, c);
    }
}

/// Where the bytes of a pixel stand in its ramp.
proof fn lemma_ramp_at(m: Moduli, width: int, n: int, x: int, y: int, c: int)
    requires
        0 <= x < width,
        0 <= y < n,
        0 <= c < 3,
    ensures
        0 <= (y * width + x) * 3 + c < ramp_rows(m, width, n).len(),
        ramp_rows(m, width, n)[(y * width + x) * 3 + c] == ramp_pixel(m, x, y)[c],
    decreases n,
{
    let at = (y * width + x) * 3 + c;
    lemma_ramp_len(m, width, n);
    lemma_ramp_len(m, width, n - 1);
    lemma_ramp_row_len(m, n - 1, width);
    assert(0 <= at) by (nonlinear_arith)
        requires
            at == (y * width + x) * 3 + c,
            0 <= y,
            0 <= x < width,
            0 <= c,
    ;
    if y < n - 1 {
        lemma_ramp_at(m, width, n - 1, x, y, c);
    } else {
        lemma_row_at(m, y, width, x, c);
        assert(at - width * (n - 1) * 3 == 3 * x + c) by (nonlinear_arith)
            requires
                at == (y * width + x) * 3 + c,
                y == n - 1,
        ;
    }
}

/// A gradient's pixel tells its column, its row and a mix of both, each by its
/// remainder, and stands in its row's order, three bytes to a pixel.
pub proof fn law_gradient_pixel_tells_its_place(width: u32, height: u32, x: int, y: int)
    requires
        0 <= x < width,
        0 <= y < height,
    ensures
        ({
            let (primes, rounds) = (
                source_bytes(Source::Gradient, width, height),
                source_bytes(Source::PeriodicGradient, width, height),
            );
            let at = (y * width as int + x) * 3;
            &&& primes.len() == width * height * 3
            &&& rounds.len() == width * height * 3
            &&& 0 <= at < primes.len() - 2
            &&& primes[at] == x % 251
            &&& primes[at + 1] == y % 241
            &&& primes[at + 2] == (7 * x + 13 * y) % 239
            &&& rounds[at] == x % 256
            &&& rounds[at + 1] == y % 256
            &&& rounds[at + 2] == (7 * x + 13 * y) % 256
        }),
{
    let (w, h) = (width as int, height as int);
    lemma_ramp_len(prime_moduli(), w, h);
    lemma_ramp_len(round_moduli(), w, h);
    lemma_ramp_at(prime_moduli(), w, h, x, y, 0);
    lemma_ramp_at(prime_moduli(), w, h, x, y, 1);
    lemma_ramp_at(prime_moduli(), w, h, x, y, 2);
    lemma_ramp_at(round_moduli(), w, h, x, y, 0);
    lemma_ramp_at(round_moduli(), w, h, x, y, 1);
    lemma_ramp_at(round_moduli(), w, h, x, y, 2);
}

/// The bytes of noise are those of its words, the lowest first: eight of them make a
/// word again.
pub proof fn law_noise_word_stands_lowest_byte_first(word: u64)
    ensures
        word == byte_of(word, 0) + 0x100 * byte_of(word, 1) + 0x1_0000 * byte_of(word, 2)
            + 0x100_0000 * byte_of(word, 3) + 0x1_0000_0000 * byte_of(word, 4) + 0x100_0000_0000
            * byte_of(word, 5) + 0x1_0000_0000_0000 * byte_of(word, 6) + 0x100_0000_0000_0000
            * byte_of(word, 7),
{
    let (a, b, c, d) = (word >> 8, word >> 16, word >> 24, word >> 32);
    let (e, f, g) = (word >> 40, word >> 48, word >> 56);
    assert(a == word / 0x100) by (bit_vector)
        requires
            a == word >> 8,
    ;
    assert(b == a / 0x100) by (bit_vector)
        requires
            a == word >> 8,
            b == word >> 16,
    ;
    assert(c == b / 0x100) by (bit_vector)
        requires
            b == word >> 16,
            c == word >> 24,
    ;
    assert(d == c / 0x100) by (bit_vector)
        requires
            c == word >> 24,
            d == word >> 32,
    ;
    assert(e == d / 0x100) by (bit_vector)
        requires
            d == word >> 32,
            e == word >> 40,
    ;
    assert(f == e / 0x100) by (bit_vector)
        requires
            e == word >> 40,
            f == word >> 48,
    ;
    assert(g == f / 0x100) by (bit_vector)
        requires
            f == word >> 48,
            g == word >> 56,
    ;
    assert(g < 0x100) by (bit_vector)
        requires
            g == word >> 56,
    ;
}

/// A multiple of a product of two numbers without a common divisor.
proof fn lemma_both_divide(d: int, a: int, b: int, u: int, v: int)
    requires
        a > 0,
        b > 0,
        d % a == 0,
        d % b == 0,
        u * a + v * b == 1,
    ensures
        d % (a * b) == 0,
{
    let (p, q) = (d / a, d / b);
    lemma_fundamental_div_mod(d, a);
    lemma_fundamental_div_mod(d, b);
    lemma_mul_is_distributive_add(a * b, u * q, v * p);
    assert((a * b) * (u * q) == (u * a) * (b * q)) by (nonlinear_arith);
    assert((a * b) * (v * p) == (v * b) * (a * p)) by (nonlinear_arith);
    lemma_mul_is_distributive_add_other_way(d, u * a, v * b);
    let k = u * q + v * p;
    assert(a * b > 0) by (nonlinear_arith)
        requires
            a > 0,
            b > 0,
    ;
    assert((a * b) * k == k * (a * b)) by (nonlinear_arith);
    lemma_mod_multiples_basic(k, a * b);
}

/// A pixel of a ramp does not change where both coordinates move by multiples of the
/// three moduli.
proof fn lemma_moved(m: Moduli, x: int, y: int, d: int)
    requires
        m.x > 0 && m.y > 0 && m.both > 0,
        d % (m.x as int) == 0 && d % (m.y as int) == 0 && d % (m.both as int) == 0,
    ensures
        ramp_pixel(m, x + d, y) == ramp_pixel(m, x, y),
        ramp_pixel(m, x, y + d) == ramp_pixel(m, x, y),
{
    lemma_shifted(x, d, m.x as int);
    lemma_shifted(y, d, m.y as int);
    let both = m.both as int;
    let k = d / both;
    lemma_fundamental_div_mod(d, both);
    assert(7 * d == (7 * k) * both) by (nonlinear_arith)
        requires
            d == both * k,
    ;
    assert(13 * d == (13 * k) * both) by (nonlinear_arith)
        requires
            d == both * k,
    ;
    lemma_mod_multiples_basic(7 * k, both);
    lemma_mod_multiples_basic(13 * k, both);
    lemma_shifted(x * 7 + y * 13, 7 * d, both);
    lemma_shifted(x * 7 + y * 13, 13 * d, both);
    assert((x + d) * 7 + y * 13 == x * 7 + y * 13 + 7 * d);
    assert(x * 7 + (y + d) * 13 == x * 7 + y * 13 + 13 * d);
    assert(ramp_pixel(m, x + d, y) =~= ramp_pixel(m, x, y));
    assert(ramp_pixel(m, x, y + d) =~= ramp_pixel(m, x, y));
}

/// A remainder does not change where a multiple is added.
proof fn lemma_shifted(x: int, d: int, m: int)
    requires
        m > 0,
        d % m == 0,
    ensures
        (x + d) % m == x % m,
{
    lemma_add_mod_noop(x, d, m);
    lemma_mod_twice(x, m);
}

/// What all three primes of the gradient divide, their product divides.
proof fn lemma_three_divide(d: int)
    requires
        d % 251 == 0,
        d % 241 == 0,
        (d * 7) % 239 == 0,
    ensures
        d % 14_457_349 == 0,
{
    let k = (d * 7) / 239;
    assert(d * 7 == 239 * k);
    assert(d == 239 * (205 * k - 6 * d));
    let j = 205 * k - 6 * d;
    assert((239 * j) % 239 == 0);
    lemma_both_divide(d, 251, 241, -24, 25);
    lemma_both_divide(d, 60_491, 239, 10, -2531);
}

/// What changes nothing of the corner of a gradient, on either axis.
proof fn lemma_unmoved(d: int)
    requires
        0 < d,
        ramp_pixel(prime_moduli(), d, 0) == ramp_pixel(prime_moduli(), 0, 0),
        ramp_pixel(prime_moduli(), 0, d) == ramp_pixel(prime_moduli(), 0, 0),
    ensures
        d % 251 == 0,
        d % 241 == 0,
        (d * 7) % 239 == 0,
{
    let a = prime_moduli();
    assert(ramp_pixel(a, d, 0)[0] == (d % 251) as u8);
    assert(ramp_pixel(a, 0, d)[1] == (d % 241) as u8);
    assert(ramp_pixel(a, d, 0)[2] == ((d * 7) % 239) as u8);
    assert(ramp_pixel(a, 0, 0)[0] == 0 && ramp_pixel(a, 0, 0)[1] == 0 && ramp_pixel(a, 0, 0)[2]
        == 0);
}

/// A source's period is the least distance by which it repeats on both axes: moving a
/// pixel by it changes nothing, and whatever distance changes nothing of the pixel at
/// the corner is a multiple of it.
pub proof fn law_period_is_the_least_on_both_axes(x: int, y: int, d: int)
    requires
        0 < d,
    ensures
        ({
            let p = period_of(Source::Gradient)->0 as int;
            &&& ramp_pixel(prime_moduli(), x + p, y) == ramp_pixel(prime_moduli(), x, y)
            &&& ramp_pixel(prime_moduli(), x, y + p) == ramp_pixel(prime_moduli(), x, y)
            &&& ramp_pixel(prime_moduli(), d, 0) == ramp_pixel(prime_moduli(), 0, 0) && ramp_pixel(
                prime_moduli(),
                0,
                d,
            ) == ramp_pixel(prime_moduli(), 0, 0) ==> d % p == 0
        }),
        ({
            let p = period_of(Source::PeriodicGradient)->0 as int;
            &&& ramp_pixel(round_moduli(), x + p, y) == ramp_pixel(round_moduli(), x, y)
            &&& ramp_pixel(round_moduli(), x, y + p) == ramp_pixel(round_moduli(), x, y)
            &&& ramp_pixel(round_moduli(), d, 0) == ramp_pixel(round_moduli(), 0, 0) ==> d % p == 0
        }),
{
    lemma_moved(prime_moduli(), x, y, 14_457_349);
    lemma_moved(round_moduli(), x, y, 256);
    let (a, b) = (prime_moduli(), round_moduli());
    if ramp_pixel(a, d, 0) == ramp_pixel(a, 0, 0) && ramp_pixel(a, 0, d) == ramp_pixel(a, 0, 0) {
        lemma_unmoved(d);
        lemma_three_divide(d);
    }
    if ramp_pixel(b, d, 0) == ramp_pixel(b, 0, 0) {
        assert(ramp_pixel(b, d, 0)[0] == ramp_pixel(b, 0, 0)[0]);
    }
}

/// Only a source is published that gives no tile of a usual size twice: a tile whose
/// side is a multiple of the period would repeat throughout its level.
pub proof fn law_published_source_never_collapses(s: Source, tile_px: u32)
    requires
        0 < tile_px < 14_457_349,
    ensures
        is_published(s) ==> !is_collapsing(s, tile_px),
        !is_published(s) && tile_px % 256 == 0 ==> is_collapsing(s, tile_px),
        is_collapsing(s, tile_px) ==> period_of(s) is Some && tile_px as nat % period_of(s)->0 == 0,
{
    if s == Source::Gradient {
        assert(tile_px as nat % 14_457_349 == tile_px as nat);
    }
    assert(tile_px as nat % 1 == 0);
}

/// Noise is not over before its canvas is, and a flat source has one byte throughout.
pub proof fn law_flat_and_noise_fill_the_canvas(seed: u64, width: u32, height: u32, i: int)
    ensures
        source_bytes(Source::Noise, width, height).len() == width * height * 3,
        source_bytes(Source::Flat, width, height).len() == width * height * 3,
        0 <= i < width * height * 3 ==> source_bytes(Source::Flat, width, height)[i] == 0,
        noise_bytes(seed, 0).len() == 0,
{
    assert(width as nat * height as nat * 3 == width * height * 3);
}

/// Each word of noise is drawn from the state behind the one before it, and a pixel has
/// three of a word's bytes, the lowest, the third and the fifth.
pub proof fn law_noise_is_drawn_word_by_word(n: nat, state: u64, k: int)
    requires
        0 < k,
    ensures
        state_after(state, 0) == state,
        state_after(state, n + 1) == state_after(state, n).wrapping_add(0x9E37_79B9_7F4A_7C15),
        drawn(state, k, n as int + 1) == drawn(state, k, n as int).push(
            mixed(state_at(state, n as int + 1)) as int % k,
        ),
        state_at(state, n as int + 1) == state_at(state, n as int).wrapping_add(
            0x9E37_79B9_7F4A_7C15,
        ),
        xorshift_pixels(n + 1) == xorshift_pixels(n) + seq![
            byte_of(xorshift_state(n + 1).wrapping_mul(xorshift_state(0)), 0),
            byte_of(xorshift_state(n + 1).wrapping_mul(xorshift_state(0)), 2),
            byte_of(xorshift_state(n + 1).wrapping_mul(xorshift_state(0)), 4),
        ],
{
}

} // verus!
