//! Where the search for the brink ends.

use crate::storage::brink::{fits, in_space, is_best_before, LARGEST_FLAT_ROOT, Brink};
use crate::storage::plan::{half_up, law_count_never_falls, planned_count, tiles_across};
use crate::storage::tile_id::{lemma_two_to_grows, two_to};
use vstd::arithmetic::div_mod::lemma_div_is_ordered_by_denominator;
use vstd::prelude::*;

verus! {

/// How many tiles the canvas at the end of the search plans.
pub const BRINK_TILES: u64 = 16_369;

/// The canvas at the end of the search.
pub open spec fn brink() -> Brink {
    Brink { width: 4096, height: 6256, tile: 46, tiles: BRINK_TILES }
}

/// Larger tiles cover a canvas with no more of them.
proof fn lemma_across_falls(n: nat, tile: nat, larger: nat)
    requires
        0 < tile <= larger,
    ensures
        tiles_across(n, larger) <= tiles_across(n, tile),
{
    if n > 0 {
        assert((n + tile - 1) / tile as int == (n - 1) / tile as int + 1) by (nonlinear_arith)
            requires
                tile > 0,
                n > 0,
        ;
        assert((n + larger - 1) / larger as int == (n - 1) / larger as int + 1)
            by (nonlinear_arith)
            requires
                larger > 0,
                n > 0,
        ;
        lemma_div_is_ordered_by_denominator(n - 1, tile as int, larger as int);
    } else {
        assert((tile - 1) / tile as int == 0) by (nonlinear_arith)
            requires
                tile > 0,
        ;
        assert((larger - 1) / larger as int == 0) by (nonlinear_arith)
            requires
                larger > 0,
        ;
    }
}

/// A plan's tile count never rises as the tiles grow.
pub proof fn law_count_never_rises_with_the_tile(
    width: nat,
    height: nat,
    tile: nat,
    larger: nat,
)
    requires
        0 < tile <= larger,
    ensures
        planned_count(width, height, larger) <= planned_count(width, height, tile),
    decreases width + height,
{
    lemma_across_falls(width, tile, larger);
    lemma_across_falls(height, tile, larger);
    let (a, b) = (tiles_across(width, larger), tiles_across(height, larger));
    let (c, d) = (tiles_across(width, tile), tiles_across(height, tile));
    assert(a * b <= c * d) by (nonlinear_arith)
        requires
            0 <= a <= c,
            0 <= b <= d,
    ;
    if !(width <= 1 && height <= 1) {
        law_count_never_rises_with_the_tile(half_up(width), half_up(height), tile, larger);
    }
}

/// Whether the canvases of a width and a tile size jump over the brink between a
/// height and the next: so high they plan fewer tiles, and higher they do not fit.
spec fn jumps_at(width: nat, height: nat, tile: nat) -> bool {
    planned_count(width, height, tile) < BRINK_TILES && planned_count(width, height + 1, tile)
        > LARGEST_FLAT_ROOT
}

/// A side of a canvas on eight levels, each half the one before, rounded up.
struct Sides {
    a: nat,
    b: nat,
    c: nat,
    d: nat,
    e: nat,
    f: nat,
    g: nat,
    h: nat,
}

/// The eight levels of a side, in tiles.
spec fn sides(n: nat, tile: nat) -> Sides {
    let b = half_up(n);
    let c = half_up(b);
    let d = half_up(c);
    let e = half_up(d);
    let f = half_up(e);
    let g = half_up(f);
    let h = half_up(g);
    Sides {
        a: tiles_across(n, tile),
        b: tiles_across(b, tile),
        c: tiles_across(c, tile),
        d: tiles_across(d, tile),
        e: tiles_across(e, tile),
        f: tiles_across(f, tile),
        g: tiles_across(g, tile),
        h: tiles_across(h, tile),
    }
}

/// A side after eight levels.
spec fn after_eight(n: nat) -> nat {
    half_up(half_up(half_up(half_up(half_up(half_up(half_up(half_up(n))))))))
}

/// A side that a tile covers takes one.
proof fn lemma_one_across(n: nat, tile: nat)
    requires
        0 < n <= tile,
    ensures
        tiles_across(n, tile) == 1,
{
    assert((n + tile - 1) / tile as int == 1) by (nonlinear_arith)
        requires
            0 < n <= tile,
    ;
}

/// A canvas that one tile covers has one tile on each level.
proof fn lemma_small_count(width: nat, height: nat, tile: nat, k: nat)
    requires
        0 < width <= height <= tile,
        height <= two_to(k) < 2 * height,
    ensures
        planned_count(width, height, tile) == k + 1,
    decreases k,
{
    lemma_one_across(width, tile);
    lemma_one_across(height, tile);
    lemma_step(width, height, tile, 1, 1);
    if k > 0 {
        lemma_two_to_grows(0, (k - 1) as nat);
        lemma_small_count(half_up(width), half_up(height), tile, (k - 1) as nat);
    } else {
        assert(two_to(0) == 1);
    }
}

/// One level of a canvas, and those below it.
proof fn lemma_step(width: nat, height: nat, tile: nat, cols: nat, rows: nat)
    requires
        tiles_across(width, tile) == cols,
        tiles_across(height, tile) == rows,
    ensures
        planned_count(width, height, tile) == cols * rows + (if width <= 1 && height <= 1 {
            0
        } else {
            planned_count(half_up(width), half_up(height), tile)
        }),
{
}

/// The tiles of eight levels of a canvas with these sides.
spec fn eight_levels(x: Sides, y: Sides) -> nat {
    x.a * y.a + x.b * y.b + x.c * y.c + x.d * y.d + x.e * y.e + x.f * y.f + x.g * y.g + x.h * y.h
}

/// The tiles of a canvas: those of its first eight levels, and one for each level
/// below.
#[verifier::spinoff_prover]
proof fn lemma_count(width: nat, height: nat, tile: nat, k: nat)
    requires
        256 < width <= height,
        after_eight(height) <= tile,
        after_eight(height) <= two_to(k) < 2 * after_eight(height),
    ensures
        planned_count(width, height, tile) == eight_levels(
            sides(width, tile),
            sides(height, tile),
        ) + k + 1,
{
    let (x, y) = (sides(width, tile), sides(height, tile));
    let (w1, h1) = (half_up(width), half_up(height));
    let (w2, h2) = (half_up(w1), half_up(h1));
    let (w3, h3) = (half_up(w2), half_up(h2));
    let (w4, h4) = (half_up(w3), half_up(h3));
    let (w5, h5) = (half_up(w4), half_up(h4));
    let (w6, h6) = (half_up(w5), half_up(h5));
    let (w7, h7) = (half_up(w6), half_up(h6));
    lemma_step(width, height, tile, x.a, y.a);
    lemma_step(w1, h1, tile, x.b, y.b);
    lemma_step(w2, h2, tile, x.c, y.c);
    lemma_step(w3, h3, tile, x.d, y.d);
    lemma_step(w4, h4, tile, x.e, y.e);
    lemma_step(w5, h5, tile, x.f, y.f);
    lemma_step(w6, h6, tile, x.g, y.g);
    lemma_step(w7, h7, tile, x.h, y.h);
    lemma_small_count(half_up(w7), half_up(h7), tile, k);
}

/// The sides of eight levels, from those of each.
spec fn sides_of(a: nat, b: nat, c: nat, d: nat, e: nat, f: nat, g: nat, h: nat) -> Sides {
    Sides { a, b, c, d, e, f, g, h }
}

/// The powers of two that the levels below the eighth end at.
proof fn lemma_small_powers()
    ensures
        two_to(3) == 8,
        two_to(4) == 16,
        two_to(5) == 32,
{
    reveal_with_fuel(two_to, 6);
}

/// The tiles of a canvas, from the sides of its eight levels: the columns of each,
/// then the rows.
proof fn lemma_counted(
    width: nat,
    height: nat,
    tile: nat,
    k: nat,
    x0: nat,
    x1: nat,
    x2: nat,
    x3: nat,
    x4: nat,
    x5: nat,
    x6: nat,
    x7: nat,
    y0: nat,
    y1: nat,
    y2: nat,
    y3: nat,
    y4: nat,
    y5: nat,
    y6: nat,
    y7: nat,
)
    requires
        256 < width <= height,
        after_eight(height) <= tile,
        after_eight(height) <= two_to(k) < 2 * after_eight(height),
        sides(width, tile) == sides_of(x0, x1, x2, x3, x4, x5, x6, x7),
        sides(height, tile) == sides_of(y0, y1, y2, y3, y4, y5, y6, y7),
    ensures
        planned_count(width, height, tile) == x0 * y0 + x1 * y1 + x2 * y2 + x3 * y3 + x4 * y4 + x5
            * y5 + x6 * y6 + x7 * y7 + k + 1,
{
    lemma_count(width, height, tile, k);
}

/// Where the canvases 2048 pixels wide jump over the brink.
#[verifier::spinoff_prover]
#[verifier::rlimit(60)]
proof fn lemma_jumps_2048()
    ensures
        jumps_at(2048, 2147, 19),
        jumps_at(2048, 2360, 20),
        jumps_at(2048, 2604, 21),
        jumps_at(2048, 2860, 22),
        jumps_at(2048, 3128, 23),
        jumps_at(2048, 3408, 24),
        jumps_at(2048, 3700, 25),
        jumps_at(2048, 4004, 26),
{
    lemma_small_powers();
    assert(jumps_at(2048, 2147, 19)) by {
        lemma_counted(2048, 2147, 19, 4, 108, 54, 27, 14, 7, 4, 2, 1, 113, 57, 29, 15, 8, 4, 2, 1);
        assert(planned_count(2048, 2147, 19) == 16357);
        lemma_counted(2048, 2148, 19, 4, 108, 54, 27, 14, 7, 4, 2, 1, 114, 57, 29, 15, 8, 4, 2, 1);
        assert(planned_count(2048, 2148, 19) == 16465);
    }
    assert(jumps_at(2048, 2360, 20)) by {
        lemma_counted(2048, 2360, 20, 4, 103, 52, 26, 13, 7, 4, 2, 1, 118, 59, 30, 15, 8, 4, 2, 1);
        assert(planned_count(2048, 2360, 20) == 16279);
        lemma_counted(2048, 2361, 20, 4, 103, 52, 26, 13, 7, 4, 2, 1, 119, 60, 30, 15, 8, 4, 2, 1);
        assert(planned_count(2048, 2361, 20) == 16434);
    }
    assert(jumps_at(2048, 2604, 21)) by {
        lemma_counted(2048, 2604, 21, 4, 98, 49, 25, 13, 7, 4, 2, 1, 124, 62, 31, 16, 8, 4, 2, 1);
        assert(planned_count(2048, 2604, 21) == 16255);
        lemma_counted(2048, 2605, 21, 4, 98, 49, 25, 13, 7, 4, 2, 1, 125, 63, 32, 16, 8, 4, 2, 1);
        assert(planned_count(2048, 2605, 21) == 16427);
    }
    assert(jumps_at(2048, 2860, 22)) by {
        lemma_counted(2048, 2860, 22, 4, 94, 47, 24, 12, 6, 3, 2, 1, 130, 65, 33, 17, 9, 5, 3, 2);
        assert(planned_count(2048, 2860, 22) == 16353);
        lemma_counted(2048, 2861, 22, 4, 94, 47, 24, 12, 6, 3, 2, 1, 131, 66, 33, 17, 9, 5, 3, 2);
        assert(planned_count(2048, 2861, 22) == 16494);
    }
    assert(jumps_at(2048, 3128, 23)) by {
        lemma_counted(2048, 3128, 23, 4, 90, 45, 23, 12, 6, 3, 2, 1, 136, 68, 34, 17, 9, 5, 3, 2);
        assert(planned_count(2048, 3128, 23) == 16368);
        lemma_counted(2048, 3129, 23, 4, 90, 45, 23, 12, 6, 3, 2, 1, 137, 69, 35, 18, 9, 5, 3, 2);
        assert(planned_count(2048, 3129, 23) == 16538);
    }
    assert(jumps_at(2048, 3408, 24)) by {
        lemma_counted(2048, 3408, 24, 4, 86, 43, 22, 11, 6, 3, 2, 1, 142, 71, 36, 18, 9, 5, 3, 2);
        assert(planned_count(2048, 3408, 24) == 16337);
        lemma_counted(2048, 3409, 24, 4, 86, 43, 22, 11, 6, 3, 2, 1, 143, 72, 36, 18, 9, 5, 3, 2);
        assert(planned_count(2048, 3409, 24) == 16466);
    }
    assert(jumps_at(2048, 3700, 25)) by {
        lemma_counted(2048, 3700, 25, 4, 82, 41, 21, 11, 6, 3, 2, 1, 148, 74, 37, 19, 10, 5, 3, 2);
        assert(planned_count(2048, 3700, 25) == 16244);
        lemma_counted(2048, 3701, 25, 4, 82, 41, 21, 11, 6, 3, 2, 1, 149, 75, 38, 19, 10, 5, 3, 2);
        assert(planned_count(2048, 3701, 25) == 16388);
    }
    assert(jumps_at(2048, 4004, 26)) by {
        lemma_counted(2048, 4004, 26, 4, 79, 40, 20, 10, 5, 3, 2, 1, 154, 77, 39, 20, 10, 5, 3, 2);
        assert(planned_count(2048, 4004, 26) == 16304);
        lemma_counted(2048, 4005, 26, 4, 79, 40, 20, 10, 5, 3, 2, 1, 155, 78, 39, 20, 10, 5, 3, 2);
        assert(planned_count(2048, 4005, 26) == 16423);
    }
}

/// Where the canvases 4096 pixels wide jump over the brink.
#[verifier::spinoff_prover]
#[verifier::rlimit(60)]
proof fn lemma_jumps_4096()
    ensures
        jumps_at(4096, 4294, 38),
        jumps_at(4096, 4485, 39),
        jumps_at(4096, 4720, 40),
        jumps_at(4096, 5002, 41),
        jumps_at(4096, 5208, 42),
        jumps_at(4096, 5461, 43),
        jumps_at(4096, 5720, 44),
        jumps_at(4096, 5940, 45),
        jumps_at(4096, 6533, 47),
        jumps_at(4096, 6816, 48),
        jumps_at(4096, 7105, 49),
        jumps_at(4096, 7400, 50),
        jumps_at(4096, 7650, 51),
        jumps_at(4096, 8008, 52),
{
    lemma_small_powers();
    assert(jumps_at(4096, 4294, 38)) by {
        lemma_counted(4096, 4294, 38, 5, 108, 54, 27, 14, 7, 4, 2, 1, 113, 57, 29, 15, 8, 4, 2, 1);
        assert(planned_count(4096, 4294, 38) == 16358);
        lemma_counted(4096, 4295, 38, 5, 108, 54, 27, 14, 7, 4, 2, 1, 114, 57, 29, 15, 8, 4, 2, 1);
        assert(planned_count(4096, 4295, 38) == 16466);
    }
    assert(jumps_at(4096, 4485, 39)) by {
        lemma_counted(4096, 4485, 39, 5, 106, 53, 27, 14, 7, 4, 2, 1, 115, 58, 29, 15, 8, 4, 2, 1);
        assert(planned_count(4096, 4485, 39) == 16340);
        lemma_counted(4096, 4486, 39, 5, 106, 53, 27, 14, 7, 4, 2, 1, 116, 58, 29, 15, 8, 4, 2, 1);
        assert(planned_count(4096, 4486, 39) == 16446);
    }
    assert(jumps_at(4096, 4720, 40)) by {
        lemma_counted(4096, 4720, 40, 5, 103, 52, 26, 13, 7, 4, 2, 1, 118, 59, 30, 15, 8, 4, 2, 1);
        assert(planned_count(4096, 4720, 40) == 16280);
        lemma_counted(4096, 4721, 40, 5, 103, 52, 26, 13, 7, 4, 2, 1, 119, 60, 30, 15, 8, 4, 2, 1);
        assert(planned_count(4096, 4721, 40) == 16435);
    }
    assert(jumps_at(4096, 5002, 41)) by {
        lemma_counted(4096, 5002, 41, 5, 100, 50, 25, 13, 7, 4, 2, 1, 122, 61, 31, 16, 8, 4, 2, 1);
        assert(planned_count(4096, 5002, 41) == 16316);
        lemma_counted(4096, 5003, 41, 5, 100, 50, 25, 13, 7, 4, 2, 1, 123, 62, 31, 16, 8, 4, 2, 1);
        assert(planned_count(4096, 5003, 41) == 16466);
    }
    assert(jumps_at(4096, 5208, 42)) by {
        lemma_counted(4096, 5208, 42, 5, 98, 49, 25, 13, 7, 4, 2, 1, 124, 62, 31, 16, 8, 4, 2, 1);
        assert(planned_count(4096, 5208, 42) == 16256);
        lemma_counted(4096, 5209, 42, 5, 98, 49, 25, 13, 7, 4, 2, 1, 125, 63, 32, 16, 8, 4, 2, 1);
        assert(planned_count(4096, 5209, 42) == 16428);
    }
    assert(jumps_at(4096, 5461, 43)) by {
        lemma_counted(4096, 5461, 43, 5, 96, 48, 24, 12, 6, 3, 2, 1, 127, 64, 32, 16, 8, 4, 2, 1);
        assert(planned_count(4096, 5461, 43) == 16295);
        lemma_counted(4096, 5462, 43, 5, 96, 48, 24, 12, 6, 3, 2, 1, 128, 64, 32, 16, 8, 4, 2, 1);
        assert(planned_count(4096, 5462, 43) == 16391);
    }
    assert(jumps_at(4096, 5720, 44)) by {
        lemma_counted(4096, 5720, 44, 5, 94, 47, 24, 12, 6, 3, 2, 1, 130, 65, 33, 17, 9, 5, 3, 2);
        assert(planned_count(4096, 5720, 44) == 16354);
        lemma_counted(4096, 5721, 44, 5, 94, 47, 24, 12, 6, 3, 2, 1, 131, 66, 33, 17, 9, 5, 3, 2);
        assert(planned_count(4096, 5721, 44) == 16495);
    }
    assert(jumps_at(4096, 5940, 45)) by {
        lemma_counted(4096, 5940, 45, 5, 92, 46, 23, 12, 6, 3, 2, 1, 132, 66, 33, 17, 9, 5, 3, 2);
        assert(planned_count(4096, 5940, 45) == 16226);
        lemma_counted(4096, 5941, 45, 5, 92, 46, 23, 12, 6, 3, 2, 1, 133, 67, 34, 17, 9, 5, 3, 2);
        assert(planned_count(4096, 5941, 45) == 16387);
    }
    assert(jumps_at(4096, 6533, 47)) by {
        lemma_counted(4096, 6533, 47, 5, 88, 44, 22, 11, 6, 3, 2, 1, 139, 70, 35, 18, 9, 5, 3, 2);
        assert(planned_count(4096, 6533, 47) == 16363);
        lemma_counted(4096, 6534, 47, 5, 88, 44, 22, 11, 6, 3, 2, 1, 140, 70, 35, 18, 9, 5, 3, 2);
        assert(planned_count(4096, 6534, 47) == 16451);
    }
    assert(jumps_at(4096, 6816, 48)) by {
        lemma_counted(4096, 6816, 48, 5, 86, 43, 22, 11, 6, 3, 2, 1, 142, 71, 36, 18, 9, 5, 3, 2);
        assert(planned_count(4096, 6816, 48) == 16338);
        lemma_counted(4096, 6817, 48, 5, 86, 43, 22, 11, 6, 3, 2, 1, 143, 72, 36, 18, 9, 5, 3, 2);
        assert(planned_count(4096, 6817, 48) == 16467);
    }
    assert(jumps_at(4096, 7105, 49)) by {
        lemma_counted(4096, 7105, 49, 5, 84, 42, 21, 11, 6, 3, 2, 1, 145, 73, 37, 19, 10, 5, 3, 2);
        assert(planned_count(4096, 7105, 49) == 16321);
        lemma_counted(4096, 7106, 49, 5, 84, 42, 21, 11, 6, 3, 2, 1, 146, 73, 37, 19, 10, 5, 3, 2);
        assert(planned_count(4096, 7106, 49) == 16405);
    }
    assert(jumps_at(4096, 7400, 50)) by {
        lemma_counted(4096, 7400, 50, 5, 82, 41, 21, 11, 6, 3, 2, 1, 148, 74, 37, 19, 10, 5, 3, 2);
        assert(planned_count(4096, 7400, 50) == 16245);
        lemma_counted(4096, 7401, 50, 5, 82, 41, 21, 11, 6, 3, 2, 1, 149, 75, 38, 19, 10, 5, 3, 2);
        assert(planned_count(4096, 7401, 50) == 16389);
    }
    assert(jumps_at(4096, 7650, 51)) by {
        lemma_counted(4096, 7650, 51, 5, 81, 41, 21, 11, 6, 3, 2, 1, 150, 75, 38, 19, 10, 5, 3, 2);
        assert(planned_count(4096, 7650, 51) == 16321);
        lemma_counted(4096, 7651, 51, 5, 81, 41, 21, 11, 6, 3, 2, 1, 151, 76, 38, 19, 10, 5, 3, 2);
        assert(planned_count(4096, 7651, 51) == 16443);
    }
    assert(jumps_at(4096, 8008, 52)) by {
        lemma_counted(4096, 8008, 52, 5, 79, 40, 20, 10, 5, 3, 2, 1, 154, 77, 39, 20, 10, 5, 3, 2);
        assert(planned_count(4096, 8008, 52) == 16305);
        lemma_counted(4096, 8009, 52, 5, 79, 40, 20, 10, 5, 3, 2, 1, 155, 78, 39, 20, 10, 5, 3, 2);
        assert(planned_count(4096, 8009, 52) == 16424);
    }
}

/// The counts at the ends of the search, and at the brink.
#[verifier::spinoff_prover]
#[verifier::rlimit(60)]
proof fn lemma_end_counts()
    ensures
        planned_count(1024, 2048, 16) == 10927,
        planned_count(2048, 2048, 18) == 17400,
        planned_count(2048, 4096, 27) == 15430,
        planned_count(4096, 4096, 37) == 16512,
        planned_count(4096, 8192, 53) == 16191,
        planned_count(4096, 6256, 46) == 16369,
        planned_count(4096, 6257, 46) == 16539,
{
    lemma_small_powers();
    lemma_counted(1024, 2048, 16, 3, 64, 32, 16, 8, 4, 2, 1, 1, 128, 64, 32, 16, 8, 4, 2, 1);
    lemma_counted(2048, 2048, 18, 3, 114, 57, 29, 15, 8, 4, 2, 1, 114, 57, 29, 15, 8, 4, 2, 1);
    lemma_counted(2048, 4096, 27, 4, 76, 38, 19, 10, 5, 3, 2, 1, 152, 76, 38, 19, 10, 5, 3, 2);
    lemma_counted(4096, 4096, 37, 4, 111, 56, 28, 14, 7, 4, 2, 1, 111, 56, 28, 14, 7, 4, 2, 1);
    lemma_counted(4096, 8192, 53, 5, 78, 39, 20, 10, 5, 3, 2, 1, 155, 78, 39, 20, 10, 5, 3, 2);
    lemma_counted(4096, 6256, 46, 5, 90, 45, 23, 12, 6, 3, 2, 1, 136, 68, 34, 17, 9, 5, 3, 2);
    lemma_counted(4096, 6257, 46, 5, 90, 45, 23, 12, 6, 3, 2, 1, 137, 69, 35, 18, 9, 5, 3, 2);
}

/// A canvas on either side of a jump fits and plans as many tiles as the brink
/// nowhere.
proof fn lemma_jumped(width: nat, at: nat, height: nat, tile: nat)
    requires
        tile > 0,
        jumps_at(width, at, tile),
        planned_count(width, height, tile) <= LARGEST_FLAT_ROOT,
    ensures
        planned_count(width, height, tile) < BRINK_TILES,
{
    if height <= at {
        law_count_never_falls(width, height, width, at, tile);
    } else {
        law_count_never_falls(width, at + 1, width, height, tile);
    }
}

/// No canvas 2048 pixels wide that fits plans as many tiles as the brink.
proof fn lemma_width_2048(height: nat, tile: nat)
    requires
        2048 <= height <= 4096,
        16 <= tile,
        planned_count(2048, height, tile) <= LARGEST_FLAT_ROOT,
    ensures
        planned_count(2048, height, tile) < BRINK_TILES,
{
    lemma_end_counts();
    lemma_jumps_2048();
    if tile <= 18 {
        law_count_never_rises_with_the_tile(2048, 2048, tile, 18);
        law_count_never_falls(2048, 2048, 2048, height, tile);
    } else if tile >= 27 {
        law_count_never_rises_with_the_tile(2048, 4096, 27, tile);
        law_count_never_falls(2048, height, 2048, 4096, tile);
    } else {
        let at: nat = if tile == 19 {
            2147
        } else if tile == 20 {
            2360
        } else if tile == 21 {
            2604
        } else if tile == 22 {
            2860
        } else if tile == 23 {
            3128
        } else if tile == 24 {
            3408
        } else if tile == 25 {
            3700
        } else {
            4004
        };
        lemma_jumped(2048, at, height, tile);
    }
}

/// No canvas 4096 pixels wide that fits plans as many tiles as the brink,
/// but those of its own tile size.
proof fn lemma_width_4096(height: nat, tile: nat)
    requires
        4096 <= height <= 8192,
        16 <= tile,
        tile != 46,
        planned_count(4096, height, tile) <= LARGEST_FLAT_ROOT,
    ensures
        planned_count(4096, height, tile) < BRINK_TILES,
{
    lemma_end_counts();
    lemma_jumps_4096();
    if tile <= 37 {
        law_count_never_rises_with_the_tile(4096, 4096, tile, 37);
        law_count_never_falls(4096, 4096, 4096, height, tile);
    } else if tile >= 53 {
        law_count_never_rises_with_the_tile(4096, 8192, 53, tile);
        law_count_never_falls(4096, height, 4096, 8192, tile);
    } else {
        let at: nat = if tile == 38 {
            4294
        } else if tile == 39 {
            4485
        } else if tile == 40 {
            4720
        } else if tile == 41 {
            5002
        } else if tile == 42 {
            5208
        } else if tile == 43 {
            5461
        } else if tile == 44 {
            5720
        } else if tile == 45 {
            5940
        } else if tile == 47 {
            6533
        } else if tile == 48 {
            6816
        } else if tile == 49 {
            7105
        } else if tile == 50 {
            7400
        } else if tile == 51 {
            7650
        } else {
            8008
        };
        lemma_jumped(4096, at, height, tile);
    }
}

/// The search ends at one canvas: whatever is the best of all that are searched
/// is the brink.
pub proof fn law_search_ends_at_the_brink(found: Brink)
    requires
        is_best_before(found, 257, 0),
    ensures
        found == brink(),
{
    lemma_end_counts();
    let (w, h, t) = (found.width as nat, found.height as nat, found.tile as nat);
    assert(in_space(4096, 6256, 46) && fits(4096, 6256, 46));
    assert(planned_count(w, h, t) >= BRINK_TILES);
    assert(in_space(w as int, h as int, t as int));
    if w == 2048 {
        lemma_width_2048(h, t);
    } else if w != 4096 {
        law_count_never_falls(w, h, 1024, 2048, t);
        law_count_never_rises_with_the_tile(1024, 2048, 16, t);
    } else if t != 46 {
        lemma_width_4096(h, t);
    }
    assert(w == 4096 && t == 46);
    if h > 6256 {
        law_count_never_falls(4096, 6257, 4096, h, 46);
    }
    if h < 6256 {
        law_count_never_falls(4096, h + 1, 4096, 6256, 46);
        assert(fits(4096, h as int + 1, 46));
    }
}

/// No canvas of the search plans more tiles than the one at its end and still fits a
/// flat root of 16383 entries: not one as wide as 256, 512, 1024, 2048 or 4096 pixels,
/// from as high as it is wide to twice that, with a tile of 16 to 256 pixels; and of
/// those that plan as many, none has a smaller tile.
pub proof fn law_no_canvas_plans_more(found: Brink, width: int, height: int, tile: int)
    requires
        is_best_before(found, 257, 0),
        width == 256 || width == 512 || width == 1024 || width == 2048 || width == 4096,
        width <= height <= 2 * width,
        16 <= tile <= 256,
        planned_count(width as nat, height as nat, tile as nat) <= 16_383,
    ensures
        planned_count(width as nat, height as nat, tile as nat) <= found.tiles,
        tile < found.tile ==> planned_count(width as nat, height as nat, tile as nat) < found.tiles,
        found.tiles <= 16_383,
        found.tiles == planned_count(found.width as nat, found.height as nat, found.tile as nat),
{
    assert(in_space(width, height, tile) && fits(width, height, tile));
}

} // verus!
