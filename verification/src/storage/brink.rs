//! The search for the canvas whose root stops just under the writer's cutoff.
//!
//! Tile sizes from 16 pixels to 256, widths of 256 to 4096 by doubling, heights
//! from the width to twice that. Heights come from a binary search, which is
//! sound because a plan's tile count never falls as the canvas grows.

use crate::storage::plan::{
    half_up, has_plan, law_count_never_falls, planned_count, planned_tiles, tiles_across,
};
use vstd::prelude::*;

verus! {

/// The number of entries from which on the writer spills into leaves. It
/// compares strictly, so this many entries already do.
pub const ROOT_ONLY_MAX_ENTRIES: u64 = 16_384;

/// The largest flat root the writer will actually emit, which is one less.
pub const LARGEST_FLAT_ROOT: u64 = 16_383;

/// A canvas and its tile size, and how many tiles it plans.
#[derive(Debug, Clone, Copy, PartialEq, Eq, Structural)]
pub struct Brink {
    pub width: u32,
    pub height: u32,
    pub tile: u32,
    pub tiles: u64,
}

/// Whether every tile of a canvas has its entry in a flat root.
pub open spec fn fits(width: int, height: int, tile: int) -> bool {
    planned_count(width as nat, height as nat, tile as nat) <= LARGEST_FLAT_ROOT
}

/// The widths that are searched.
pub open spec fn is_width(width: int) -> bool {
    width == 256 || width == 512 || width == 1024 || width == 2048 || width == 4096
}

/// The canvases that are searched.
pub open spec fn in_space(width: int, height: int, tile: int) -> bool {
    16 <= tile <= 256 && is_width(width) && width <= height <= 2 * width
}

/// Whether one tile size and width come before another in the search.
pub open spec fn comes_before(tile: int, width: int, other_tile: int, other_width: int) -> bool {
    tile < other_tile || (tile == other_tile && width < other_width)
}

/// Whether `found` is the best of the canvases that come before a tile size and
/// a width: it fits, no canvas there that fits plans more tiles, those of an
/// earlier tile size or width plan fewer, and a higher canvas of its own does
/// not fit.
pub open spec fn is_best_before(found: Brink, tile: int, width: int) -> bool {
    &&& in_space(found.width as int, found.height as int, found.tile as int)
    &&& comes_before(found.tile as int, found.width as int, tile, width)
    &&& fits(found.width as int, found.height as int, found.tile as int)
    &&& found.tiles == planned_count(found.width as nat, found.height as nat, found.tile as nat)
    &&& found.height < 2 * found.width ==> !fits(
        found.width as int,
        found.height + 1,
        found.tile as int,
    )
    &&& forall|w: int, h: int, t: int|
        #[trigger] in_space(w, h, t) && fits(w, h, t) && comes_before(t, w, tile, width)
            ==> planned_count(w as nat, h as nat, t as nat) <= found.tiles && (comes_before(
            t,
            w,
            found.tile as int,
            found.width as int,
        ) ==> planned_count(w as nat, h as nat, t as nat) < found.tiles)
}

/// Whether a canvas that plans fits a flat root.
fn canvas_fits(width: u32, height: u32, tile: u32) -> (yes: bool)
    requires
        has_plan(width, height, tile),
    ensures
        yes == fits(width as int, height as int, tile as int),
{
    match planned_tiles(width, height, tile) {
        Some(n) => n as u64 <= LARGEST_FLAT_ROOT,
        None => false,
    }
}

/// The highest canvas of a width that fits, where the lowest does.
fn tallest(width: u32, tile: u32) -> (height: u32)
    requires
        256 <= width <= 4096,
        tile > 0,
        fits(width as int, width as int, tile as int),
    ensures
        width <= height <= 2 * width,
        fits(width as int, height as int, tile as int),
        forall|h: int|
            height < h <= 2 * width ==> !#[trigger] fits(width as int, h, tile as int),
{
    let mut low: u32 = width;
    let mut high: u32 = 2 * width;
    while low < high
        invariant
            width <= low <= high <= 2 * width,
            256 <= width <= 4096,
            tile > 0,
            fits(width as int, low as int, tile as int),
            forall|h: int|
                high < h <= 2 * width ==> !#[trigger] fits(width as int, h, tile as int),
        decreases high - low,
    {
        let mid: u32 = low + (high - low + 1) / 2;
        if canvas_fits(width, mid, tile) {
            low = mid;
        } else {
            assert forall|h: int| mid - 1 < h <= 2 * width implies !#[trigger] fits(
                width as int,
                h,
                tile as int,
            ) by {
                if h >= mid {
                    law_count_never_falls(
                        width as nat,
                        mid as nat,
                        width as nat,
                        h as nat,
                        tile as nat,
                    );
                }
            }
            high = mid - 1;
        }
    }
    low
}

/// The first canvas of the search fits.
proof fn lemma_first_fits()
    ensures
        fits(256, 256, 16),
{
    lemma_square_count(1, 16, 1, 0);
    lemma_square_count(2, 16, 1, 1);
    lemma_square_count(4, 16, 1, 2);
    lemma_square_count(8, 16, 1, 3);
    lemma_square_count(16, 16, 1, 4);
    lemma_square_count(32, 16, 2, 5);
    lemma_square_count(64, 16, 4, 9);
    lemma_square_count(128, 16, 8, 25);
    lemma_square_count(256, 16, 16, 89);
}

/// The tiles of a square canvas, from those across it and those of its half.
pub proof fn lemma_square_count(side: nat, tile: nat, across: nat, below: nat)
    requires
        side > 0,
        tiles_across(side, tile) == across,
        side > 1 ==> planned_count(half_up(side), half_up(side), tile) == below,
        side == 1 ==> below == 0,
    ensures
        planned_count(side, side, tile) == across * across + below,
{
}

/// What one width adds to what was found before it.
proof fn lemma_one_more_width(
    best: Option<Brink>,
    next: Option<Brink>,
    tile: int,
    width: int,
    limit_tile: int,
    limit_width: int,
)
    requires
        16 <= tile <= 256,
        is_width(width),
        best is Some ==> is_best_before(best->0, tile, width),
        best is None ==> forall|w: int, h: int, t: int|
            #[trigger] in_space(w, h, t) && comes_before(t, w, tile, width) ==> !fits(w, h, t),
        next is None ==> forall|h: int|
            width <= h <= 2 * width ==> !#[trigger] fits(width, h, tile),
        next is Some ==> {
            &&& next->0.width == width
            &&& next->0.tile == tile
            &&& in_space(width, next->0.height as int, tile)
            &&& fits(width, next->0.height as int, tile)
            &&& next->0.tiles == planned_count(width as nat, next->0.height as nat, tile as nat)
            &&& forall|h: int|
                next->0.height < h <= 2 * width ==> !#[trigger] fits(width, h, tile)
        },
        forall|w: int, t: int|
            is_width(w) ==> (#[trigger] comes_before(t, w, limit_tile, limit_width)
                <==> comes_before(t, w, tile, width) || (t == tile && w == width)),
    ensures
        (match (best, next) {
            (None, None) => true,
            (Some(b), None) => is_best_before(b, limit_tile, limit_width),
            (None, Some(n)) => is_best_before(n, limit_tile, limit_width),
            (Some(b), Some(n)) => is_best_before(
                if n.tiles > b.tiles {
                    n
                } else {
                    b
                },
                limit_tile,
                limit_width,
            ),
        }),
        best is None && next is None ==> forall|w: int, h: int, t: int|
            #[trigger] in_space(w, h, t) && comes_before(t, w, limit_tile, limit_width) ==> !fits(
                w,
                h,
                t,
            ),
{
    let pick = match (best, next) {
        (None, None) => None,
        (Some(b), None) => Some(b),
        (None, Some(n)) => Some(n),
        (Some(b), Some(n)) => Some(
            if n.tiles > b.tiles {
                n
            } else {
                b
            },
        ),
    };
    if pick is Some {
        let found = pick->0;
        assert(comes_before(found.tile as int, found.width as int, limit_tile, limit_width));
        if found.height < 2 * found.width && next is Some && found == next->0 {
            assert(!fits(width, found.height + 1, tile));
        }
        assert forall|w: int, h: int, t: int|
            #[trigger] in_space(w, h, t) && fits(w, h, t) && comes_before(
                t,
                w,
                limit_tile,
                limit_width,
            ) implies planned_count(w as nat, h as nat, t as nat) <= found.tiles && (comes_before(
            t,
            w,
            found.tile as int,
            found.width as int,
        ) ==> planned_count(w as nat, h as nat, t as nat) < found.tiles) by {
            if t == tile && w == width {
                assert(next is Some);
                let n = next->0;
                assert(h <= n.height);
                law_count_never_falls(w as nat, h as nat, w as nat, n.height as nat, t as nat);
            }
        }
    }
}

/// The canvas of the search that plans the most tiles a flat root holds, the
/// first of those that plan as many.
pub fn search() -> (found: Brink)
    ensures
        is_best_before(found, 257, 0),
{
    let mut best: Option<Brink> = None;
    let mut tile: u32 = 16;
    while tile <= 256
        invariant
            16 <= tile <= 257,
            tile > 16 ==> best is Some,
            best is Some ==> is_best_before(best->0, tile as int, 0),
            best is None ==> forall|w: int, h: int, t: int|
                #[trigger] in_space(w, h, t) && comes_before(t, w, tile as int, 0) ==> !fits(
                    w,
                    h,
                    t,
                ),
        decreases 257 - tile,
    {
        let mut width: u32 = 256;
        proof {
            if best is Some {
                assert(is_best_before(best->0, tile as int, 256));
            }
        }
        while width <= 4096
            invariant
                16 <= tile <= 256,
                is_width(width as int) || width == 8192,
                tile > 16 || width > 256 ==> best is Some,
                best is Some ==> is_best_before(best->0, tile as int, width as int),
                best is None ==> forall|w: int, h: int, t: int|
                    #[trigger] in_space(w, h, t) && comes_before(t, w, tile as int, width as int)
                        ==> !fits(w, h, t),
            decreases 8192 - width,
        {
            let mut next: Option<Brink> = None;
            if canvas_fits(width, width, tile) {
                let height: u32 = tallest(width, tile);
                match planned_tiles(width, height, tile) {
                    Some(n) => {
                        next = Some(Brink { width, height, tile, tiles: n as u64 });
                    },
                    None => {},
                }
            } else {
                proof {
                    lemma_first_fits();
                    assert forall|h: int| width <= h <= 2 * width implies !#[trigger] fits(
                        width as int,
                        h,
                        tile as int,
                    ) by {
                        law_count_never_falls(
                            width as nat,
                            width as nat,
                            width as nat,
                            h as nat,
                            tile as nat,
                        );
                    }
                }
            }
            proof {
                lemma_one_more_width(
                    best,
                    next,
                    tile as int,
                    width as int,
                    tile as int,
                    2 * width,
                );
            }
            match (best, next) {
                (Some(b), Some(n)) => {
                    if n.tiles > b.tiles {
                        best = Some(n);
                    }
                },
                (None, Some(n)) => {
                    best = Some(n);
                },
                _ => {},
            }
            width = 2 * width;
        }
        proof {
            assert(is_best_before(best->0, tile + 1, 0));
        }
        tile = tile + 1;
    }
    match best {
        Some(found) => found,
        None => Brink { width: 0, height: 0, tile: 0, tiles: 0 },
    }
}

} // verus!
