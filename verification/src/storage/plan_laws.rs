//! The tiles of a plan: no tile twice, and every one with an id.

use crate::storage::plan::{
    coords_of, half_up, lemma_tiles_across, planned_levels, row_coords, rows_coords, LevelPlan,
    TileCoord,
};
use crate::storage::tile_id::{is_addressable, lemma_two_to, two_to};
use vstd::prelude::*;

verus! {

/// Whether the levels are numbered by their places.
spec fn are_numbered(levels: Seq<LevelPlan>) -> bool {
    forall|k: int| 0 <= k < levels.len() ==> (#[trigger] levels[k]).level == k
}

/// Whether a tile lies on the grid of a level.
spec fn lies_on(c: TileCoord, l: LevelPlan) -> bool {
    c.level == l.level && c.col < l.cols && c.row < l.rows
}

/// The tiles of the first rows of a level lie on it, above the next row, each
/// once.
proof fn lemma_rows_tiles(l: LevelPlan, n: int)
    requires
        0 <= n <= l.rows,
    ensures
        forall|i: int|
            0 <= i < rows_coords(l, n).len() ==> lies_on(#[trigger] rows_coords(l, n)[i], l)
                && rows_coords(l, n)[i].row < n,
        rows_coords(l, n).no_duplicates(),
    decreases n,
{
    if n > 0 {
        lemma_rows_tiles(l, n - 1);
        let above = rows_coords(l, n - 1);
        let row = row_coords(l, n - 1);
        let all = rows_coords(l, n);
        assert forall|i: int| 0 <= i < all.len() implies lies_on(#[trigger] all[i], l)
            && all[i].row < n by {
            if i < above.len() {
                assert(all[i] == above[i]);
            } else {
                assert(all[i] == row[i - above.len()]);
            }
        }
        assert forall|i: int, j: int|
            0 <= i < all.len() && 0 <= j < all.len() && i != j implies all[i] != all[j] by {
            if i < above.len() && j < above.len() {
                assert(all[i] == above[i] && all[j] == above[j]);
            } else if i >= above.len() && j >= above.len() {
                assert(all[i] == row[i - above.len()] && all[j] == row[j - above.len()]);
            } else if i < above.len() {
                assert(all[i] == above[i] && all[j] == row[j - above.len()]);
            } else {
                assert(all[i] == row[i - above.len()] && all[j] == above[j]);
            }
        }
    }
}

/// The tiles of numbered levels lie on them, each once.
proof fn lemma_coords_tiles(levels: Seq<LevelPlan>)
    requires
        are_numbered(levels),
    ensures
        forall|i: int|
            0 <= i < coords_of(levels).len() ==> (#[trigger] coords_of(levels)[i]).level
                < levels.len() && lies_on(
                coords_of(levels)[i],
                levels[coords_of(levels)[i].level as int],
            ),
        coords_of(levels).no_duplicates(),
    decreases levels.len(),
{
    if levels.len() > 0 {
        let front = levels.drop_last();
        let last = levels.last();
        assert forall|k: int| 0 <= k < front.len() implies (#[trigger] front[k]).level == k by {
            assert(front[k] == levels[k]);
        }
        lemma_coords_tiles(front);
        lemma_rows_tiles(last, last.rows as int);
        assert(levels[levels.len() - 1].level == levels.len() - 1);
        let below = coords_of(front);
        let top = rows_coords(last, last.rows as int);
        let all = coords_of(levels);
        assert forall|i: int| 0 <= i < all.len() implies (#[trigger] all[i]).level < levels.len()
            && lies_on(all[i], levels[all[i].level as int]) by {
            if i < below.len() {
                assert(all[i] == below[i]);
            } else {
                assert(all[i] == top[i - below.len()]);
            }
        }
        assert forall|i: int, j: int|
            0 <= i < all.len() && 0 <= j < all.len() && i != j implies all[i] != all[j] by {
            if i < below.len() && j < below.len() {
                assert(all[i] == below[i] && all[j] == below[j]);
            } else if i >= below.len() && j >= below.len() {
                assert(all[i] == top[i - below.len()] && all[j] == top[j - below.len()]);
            } else if i < below.len() {
                assert(all[i] == below[i] && all[j] == top[j - below.len()]);
            } else {
                assert(all[i] == top[i - below.len()] && all[j] == below[j]);
            }
        }
    }
}

/// The levels of a canvas are numbered by their places, are as many as it takes
/// to halve it down to a pixel, and none is wider or higher than two to the power
/// of its number.
proof fn lemma_levels_numbered(width: nat, height: nat, tile: nat, bits: nat)
    requires
        tile > 0,
        width <= two_to(bits),
        height <= two_to(bits),
        bits <= 32,
    ensures
        are_numbered(planned_levels(width, height, tile)),
        planned_levels(width, height, tile).len() <= bits + 1,
        width <= two_to((planned_levels(width, height, tile).len() - 1) as nat),
        height <= two_to((planned_levels(width, height, tile).len() - 1) as nat),
        forall|k: int|
            0 <= k < planned_levels(width, height, tile).len() ==> {
                let l = #[trigger] planned_levels(width, height, tile)[k];
                k <= 31 ==> l.cols <= two_to(k as nat) && l.rows <= two_to(k as nat)
            },
    decreases width + height,
{
    let levels = planned_levels(width, height, tile);
    lemma_two_to(bits);
    lemma_tiles_across(width, tile);
    lemma_tiles_across(height, tile);
    if width <= 1 && height <= 1 {
        assert(two_to(0) == 1);
        assert(levels.len() == 1);
    } else {
        assert(bits > 0) by {
            if bits == 0 {
                assert(two_to(0) == 1);
            }
        }
        let below = planned_levels(half_up(width), half_up(height), tile);
        lemma_levels_numbered(half_up(width), half_up(height), tile, (bits - 1) as nat);
        let n = below.len();
        assert(two_to(n) == 2 * two_to((n - 1) as nat));
        assert forall|k: int| 0 <= k < levels.len() implies (#[trigger] levels[k]).level == k by {
            if k < n {
                assert(levels[k] == below[k]);
            }
        }
        assert forall|k: int| 0 <= k < levels.len() implies {
            let l = #[trigger] levels[k];
            k <= 31 ==> l.cols <= two_to(k as nat) && l.rows <= two_to(k as nat)
        } by {
            if k < n {
                assert(levels[k] == below[k]);
            } else if k <= 31 {
                lemma_two_to(k as nat);
            }
        }
    }
}

/// A plan covers no tile twice.
pub proof fn law_plan_covers_each_tile_once(width: u32, height: u32, tile: u32)
    requires
        tile > 0,
    ensures
        coords_of(planned_levels(width as nat, height as nat, tile as nat)).no_duplicates(),
{
    assert(two_to(32) == 0x1_0000_0000) by {
        reveal_with_fuel(two_to, 33);
    }
    lemma_levels_numbered(width as nat, height as nat, tile as nat, 32);
    lemma_coords_tiles(planned_levels(width as nat, height as nat, tile as nat));
}

/// Every tile of a plan has an id, on a canvas of up to two to the power 31
/// pixels a side.
pub proof fn law_planned_tiles_are_addressable(width: u32, height: u32, tile: u32, i: int)
    requires
        tile > 0,
        width <= 0x8000_0000,
        height <= 0x8000_0000,
        0 <= i < coords_of(planned_levels(width as nat, height as nat, tile as nat)).len(),
    ensures
        is_addressable(coords_of(planned_levels(width as nat, height as nat, tile as nat))[i]),
{
    assert(two_to(31) == 0x8000_0000) by {
        reveal_with_fuel(two_to, 32);
    }
    let levels = planned_levels(width as nat, height as nat, tile as nat);
    lemma_levels_numbered(width as nat, height as nat, tile as nat, 31);
    lemma_coords_tiles(levels);
    let c = coords_of(levels)[i];
    let l = levels[c.level as int];
    assert(l.cols <= two_to(c.level as nat) && l.rows <= two_to(c.level as nat));
}

} // verus!
