//! A pyramid plan: the levels of a canvas, and the tiles that cover them.
//!
//! The plan itself is the tiling library's. What a sweep reads of it is held
//! here as plain numbers.

use vstd::arithmetic::div_mod::lemma_div_is_ordered;
use vstd::prelude::*;

verus! {

/// One level of a pyramid: its size in pixels and its grid of tiles.
#[derive(Debug, Clone, Copy, PartialEq, Eq, Structural)]
pub struct LevelPlan {
    /// Level index, 0 being the smallest.
    pub level: u32,
    /// Pixel width at this level.
    pub width: u32,
    /// Pixel height at this level.
    pub height: u32,
    /// Number of tile columns.
    pub cols: u32,
    /// Number of tile rows.
    pub rows: u32,
}

/// The levels of a pyramid, from the smallest to the full canvas.
#[derive(Debug, Clone, PartialEq, Eq)]
pub struct PyramidPlan {
    pub levels: Vec<LevelPlan>,
}

/// The address of one tile.
#[derive(Debug, Clone, Copy, PartialEq, Eq, Structural)]
pub struct TileCoord {
    pub level: u32,
    pub col: u32,
    pub row: u32,
}

/// Half of `n`, rounded up.
pub open spec fn half_up(n: nat) -> nat {
    (n + 1) / 2
}

/// How many tiles of `tile` pixels it takes to cover `n` pixels.
pub open spec fn tiles_across(n: nat, tile: nat) -> nat {
    ((n + tile - 1) / tile as int) as nat
}

/// The level of a canvas of `width` by `height` pixels.
pub open spec fn level_plan(level: nat, width: nat, height: nat, tile: nat) -> LevelPlan {
    LevelPlan {
        level: level as u32,
        width: width as u32,
        height: height as u32,
        cols: tiles_across(width, tile) as u32,
        rows: tiles_across(height, tile) as u32,
    }
}

/// The levels of a canvas: each is half the next, rounded up, down to one pixel.
pub open spec fn planned_levels(width: nat, height: nat, tile: nat) -> Seq<LevelPlan>
    decreases width + height,
{
    if width <= 1 && height <= 1 {
        seq![level_plan(0, width, height, tile)]
    } else {
        let below = planned_levels(half_up(width), half_up(height), tile);
        below.push(level_plan(below.len(), width, height, tile))
    }
}

/// How many tiles the levels of a canvas hold.
pub open spec fn planned_count(width: nat, height: nat, tile: nat) -> nat
    decreases width + height,
{
    tiles_across(width, tile) * tiles_across(height, tile) + (if width <= 1 && height <= 1 {
        0
    } else {
        planned_count(half_up(width), half_up(height), tile)
    })
}

/// Whether a canvas and a tile size have a plan.
pub open spec fn has_plan(width: u32, height: u32, tile: u32) -> bool {
    width > 0 && height > 0 && tile > 0
}

/// `libviprs::planner::PyramidPlanner::new` with no overlap and the `Xyz`
/// layout, and `plan` on it. It refuses a width, a height or a tile size of
/// zero and nothing else. The levels are the canvas halved, rounding up, until
/// one pixel is left, numbered from there; each has as many columns and rows as
/// it takes tiles to cover it.
#[verifier::external_body]
fn plan_levels(width: u32, height: u32, tile: u32) -> (levels: Option<Vec<LevelPlan>>)
    ensures
        levels is Some <==> has_plan(width, height, tile),
        levels is Some ==> levels->0@ == planned_levels(
            width as nat,
            height as nat,
            tile as nat,
        ),
{
    libviprs::planner::PyramidPlanner::new(width, height, tile, 0, libviprs::planner::Layout::Xyz)
        .ok()
        .map(|planner| planner.plan().levels.iter().map(|l| LevelPlan {
            level: l.level,
            width: l.width,
            height: l.height,
            cols: l.cols,
            rows: l.rows,
        }).collect())
}

/// The plan of a canvas, where it has one.
pub fn plan(width: u32, height: u32, tile: u32) -> (plan: Option<PyramidPlan>)
    ensures
        plan is Some <==> has_plan(width, height, tile),
        plan is Some ==> plan->0.levels@ == planned_levels(
            width as nat,
            height as nat,
            tile as nat,
        ),
{
    match plan_levels(width, height, tile) {
        Some(levels) => Some(PyramidPlan { levels }),
        None => None,
    }
}

/// One row of tiles, from left to right.
pub open spec fn row_coords(l: LevelPlan, row: int) -> Seq<TileCoord> {
    Seq::new(
        l.cols as nat,
        |col: int| TileCoord { level: l.level, col: col as u32, row: row as u32 },
    )
}

/// The first `n` rows of a level, from top to bottom.
pub open spec fn rows_coords(l: LevelPlan, n: int) -> Seq<TileCoord>
    decreases n,
{
    if n <= 0 {
        Seq::empty()
    } else {
        rows_coords(l, n - 1) + row_coords(l, n - 1)
    }
}

/// Every tile of the levels, in level then row then column order.
pub open spec fn coords_of(levels: Seq<LevelPlan>) -> Seq<TileCoord>
    decreases levels.len(),
{
    if levels.len() == 0 {
        Seq::empty()
    } else {
        coords_of(levels.drop_last()) + rows_coords(levels.last(), levels.last().rows as int)
    }
}

/// How many tiles the levels hold.
pub open spec fn count_of_levels(levels: Seq<LevelPlan>) -> nat
    decreases levels.len(),
{
    if levels.len() == 0 {
        0
    } else {
        count_of_levels(levels.drop_last()) + levels.last().cols as nat * levels.last().rows as nat
    }
}

/// Every coordinate a plan covers, in level then row then column order.
pub fn coordinates(plan: &PyramidPlan) -> (out: Vec<TileCoord>)
    ensures
        out@ == coords_of(plan.levels@),
{
    let mut out: Vec<TileCoord> = Vec::new();
    let mut i: usize = 0;
    assert(plan.levels@.take(0) =~= Seq::<LevelPlan>::empty());
    while i < plan.levels.len()
        invariant
            i <= plan.levels@.len(),
            out@ == coords_of(plan.levels@.take(i as int)),
        decreases plan.levels@.len() - i,
    {
        let level: LevelPlan = plan.levels[i];
        let ghost before = out@;
        let mut row: u32 = 0;
        assert(out@ =~= before + rows_coords(level, 0));
        while row < level.rows
            invariant
                row <= level.rows,
                out@ == before + rows_coords(level, row as int),
            decreases level.rows - row,
        {
            let ghost above = out@;
            let mut col: u32 = 0;
            assert(out@ =~= above + row_coords(level, row as int).take(0));
            while col < level.cols
                invariant
                    col <= level.cols,
                    out@ == above + row_coords(level, row as int).take(col as int),
                decreases level.cols - col,
            {
                out.push(TileCoord { level: level.level, col, row });
                col = col + 1;
                assert(out@ =~= above + row_coords(level, row as int).take(col as int));
            }
            assert(row_coords(level, row as int).take(col as int) =~= row_coords(
                level,
                row as int,
            ));
            row = row + 1;
            assert(out@ =~= before + rows_coords(level, row as int));
        }
        assert(plan.levels@.take(i + 1).drop_last() =~= plan.levels@.take(i as int));
        assert(plan.levels@.take(i + 1).last() == level);
        i = i + 1;
    }
    assert(plan.levels@.take(i as int) =~= plan.levels@);
    out
}

/// The rows of a level hold their columns each.
proof fn lemma_rows_len(l: LevelPlan, n: int)
    requires
        0 <= n,
    ensures
        rows_coords(l, n).len() == l.cols as nat * n,
    decreases n,
{
    if n > 0 {
        lemma_rows_len(l, n - 1);
        assert(l.cols as nat * n == l.cols as nat * (n - 1) + l.cols as nat) by (nonlinear_arith);
    } else {
        assert(l.cols as nat * n == 0) by (nonlinear_arith)
            requires
                n == 0,
        ;
    }
}

/// The coordinates of the levels are as many as their tiles.
pub proof fn lemma_coords_len(levels: Seq<LevelPlan>)
    ensures
        coords_of(levels).len() == count_of_levels(levels),
    decreases levels.len(),
{
    if levels.len() > 0 {
        lemma_coords_len(levels.drop_last());
        lemma_rows_len(levels.last(), levels.last().rows as int);
    }
}

/// No more tiles than pixels, and at least one.
pub proof fn lemma_tiles_across(n: nat, tile: nat)
    requires
        tile > 0,
    ensures
        tiles_across(n, tile) <= n,
        n > 0 ==> tiles_across(n, tile) > 0,
{
    let q = (n + tile - 1) / tile as int;
    assert(tile * q <= n + tile - 1 < tile * q + tile) by (nonlinear_arith)
        requires
            tile > 0,
            q == (n + tile - 1) / tile as int,
    ;
    assert(q <= n) by (nonlinear_arith)
        requires
            tile * q <= n + tile - 1,
            tile > 0,
    ;
    assert(q >= 0 && (n > 0 ==> q > 0)) by (nonlinear_arith)
        requires
            n + tile - 1 < tile * q + tile,
            tile > 0,
    ;
}

/// The levels of a plan hold as many tiles as its canvas needs.
pub proof fn lemma_levels_count(width: nat, height: nat, tile: nat)
    requires
        tile > 0,
        width <= u32::MAX,
        height <= u32::MAX,
    ensures
        count_of_levels(planned_levels(width, height, tile)) == planned_count(width, height, tile),
    decreases width + height,
{
    let levels = planned_levels(width, height, tile);
    lemma_tiles_across(width, tile);
    lemma_tiles_across(height, tile);
    if width <= 1 && height <= 1 {
        assert(levels.drop_last() =~= Seq::<LevelPlan>::empty());
        assert(count_of_levels(levels.drop_last()) == 0);
    } else {
        let below = planned_levels(half_up(width), half_up(height), tile);
        lemma_levels_count(half_up(width), half_up(height), tile);
        assert(levels.drop_last() =~= below);
    }
}

/// A plan's tile count never falls as the canvas grows.
pub proof fn law_count_never_falls(
    width: nat,
    height: nat,
    wider: nat,
    higher: nat,
    tile: nat,
)
    requires
        tile > 0,
        width <= wider,
        height <= higher,
    ensures
        planned_count(width, height, tile) <= planned_count(wider, higher, tile),
    decreases wider + higher,
{
    lemma_div_is_ordered(width + tile - 1, wider + tile - 1, tile as int);
    lemma_div_is_ordered(height + tile - 1, higher + tile - 1, tile as int);
    let (a, b) = (tiles_across(width, tile), tiles_across(height, tile));
    let (c, d) = (tiles_across(wider, tile), tiles_across(higher, tile));
    assert(a * b <= c * d) by (nonlinear_arith)
        requires
            0 <= a <= c,
            0 <= b <= d,
    ;
    if !(wider <= 1 && higher <= 1) {
        if !(width <= 1 && height <= 1) {
            law_count_never_falls(
                half_up(width),
                half_up(height),
                half_up(wider),
                half_up(higher),
                tile,
            );
        }
    }
}

/// How many tiles the planner lays out for a canvas.
pub fn planned_tiles(width: u32, height: u32, tile: u32) -> (n: Option<usize>)
    ensures
        n is Some <==> has_plan(width, height, tile),
        n is Some ==> n->0 == planned_count(width as nat, height as nat, tile as nat),
{
    match plan(width, height, tile) {
        Some(p) => {
            proof {
                lemma_coords_len(p.levels@);
                lemma_levels_count(width as nat, height as nat, tile as nat);
            }
            Some(coordinates(&p).len())
        },
        None => None,
    }
}

} // verus!
