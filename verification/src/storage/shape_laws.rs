//! What a pyramid's levels are, what a cell's text says, and what an artefact occupies.

use crate::storage::artefacts::{allocated_in, dirs_in, file_bytes, inside, Entry};
use crate::storage::cells::{lemma_source_names, parsed_cell, published, source_name, Cell, Source};
use crate::storage::plan::{
    coords_of, count_of_levels, half_up, planned_count, planned_levels, rows_coords, tiles_across,
    LevelPlan, TileCoord,
};
use crate::storage::tile_id::two_to;
use crate::words::{bounded_value, index_of, lemma_cut, lemma_index_of};
use vstd::prelude::*;

verus! {

/// As many tiles go across as cover it, and one less would not.
pub proof fn law_tiles_across_just_cover(n: nat, tile: nat)
    requires
        tile > 0,
    ensures
        tiles_across(n, tile) * tile >= n,
        n > 0 ==> (tiles_across(n, tile) - 1) * tile < n,
        n == 0 ==> tiles_across(n, tile) == 0,
{
    let k = (n + tile - 1) / tile as int;
    let r = (n + tile - 1) % tile as int;
    assert(k * tile as int + r == n + tile - 1) by (nonlinear_arith)
        requires
            tile > 0,
            k == (n + tile - 1) / tile as int,
            r == (n + tile - 1) % tile as int,
    ;
    assert(0 <= r < tile);
    assert((k - 1) * tile as int == k * tile as int - tile) by (nonlinear_arith);
    assert(k >= 0) by (nonlinear_arith)
        requires
            k * tile as int + r == n + tile - 1,
            r < tile,
            tile > 0,
    ;
    if n == 0 {
        assert(k == 0) by (nonlinear_arith)
            requires
                k * tile as int + r == tile - 1,
                0 <= r < tile,
                tile > 0,
                k >= 0,
        ;
    }
}

/// A pyramid stands on its canvas: the last level is the canvas, each level below is
/// half the one above it, rounded up, down to one pixel, and they are numbered from
/// there. Each has as many columns and rows of tiles as cover it.
pub proof fn law_levels_halve_down_to_a_pixel(width: u32, height: u32, tile: u32, i: int)
    requires
        width > 0,
        height > 0,
        tile > 0,
        0 <= i < planned_levels(width as nat, height as nat, tile as nat).len(),
    ensures
        ({
            let levels = planned_levels(width as nat, height as nat, tile as nat);
            &&& levels.last().width == width && levels.last().height == height
            &&& levels[0].width == 1 && levels[0].height == 1
            &&& i + 1 < levels.len() ==> levels[i].width == (levels[i + 1].width + 1) / 2
                && levels[i].height == (levels[i + 1].height + 1) / 2
            &&& i > 0 ==> levels[i].width > 1 || levels[i].height > 1
            &&& levels[i].level == i
            &&& levels[i].cols * tile >= levels[i].width && (levels[i].cols - 1) * tile
                < levels[i].width
            &&& levels[i].rows * tile >= levels[i].height && (levels[i].rows - 1) * tile
                < levels[i].height
        }),
{
    assert(two_to(32) == 0x1_0000_0000) by {
        reveal_with_fuel(two_to, 33);
    }
    lemma_levels_few(width as nat, height as nat, tile as nat, 32);
    lemma_levels(width as nat, height as nat, tile as nat, i);
}

/// There are at most thirty-three levels.
proof fn lemma_levels_few(width: nat, height: nat, tile: nat, k: nat)
    requires
        k <= 32,
        width <= two_to(k),
        height <= two_to(k),
    ensures
        planned_levels(width, height, tile).len() <= k + 1,
    decreases k,
{
    if k == 0 {
        assert(two_to(0) == 1);
    } else if !(width <= 1 && height <= 1) {
        lemma_levels_few(half_up(width), half_up(height), tile, (k - 1) as nat);
    }
}

/// The levels of a canvas.
proof fn lemma_levels(width: nat, height: nat, tile: nat, i: int)
    requires
        0 < width <= u32::MAX,
        0 < height <= u32::MAX,
        0 < tile <= u32::MAX,
        planned_levels(width, height, tile).len() <= 33,
        0 <= i < planned_levels(width, height, tile).len(),
    ensures
        ({
            let levels = planned_levels(width, height, tile);
            &&& levels.last().width == width && levels.last().height == height
            &&& levels[0].width == 1 && levels[0].height == 1
            &&& i + 1 < levels.len() ==> levels[i].width == (levels[i + 1].width + 1) / 2
                && levels[i].height == (levels[i + 1].height + 1) / 2
            &&& i > 0 ==> levels[i].width > 1 || levels[i].height > 1
            &&& levels[i].level == i
            &&& levels[i].cols * tile >= levels[i].width && (levels[i].cols - 1) * tile
                < levels[i].width
            &&& levels[i].rows * tile >= levels[i].height && (levels[i].rows - 1) * tile
                < levels[i].height
        }),
    decreases width + height,
{
    let levels = planned_levels(width, height, tile);
    law_tiles_across_just_cover(width, tile);
    law_tiles_across_just_cover(height, tile);
    lemma_across_fits(width, tile);
    lemma_across_fits(height, tile);
    if !(width <= 1 && height <= 1) {
        let below = planned_levels(half_up(width), half_up(height), tile);
        lemma_some_level(half_up(width), half_up(height), tile);
        if i < below.len() {
            lemma_levels(half_up(width), half_up(height), tile, i);
            assert(levels[i] == below[i]);
        } else {
            lemma_levels(half_up(width), half_up(height), tile, 0);
        }
        assert(levels[0] == below[0]);
        assert(levels[below.len() as int] == levels.last());
        assert(levels[below.len() - 1] == below.last());
    }
}

/// There is a level.
proof fn lemma_some_level(width: nat, height: nat, tile: nat)
    ensures
        planned_levels(width, height, tile).len() > 0,
    decreases width + height,
{
}

/// Tiles across are no more than pixels.
proof fn lemma_across_fits(n: nat, tile: nat)
    requires
        tile > 0,
    ensures
        tiles_across(n, tile) <= n,
{
    law_tiles_across_just_cover(n, tile);
    let k = tiles_across(n, tile);
    assert(k <= n) by (nonlinear_arith)
        requires
            n > 0 ==> (k - 1) * tile < n,
            n == 0 ==> k == 0,
            tile > 0,
    ;
}

/// A plan's tiles are those of its levels, level by level, each row by row and each row
/// from the left; and a plan counts as many as it lists.
pub proof fn law_tiles_stand_level_by_level(
    levels: Seq<LevelPlan>,
    l: LevelPlan,
    row: int,
    col: int,
)
    requires
        0 <= row < l.rows,
        0 <= col < l.cols,
    ensures
        ({
            let before = coords_of(levels);
            let all = coords_of(levels.push(l));
            let at = row * l.cols as int + col;
            &&& all.len() == before.len() + l.rows * l.cols
            &&& all.take(before.len() as int) == before
            &&& 0 <= at < l.rows * l.cols
            &&& all[before.len() + at] == (TileCoord {
                level: l.level,
                col: col as u32,
                row: row as u32,
            })
            &&& count_of_levels(levels.push(l)) == count_of_levels(levels) + l.cols * l.rows
        }),
{
    assert(levels.push(l).drop_last() =~= levels);
    lemma_rows(l, l.rows as int, row, col);
    let before = coords_of(levels);
    let all = coords_of(levels.push(l));
    assert(all.take(before.len() as int) =~= before);
}

/// Where a tile stands among the rows of its level.
proof fn lemma_rows(l: LevelPlan, n: int, row: int, col: int)
    requires
        0 <= row < n,
        0 <= col < l.cols,
    ensures
        rows_coords(l, n).len() == n * l.cols,
        0 <= row * l.cols as int + col < n * l.cols,
        rows_coords(l, n)[row * l.cols as int + col] == (TileCoord {
            level: l.level,
            col: col as u32,
            row: row as u32,
        }),
    decreases n,
{
    let w = l.cols as int;
    assert(n * w == (n - 1) * w + w) by (nonlinear_arith);
    if row < n - 1 {
        lemma_rows(l, n - 1, row, col);
    } else {
        lemma_rows_len(l, n - 1);
        assert(0 <= row * w) by (nonlinear_arith)
            requires
                0 <= row,
                0 <= w,
        ;
    }
}

/// As many tiles as rows of them.
proof fn lemma_rows_len(l: LevelPlan, n: int)
    requires
        0 <= n,
    ensures
        rows_coords(l, n).len() == n * l.cols,
    decreases n,
{
    let w = l.cols as int;
    if n > 0 {
        lemma_rows_len(l, n - 1);
        assert(n * w == (n - 1) * w + w) by (nonlinear_arith);
    } else {
        assert(n * w == 0) by (nonlinear_arith)
            requires
                n == 0,
        ;
    }
}

/// A cell is read from a width, a height, a tile's side and a source's name, with `x`,
/// `@` and `+` between them, each where it first occurs: exactly where the three are
/// numbers above nothing within 32 bits and the name is one of the four sources.
pub proof fn law_cell_is_read_from_its_four_parts(
    w: Seq<char>,
    h: Seq<char>,
    t: Seq<char>,
    name: Seq<char>,
)
    requires
        forall|i: int|
            0 <= i < w.len() ==> #[trigger] w[i] != 'x' && w[i] != '@' && w[i] != '+',
        forall|i: int| 0 <= i < h.len() ==> #[trigger] h[i] != '@' && h[i] != '+',
        forall|i: int| 0 <= i < t.len() ==> #[trigger] t[i] != '+',
    ensures
        ({
            let text = w + seq!['x'] + h + seq!['@'] + t + seq!['+'] + name;
            let named = name == "gradient"@ || name == "noise"@ || name == "flat"@ || name
                == "periodic-gradient"@;
            let sized = |s: Seq<char>|
                bounded_value(s, 0xffff_ffff) is Some && bounded_value(s, 0xffff_ffff) != Some(
                    0nat,
                );
            &&& parsed_cell(text) is Some <==> named && sized(w) && sized(h) && sized(t)
            &&& parsed_cell(text) matches Some(c) ==> {
                &&& Some(c.width as nat) == bounded_value(w, 0xffff_ffff)
                &&& Some(c.height as nat) == bounded_value(h, 0xffff_ffff)
                &&& Some(c.tile_px as nat) == bounded_value(t, 0xffff_ffff)
                &&& c.source == Source::Gradient <==> name == "gradient"@
                &&& c.source == Source::Noise <==> name == "noise"@
                &&& c.source == Source::Flat <==> name == "flat"@
                &&& c.declared_tiles == (planned_count(
                    c.width as nat,
                    c.height as nat,
                    c.tile_px as nat,
                ) % 0x1_0000_0000)
            }
        }),
{
    let text = w + seq!['x'] + h + seq!['@'] + t + seq!['+'] + name;
    let dims = w.push('x') + h;
    let canvas = dims.push('@') + t;
    assert(text =~= canvas.push('+') + name);
    assert forall|i: int| 0 <= i < dims.len() implies #[trigger] dims[i] != '@' by {
        if i < w.len() {
            assert(dims[i] == w[i]);
        } else if i > w.len() {
            assert(dims[i] == h[i - w.len() - 1]);
        }
    }
    assert forall|i: int| 0 <= i < canvas.len() implies #[trigger] canvas[i] != '+' by {
        if i < w.len() {
            assert(canvas[i] == w[i]);
        } else if w.len() < i < dims.len() {
            assert(canvas[i] == h[i - w.len() - 1]);
        } else if i > dims.len() {
            assert(canvas[i] == t[i - dims.len() - 1]);
        }
    }
    lemma_cut(w, 'x', h);
    lemma_cut(dims, '@', t);
    lemma_cut(canvas, '+', name);
    lemma_source_names();
    assert(source_name(Source::Gradient) == "gradient"@);
    assert(source_name(Source::Noise) == "noise"@);
    assert(source_name(Source::Flat) == "flat"@);
    assert(source_name(Source::PeriodicGradient) == "periodic-gradient"@);
}

/// A text without one of the three marks is no cell.
pub proof fn law_cell_has_all_three_marks(text: Seq<char>)
    ensures
        parsed_cell(text) is Some ==> text.contains('+') && text.contains('@') && text.contains(
            'x',
        ),
{
    if parsed_cell(text) is Some {
        lemma_index_of(text, '+', 0);
        let at = index_of(text, '+', 0);
        let canvas = text.take(at);
        lemma_index_of(canvas, '@', 0);
        let b = index_of(canvas, '@', 0);
        let dims = canvas.take(b);
        lemma_index_of(dims, 'x', 0);
        let c = index_of(dims, 'x', 0);
        assert(text[at] == '+');
        assert(canvas[b] == text[b]);
        assert(dims[c] == text[c]);
    }
}

/// The rows that are published are those of the gradient and of noise, in their order.
pub proof fn law_published_cells_are_gradient_or_noise(cells: Seq<Cell>, c: Cell)
    ensures
        published(Seq::<Cell>::empty()).len() == 0,
        c.source == Source::Gradient || c.source == Source::Noise ==> published(cells.push(c))
            == published(cells).push(c),
        c.source == Source::Flat || c.source == Source::PeriodicGradient ==> published(
            cells.push(c),
        ) == published(cells),
{
    reveal(Seq::filter);
    assert(cells.push(c).drop_last() =~= cells);
}

/// What a tree occupies: each file adds its length, each directory is counted, and both
/// add what is allocated to them.
pub proof fn law_occupancy_adds_every_entry(found: Seq<Entry>, n: int)
    requires
        0 <= n < found.len(),
    ensures
        file_bytes(found, 0) == 0 && dirs_in(found, 0) == 0 && allocated_in(found, 0) == 0,
        found[n].is_dir ==> file_bytes(found, n + 1) == file_bytes(found, n) && dirs_in(
            found,
            n + 1,
        ) == dirs_in(found, n) + 1,
        !found[n].is_dir ==> file_bytes(found, n + 1) == file_bytes(found, n) + found[n].len
            && dirs_in(found, n + 1) == dirs_in(found, n),
        allocated_in(found, n + 1) == allocated_in(found, n) + found[n].allocated,
{
}

/// A path inside a directory has one separator between the two.
pub proof fn law_path_has_one_separator(dir: Seq<char>, name: Seq<char>)
    requires
        dir.len() > 0,
        dir.last() != '/',
    ensures
        inside(dir, name) == dir + seq!['/'] + name,
        inside(dir.push('/'), name) == dir + seq!['/'] + name,
        inside(Seq::empty(), name) == name,
{
    reveal_strlit("/");
    assert("/"@ =~= seq!['/']);
    assert(dir.push('/') =~= dir + seq!['/']);
    assert(Seq::<char>::empty() + name =~= name);
}

} // verus!
