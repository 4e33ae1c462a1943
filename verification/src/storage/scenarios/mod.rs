//! The scenarios of a storage sweep, and the cells they walk.
//!
//! Nothing here asserts a timing. Every function reports a shape: a count, an
//! order, an outcome.

pub mod child_laws;
pub mod concurrent_curve;
pub mod counting;
pub mod decode_root;
pub mod facts;
pub mod fills;
pub mod first_lookup;
pub mod floors;
pub mod floors_laws;
pub mod open;
pub mod plan_order;
pub mod reference;
pub mod replicate;
pub mod requests;
pub mod scenario_laws;
pub mod tileid_order;
pub mod write_split;

pub use crate::storage::brink::{LARGEST_FLAT_ROOT, ROOT_ONLY_MAX_ENTRIES};
pub use crate::storage::cells::{
    collapses_at, observed_regime, period_px, root_shape, Regime, Source, BRINK_CANVAS,
    LEAF_CANVAS, MID_CANVAS, SEED, SMOKE_CANVAS,
};
pub use crate::storage::plan::coordinates as plan_coordinates;
pub use crate::storage::scenarios::fills::{flat, gradient, noise, periodic_gradient};
pub use crate::storage::splitmix::Splitmix;
pub use crate::storage::tile_id::tile_id;

use crate::storage::brink::{is_best_before, search, Brink};
use crate::storage::brink_laws::{law_search_ends_at_the_brink, BRINK_TILES};
use crate::storage::cells::{is_collapsing, is_published, period_of, source_name};
use crate::storage::plan::{
    has_plan, lemma_levels_count, plan, planned_count, planned_levels, count_of_levels, LevelPlan,
    PyramidPlan, TileCoord,
};
use crate::storage::scenarios::concurrent_curve::rung_model;
use crate::storage::scenarios::facts::{
    fresh_model, info_models, pass_info, pass_model, Direction, InfoModel, RepKind, ScenarioInfo,
    Unit,
};
use crate::storage::scenarios::requests::requests_model;
use crate::storage::scenarios::write_split::{phase_model, Phase};
use crate::storage::splitmix::{shuffle, shuffled};
use crate::text::{concat3, decimal, decimal_text};
use vstd::prelude::*;

verus! {

impl Source {
    /// The name of a source.
    pub fn label(self) -> (out: &'static str)
        ensures
            out@ == source_name(self),
    {
        self.as_str()
    }

    /// Whether a sweep may publish a row measured from this source.
    pub fn publishes_rows(self) -> (yes: bool)
        ensures
            yes == is_published(self),
    {
        self.publishable()
    }
}

/// One cell of the sweep: a canvas at a tile size, filled from a source.
#[derive(Debug, Clone, Copy, PartialEq, Eq, Structural)]
pub struct Cell {
    pub width: u32,
    pub height: u32,
    pub tile_size: u32,
    pub source: Source,
    /// What the archive is expected to come out as. Never what it is: that is
    /// checked by opening the archive and asking it.
    pub regime: Regime,
}

/// A cell as a table names it: `<width>x<height>@<tile>/<source>`.
pub open spec fn cell_label(c: Cell) -> Seq<char> {
    decimal(c.width as nat) + "x"@ + decimal(c.height as nat) + "@"@ + decimal(c.tile_size as nat)
        + "/"@ + source_name(c.source)
}

/// How many tiles a cell plans.
pub open spec fn tiles_of(c: Cell) -> nat {
    planned_count(c.width as nat, c.height as nat, c.tile_size as nat)
}

impl Cell {
    /// `<width>x<height>@<tile>/<source>`.
    pub fn spec(&self) -> (out: String)
        ensures
            out@ == cell_label(*self),
    {
        let mut out: String = concat3(
            decimal_text(self.width as u128).as_str(),
            "x",
            decimal_text(self.height as u128).as_str(),
        );
        out.append("@");
        out.append(decimal_text(self.tile_size as u128).as_str());
        out.append("/");
        out.append(self.source.label());
        out
    }

    /// The pyramid plan of this cell.
    pub fn plan(&self) -> (out: PyramidPlan)
        requires
            has_plan(self.width, self.height, self.tile_size),
        ensures
            out.levels@ == planned_levels(
                self.width as nat,
                self.height as nat,
                self.tile_size as nat,
            ),
    {
        match plan(self.width, self.height, self.tile_size) {
            Some(p) => p,
            None => PyramidPlan { levels: Vec::new() },
        }
    }

    /// How many tiles the planner plans, which is not how many entries the root
    /// holds unless no two neighbouring tiles share a payload.
    pub fn planned_tiles(&self) -> (n: u64)
        requires
            has_plan(self.width, self.height, self.tile_size),
            tiles_of(*self) <= u64::MAX,
        ensures
            n == tiles_of(*self),
    {
        let p: PyramidPlan = self.plan();
        let ghost levels = p.levels@;
        proof {
            lemma_levels_count(self.width as nat, self.height as nat, self.tile_size as nat);
        }
        let mut n: u64 = 0;
        let mut i: usize = 0;
        assert(levels.take(0) =~= Seq::<LevelPlan>::empty());
        while i < p.levels.len()
            invariant
                i <= p.levels@.len(),
                levels == p.levels@,
                n == count_of_levels(levels.take(i as int)),
                count_of_levels(levels) <= u64::MAX,
            decreases p.levels@.len() - i,
        {
            let level: LevelPlan = p.levels[i];
            proof {
                assert(levels.take(i + 1).drop_last() =~= levels.take(i as int));
                lemma_count_of_more(levels, i + 1);
                assert(level.cols as u64 * level.rows as u64 == level.cols as nat
                    * level.rows as nat);
                assert(0 <= level.cols as nat * level.rows as nat) by (nonlinear_arith);
            }
            n = n + level.cols as u64 * level.rows as u64;
            i = i + 1;
        }
        assert(levels.take(i as int) =~= levels);
        n
    }

    /// The same cell with another source.
    pub fn with_source(self, source: Source) -> (cell: Cell)
        ensures
            cell == (Cell { source, ..self }),
    {
        Cell {
            width: self.width,
            height: self.height,
            tile_size: self.tile_size,
            source,
            regime: self.regime,
        }
    }
}

/// More levels hold no fewer tiles.
proof fn lemma_count_of_more(levels: Seq<LevelPlan>, n: int)
    requires
        0 <= n <= levels.len(),
    ensures
        count_of_levels(levels.take(n)) <= count_of_levels(levels),
    decreases levels.len() - n,
{
    if n < levels.len() {
        assert(levels.take(n + 1).drop_last() =~= levels.take(n));
        lemma_count_of_more(levels, n + 1);
        let last = levels.take(n + 1).last();
        assert(0 <= last.cols as nat * last.rows as nat) by (nonlinear_arith);
    } else {
        assert(levels.take(n) =~= levels);
    }
}

/// The cell of a canvas.
pub open spec fn cell_on(canvas: (u32, u32, u32), source: Source, regime: Regime) -> Cell {
    Cell { width: canvas.0, height: canvas.1, tile_size: canvas.2, source, regime }
}

/// The cell of a canvas.
fn cell(canvas: (u32, u32, u32), source: Source, regime: Regime) -> (c: Cell)
    ensures
        c == cell_on(canvas, source, regime),
{
    Cell { width: canvas.0, height: canvas.1, tile_size: canvas.2, source, regime }
}

/// The cell whose root sits at the top of the open-cost ramp.
pub fn brink_cell(source: Source) -> (c: Cell)
    ensures
        c == cell_on(BRINK_CANVAS, source, Regime::Root),
{
    cell(BRINK_CANVAS, source, Regime::Root)
}

/// The cell on the far side of the cliff, where every lookup goes through a
/// leaf directory.
pub fn leaf_cell(source: Source) -> (c: Cell)
    ensures
        c == cell_on(LEAF_CANVAS, source, Regime::Leaves),
{
    cell(LEAF_CANVAS, source, Regime::Leaves)
}

/// The smoke cell, measured first and last in every sweep as the drift control.
pub fn smoke_cell(source: Source) -> (c: Cell)
    ensures
        c == cell_on(SMOKE_CANVAS, source, Regime::Root),
{
    cell(SMOKE_CANVAS, source, Regime::Root)
}

/// The mid root-only cell.
pub fn mid_cell(source: Source) -> (c: Cell)
    ensures
        c == cell_on(MID_CANVAS, source, Regime::Root),
{
    cell(MID_CANVAS, source, Regime::Root)
}

/// Re-run the search that picked [`BRINK_CANVAS`], and answer with the cell it
/// finds and the tiles it plans.
pub fn brink_search() -> (found: (Cell, u64))
    ensures
        found.0 == cell_on(BRINK_CANVAS, Source::Gradient, Regime::Root),
        found.1 == BRINK_TILES,
        found.1 == tiles_of(found.0),
        is_best_before(
            Brink {
                width: found.0.width,
                height: found.0.height,
                tile: found.0.tile_size,
                tiles: found.1,
            },
            257,
            0,
        ),
{
    let best: Brink = search();
    proof {
        law_search_ends_at_the_brink(best);
    }
    (cell((best.width, best.height, best.tile), Source::Gradient, Regime::Root), best.tiles)
}

/// Whether a published quantity was observed or declared.
#[derive(Debug, Clone, Copy, PartialEq, Eq, Structural)]
pub enum Origin {
    Observed,
    Declared,
}

impl Origin {
    /// The name of an origin.
    pub fn label(self) -> (out: &'static str)
        ensures
            out@ == (match self {
                Origin::Observed => "observed"@,
                Origin::Declared => "declared"@,
            }),
    {
        match self {
            Origin::Observed => "observed",
            Origin::Declared => "declared",
        }
    }

    pub fn is_declared(self) -> (yes: bool)
        ensures
            yes == (self == Origin::Declared),
    {
        match self {
            Origin::Observed => false,
            Origin::Declared => true,
        }
    }
}

/// What happened to one arm of a sweep. An arm the host cannot measure is
/// skipped with a reason and stays in the document.
#[derive(Debug, Clone, PartialEq, Eq)]
pub enum Outcome {
    /// It was measured.
    Passed,
    Skipped { reason: String },
}

impl Outcome {
    pub fn skipped(reason: String) -> (out: Outcome)
        ensures
            out == (Outcome::Skipped { reason }),
    {
        Outcome::Skipped { reason }
    }

    pub fn is_ok(&self) -> (yes: bool)
        ensures
            yes == (*self is Passed),
    {
        match self {
            Outcome::Passed => true,
            Outcome::Skipped { .. } => false,
        }
    }

    pub fn reason(&self) -> (out: Option<&str>)
        ensures
            out is Some <==> *self is Skipped,
            out is Some ==> out->0@ == self->reason@,
    {
        match self {
            Outcome::Passed => None,
            Outcome::Skipped { reason } => Some(reason.as_str()),
        }
    }
}

/// The same coordinates in a seeded shuffle.
pub fn random_order(coords: &Vec<TileCoord>, seed: u64) -> (out: Vec<TileCoord>)
    ensures
        out@ == shuffled(coords@, seed),
{
    shuffle(coords, seed)
}

/// Why a cell's shape does not survive its source.
pub open spec fn collapse_label(c: Cell) -> Seq<char> {
    cell_label(c) + " fills a "@ + decimal(c.tile_size as nat)
        + " pixel tile from a source whose period is "@ + decimal(period_of(c.source)->0)
        + " pixels on both axes, so every tile of a level is the same bytes and the writer's run-length encoding collapses the level to one entry; the cell plans "@
        + decimal(tiles_of(c)) + " tiles and its root will hold about one entry per level"@
}

/// Whether a cell's declared shape survives the source it is filled from.
pub fn source_suits_the_cell(cell: &Cell) -> (got: Result<(), String>)
    requires
        is_collapsing(cell.source, cell.tile_size) ==> has_plan(
            cell.width,
            cell.height,
            cell.tile_size,
        ) && tiles_of(*cell) <= u64::MAX,
    ensures
        got is Err <==> is_collapsing(cell.source, cell.tile_size),
        got is Err ==> got->Err_0@ == collapse_label(*cell),
{
    match period_px(cell.source) {
        Some(period) => if collapses_at(cell.source, cell.tile_size) {
            let mut out: String = concat3(
                cell.spec().as_str(),
                " fills a ",
                decimal_text(cell.tile_size as u128).as_str(),
            );
            out.append(" pixel tile from a source whose period is ");
            out.append(decimal_text(period as u128).as_str());
            out.append(
                " pixels on both axes, so every tile of a level is the same bytes and the writer's run-length encoding collapses the level to one entry; the cell plans ",
            );
            out.append(decimal_text(cell.planned_tiles() as u128).as_str());
            out.append(" tiles and its root will hold about one entry per level");
            Err(out)
        } else {
            Ok(())
        },
        None => Ok(()),
    }
}

/// The first `n` cells whose source may be published, in their order.
pub open spec fn published_cells(cells: Seq<Cell>, n: int) -> Seq<Cell>
    decreases n,
{
    if n <= 0 {
        Seq::empty()
    } else if is_published(cells[n - 1].source) {
        published_cells(cells, n - 1).push(cells[n - 1])
    } else {
        published_cells(cells, n - 1)
    }
}

/// The cells a sweep may publish rows for: everything except the sources that
/// exist only as controls.
pub fn publishable(cells: &[Cell]) -> (out: Vec<Cell>)
    ensures
        out@ == published_cells(cells@, cells@.len() as int),
{
    let mut out: Vec<Cell> = Vec::new();
    let mut i: usize = 0;
    while i < cells.len()
        invariant
            i <= cells@.len(),
            out@ == published_cells(cells@, i as int),
        decreases cells@.len() - i,
    {
        if cells[i].source.publishes_rows() {
            out.push(cells[i]);
        }
        i = i + 1;
    }
    out
}

/// What a pass over the coordinates declares.
pub open spec fn read_model(name: Seq<char>) -> InfoModel {
    pass_model(name, "p50"@, Unit::Microseconds, Direction::LowerIsBetter)
}

/// What the scenarios beyond the reference ones declare, in sweep order.
pub open spec fn more_models() -> Seq<InfoModel> {
    seq![
        fresh_model("open"@, "p50"@, Unit::Microseconds, RepKind::Read, true),
        fresh_model("first_lookup"@, "p50"@, Unit::Microseconds, RepKind::Read, true),
        read_model("decode_root"@),
        read_model("read_tileid_order"@),
        rung_model(1),
        rung_model(2),
        rung_model(4),
        rung_model(8),
        requests_model(),
        phase_model(Phase::Ingest),
        phase_model(Phase::Finalize),
    ]
}

/// The scenarios beyond the reference ones, in sweep order.
pub fn all() -> (out: Vec<ScenarioInfo>)
    ensures
        info_models(out@) == more_models(),
{
    let mut out: Vec<ScenarioInfo> = Vec::new();
    out.push(open::Open.info());
    out.push(open::FirstLookup.info());
    out.push(
        pass_info("decode_root".to_owned(), "p50", Unit::Microseconds, Direction::LowerIsBetter),
    );
    out.push(reference::ReadPass::tileid_order().info());
    out.push((concurrent_curve::Concurrent { threads: 1 }).info());
    out.push((concurrent_curve::Concurrent { threads: 2 }).info());
    out.push((concurrent_curve::Concurrent { threads: 4 }).info());
    out.push((concurrent_curve::Concurrent { threads: 8 }).info());
    out.push(requests::Requests.info());
    out.push(write_split::GenerateIngest.info());
    out.push(write_split::GenerateFinalize.info());
    assert(info_models(out@) =~= more_models());
    out
}

} // verus!
