//! What a storage sweep walks: backends, sources, cells and profiles.
//!
//! A cell's identity is the number of tiles its plan holds, because the
//! archive's directory shape follows from the entry count.

pub use crate::storage::brink::{LARGEST_FLAT_ROOT, ROOT_ONLY_MAX_ENTRIES};
pub use crate::storage::plan::coordinates;

use crate::storage::brink::{is_best_before, lemma_square_count, search, Brink};
use crate::storage::brink_laws::{law_search_ends_at_the_brink, BRINK_TILES};
use crate::storage::plan::{
    has_plan, plan, planned_count, planned_levels, planned_tiles, PyramidPlan,
};
use crate::storage::scenarios::replicate::{law_schedule_alternates, schedule, scheduled};
use crate::text::{
    chars_of, concat3, decimal, decimal_text, is_digit, same_text, strings, text_of,
};
use crate::words::{
    bounded_value, cut, lemma_cut, lemma_decimal_reads_back, parse_u32, split_once,
};
use vstd::prelude::*;
use vstd::std_specs::cmp::PartialEqSpecImpl;

verus! {

/// Which storage backend a row measures.
#[derive(Debug, Clone, Copy, PartialEq, Eq, Hash, PartialOrd, Ord, Structural)]
pub enum Backend {
    /// One archive file.
    PmTiles,
    /// A tree of loose tile files under the layout's own paths.
    Directory,
}

/// The name of a backend.
pub open spec fn backend_name(b: Backend) -> Seq<char> {
    match b {
        Backend::PmTiles => "pmtiles"@,
        Backend::Directory => "directory"@,
    }
}

impl Backend {
    /// The name of a backend.
    pub fn as_str(self) -> (out: &'static str)
        ensures
            out@ == backend_name(self),
    {
        match self {
            Backend::PmTiles => "pmtiles",
            Backend::Directory => "directory",
        }
    }

    /// The backend of a name.
    pub fn parse(s: &str) -> (got: Option<Backend>)
        ensures
            forall|b: Backend| got == Some(b) <==> s@ == #[trigger] backend_name(b),
    {
        proof {
            reveal_strlit("pmtiles");
            reveal_strlit("directory");
            assert("pmtiles"@.len() != "directory"@.len());
        }
        if same_text(s, "pmtiles") {
            Some(Backend::PmTiles)
        } else if same_text(s, "directory") {
            Some(Backend::Directory)
        } else {
            None
        }
    }

    /// Both backends, in the order a sweep interleaves them.
    pub fn all() -> (out: Vec<Backend>)
        ensures
            out@ == seq![Backend::PmTiles, Backend::Directory],
    {
        vec![Backend::PmTiles, Backend::Directory]
    }
}

/// What the raster under a cell is.
///
/// `Gradient` compresses like imagery, `Noise` does not and is the archive's
/// worst copy case, `Flat` exists only as a dedupe guard and never produces a
/// published row.
#[derive(Debug, Clone, Copy, PartialEq, Eq, Hash, Structural)]
pub enum Source {
    Gradient,
    Noise,
    Flat,
    /// The gradient with its moduli rounded to 256, so it repeats every 256
    /// pixels on both axes. Never published: it is the positive control for
    /// [`collapses_at`].
    PeriodicGradient,
}

/// The name of a source.
pub open spec fn source_name(s: Source) -> Seq<char> {
    match s {
        Source::Gradient => "gradient"@,
        Source::Noise => "noise"@,
        Source::Flat => "flat"@,
        Source::PeriodicGradient => "periodic-gradient"@,
    }
}

/// Whether rows of a source may be published.
pub open spec fn is_published(s: Source) -> bool {
    s == Source::Gradient || s == Source::Noise
}

/// No two sources have one name.
pub(crate) proof fn lemma_source_names()
    ensures
        forall|a: Source, b: Source|
            #[trigger] source_name(a) == #[trigger] source_name(b) ==> a == b,
{
    reveal_strlit("gradient");
    reveal_strlit("noise");
    reveal_strlit("flat");
    reveal_strlit("periodic-gradient");
    assert("gradient"@.len() == 8 && "noise"@.len() == 5 && "flat"@.len() == 4
        && "periodic-gradient"@.len() == 17);
}

impl Source {
    /// The name of a source.
    pub fn as_str(self) -> (out: &'static str)
        ensures
            out@ == source_name(self),
    {
        match self {
            Source::Gradient => "gradient",
            Source::Noise => "noise",
            Source::Flat => "flat",
            Source::PeriodicGradient => "periodic-gradient",
        }
    }

    /// The source of a name.
    pub fn parse(s: &str) -> (got: Option<Source>)
        ensures
            forall|x: Source| got == Some(x) <==> s@ == #[trigger] source_name(x),
    {
        proof {
            lemma_source_names();
            assert(source_name(Source::Gradient) == "gradient"@);
            assert(source_name(Source::Noise) == "noise"@);
            assert(source_name(Source::Flat) == "flat"@);
            assert(source_name(Source::PeriodicGradient) == "periodic-gradient"@);
        }
        if same_text(s, "gradient") {
            Some(Source::Gradient)
        } else if same_text(s, "noise") {
            Some(Source::Noise)
        } else if same_text(s, "flat") {
            Some(Source::Flat)
        } else if same_text(s, "periodic-gradient") {
            Some(Source::PeriodicGradient)
        } else {
            None
        }
    }

    /// Whether a row measured on this source may be published.
    pub fn publishable(self) -> (yes: bool)
        ensures
            yes == is_published(self),
    {
        match self {
            Source::Gradient => true,
            Source::Noise => true,
            Source::Flat => false,
            Source::PeriodicGradient => false,
        }
    }
}

/// Every source a sweep may walk, publishable or not.
pub fn sources() -> (out: Vec<Source>)
    ensures
        out@ == seq![Source::Gradient, Source::Noise, Source::Flat, Source::PeriodicGradient],
{
    vec![Source::Gradient, Source::Noise, Source::Flat, Source::PeriodicGradient]
}

/// One cell of the sweep.
#[derive(Debug, Clone, Copy, Eq)]
pub struct Cell {
    pub width: u32,
    pub height: u32,
    pub tile_px: u32,
    pub source: Source,
    /// The tile count this cell is named by, and the facet key. It is checked
    /// against [`Cell::planned_tiles`] rather than trusted.
    pub declared_tiles: u32,
}

impl PartialEq for Cell {
    fn eq(&self, other: &Cell) -> (same: bool) {
        self.width == other.width && self.height == other.height && self.tile_px == other.tile_px
            && self.source == other.source && self.declared_tiles == other.declared_tiles
    }
}

impl PartialEqSpecImpl for Cell {
    open spec fn obeys_eq_spec() -> bool {
        true
    }

    open spec fn eq_spec(&self, other: &Cell) -> bool {
        self.width == other.width && self.height == other.height && self.tile_px == other.tile_px
            && self.source == other.source && self.declared_tiles == other.declared_tiles
    }
}

/// The form a parent hands a child: `<width>x<height>@<tile>+<source>`.
pub open spec fn cell_text(c: Cell) -> Seq<char> {
    decimal(c.width as nat) + "x"@ + decimal(c.height as nat) + "@"@ + decimal(c.tile_px as nat)
        + "+"@ + source_name(c.source)
}

/// How many tiles the planner lays out for a cell, where it lays out any.
pub open spec fn cell_tiles(c: Cell) -> Option<nat> {
    if has_plan(c.width, c.height, c.tile_px) {
        Some(planned_count(c.width as nat, c.height as nat, c.tile_px as nat))
    } else {
        None
    }
}

/// A tile count as a cell declares it, in 32 bits.
pub open spec fn declared(tiles: nat) -> u32 {
    (tiles % 0x1_0000_0000) as u32
}

/// The cell that a text stands for: three numbers and a source, in a form that
/// plans a pyramid.
pub open spec fn parsed_cell(text: Seq<char>) -> Option<Cell> {
    match cut(text, '+') {
        None => None,
        Some((canvas, source)) => match cut(canvas, '@') {
            None => None,
            Some((dims, tile)) => match cut(dims, 'x') {
                None => None,
                Some((w, h)) => match (
                    bounded_value(w, u32::MAX as nat),
                    bounded_value(h, u32::MAX as nat),
                    bounded_value(tile, u32::MAX as nat),
                ) {
                    (Some(width), Some(height), Some(tile_px)) => if exists|s: Source|
                        source == #[trigger] source_name(s) {
                        let bare = Cell {
                            width: width as u32,
                            height: height as u32,
                            tile_px: tile_px as u32,
                            source: choose|s: Source| source == #[trigger] source_name(s),
                            declared_tiles: 0,
                        };
                        match cell_tiles(bare) {
                            Some(n) => Some(Cell { declared_tiles: declared(n), ..bare }),
                            None => None,
                        }
                    } else {
                        None
                    },
                    _ => None,
                },
            },
        },
    }
}

impl Cell {
    pub fn new(width: u32, height: u32, tile_px: u32, source: Source, declared_tiles: u32) -> (cell:
        Cell)
        ensures
            cell == (Cell { width, height, tile_px, source, declared_tiles }),
    {
        Cell { width, height, tile_px, source, declared_tiles }
    }

    /// `<width>x<height>@<tile>+<source>`, the form a parent hands a child.
    pub fn spec(&self) -> (out: String)
        ensures
            out@ == cell_text(*self),
    {
        let mut out: String = concat3(
            decimal_text(self.width as u128).as_str(),
            "x",
            decimal_text(self.height as u128).as_str(),
        );
        out.append("@");
        out.append(decimal_text(self.tile_px as u128).as_str());
        out.append("+");
        out.append(self.source.as_str());
        out
    }

    /// Parse the form [`Cell::spec`] writes. The declared tile count is not in
    /// it: it is asked of the planner.
    pub fn parse(spec: &str) -> (got: Option<Cell>)
        ensures
            got == parsed_cell(spec@),
    {
        let text: Vec<char> = chars_of(spec);
        match split_once(text.as_slice(), '+') {
            None => None,
            Some((canvas, source)) => match split_once(canvas, '@') {
                None => None,
                Some((dims, tile)) => match split_once(dims, 'x') {
                    None => None,
                    Some((w, h)) => match (parse_u32(w), parse_u32(h), parse_u32(tile)) {
                        (Some(width), Some(height), Some(tile_px)) => {
                            let name: String = text_of(source);
                            match Source::parse(name.as_str()) {
                                None => {
                                    assert forall|s: Source| source@ != #[trigger] source_name(
                                        s,
                                    ) by {}
                                    None
                                },
                                Some(kind) => {
                                    proof {
                                        lemma_source_names();
                                        assert(source@ == source_name(kind));
                                    }
                                    let mut cell = Cell::new(width, height, tile_px, kind, 0);
                                    match cell.planned_tiles() {
                                        None => None,
                                        Some(n) => {
                                            cell.declared_tiles = (n as u64 % 0x1_0000_0000)
                                                as u32;
                                            Some(cell)
                                        },
                                    }
                                },
                            }
                        },
                        _ => None,
                    },
                },
            },
        }
    }

    /// The pyramid plan for this cell.
    pub fn plan(&self) -> (out: Option<PyramidPlan>)
        ensures
            out is Some <==> has_plan(self.width, self.height, self.tile_px),
            out is Some ==> out->0.levels@ == planned_levels(
                self.width as nat,
                self.height as nat,
                self.tile_px as nat,
            ),
    {
        plan(self.width, self.height, self.tile_px)
    }

    /// How many tiles the planner really lays out, asked of the planner.
    pub fn planned_tiles(&self) -> (n: Option<usize>)
        ensures
            n is Some <==> cell_tiles(*self) is Some,
            n is Some ==> n->0 == cell_tiles(*self)->0,
    {
        planned_tiles(self.width, self.height, self.tile_px)
    }
}

/// A cell that plans a pyramid reads back from the form it writes, and declares
/// what it plans.
pub proof fn law_cell_reads_back(c: Cell)
    requires
        has_plan(c.width, c.height, c.tile_px),
    ensures
        parsed_cell(cell_text(c)) == Some(
            Cell {
                declared_tiles: declared(
                    planned_count(c.width as nat, c.height as nat, c.tile_px as nat),
                ),
                ..c
            },
        ),
{
    let (w, h, t) = (decimal(c.width as nat), decimal(c.height as nat), decimal(c.tile_px as nat));
    let name = source_name(c.source);
    lemma_decimal_reads_back(c.width as nat);
    lemma_decimal_reads_back(c.height as nat);
    lemma_decimal_reads_back(c.tile_px as nat);
    reveal_strlit("x");
    reveal_strlit("@");
    reveal_strlit("+");
    let dims = w.push('x') + h;
    let canvas = dims.push('@') + t;
    assert(cell_text(c) =~= canvas.push('+') + name);
    assert forall|i: int| 0 <= i < w.len() implies #[trigger] w[i] != 'x' by {
        assert(is_digit(w[i]));
    }
    assert forall|i: int| 0 <= i < dims.len() implies #[trigger] dims[i] != '@' by {
        if i < w.len() {
            assert(is_digit(w[i]));
        } else if i > w.len() {
            assert(is_digit(h[i - w.len() - 1]));
        }
    }
    assert forall|i: int| 0 <= i < canvas.len() implies #[trigger] canvas[i] != '+' by {
        if i < w.len() {
            assert(is_digit(w[i]));
        } else if w.len() < i < dims.len() {
            assert(is_digit(h[i - w.len() - 1]));
        } else if i > dims.len() {
            assert(is_digit(t[i - dims.len() - 1]));
        }
    }
    lemma_cut(w, 'x', h);
    lemma_cut(dims, '@', t);
    lemma_cut(canvas, '+', name);
    lemma_source_names();
    assert(name == source_name(c.source));
}


/// Which sweep a run is.
#[derive(Debug, Clone, Copy, PartialEq, Eq, Structural)]
pub enum Profile {
    /// Cheap enough that a pull request runs it, never published.
    Ci,
    /// The published sweep.
    Full,
    /// `Full` plus the 16384 canvas, opt-in.
    Xl,
}

/// The name of a profile.
pub open spec fn profile_name(p: Profile) -> Seq<char> {
    match p {
        Profile::Ci => "ci"@,
        Profile::Full => "full"@,
        Profile::Xl => "xl"@,
    }
}

/// No two profiles have one name.
proof fn lemma_profile_names()
    ensures
        forall|a: Profile, b: Profile|
            #[trigger] profile_name(a) == #[trigger] profile_name(b) ==> a == b,
{
    reveal_strlit("ci");
    reveal_strlit("full");
    reveal_strlit("xl");
    assert("ci"@[0] == 'c' && "full"@[0] == 'f' && "xl"@[0] == 'x');
}

/// The seed every deterministic choice in a sweep comes from.
pub const SEED: u64 = 0x5EED_1234_ABCD_0001;

/// The canvas whose root stops just under the writer's cutoff, and its tile
/// size.
pub const BRINK_CANVAS: (u32, u32, u32) = (4096, 6256, 46);

/// The smoke cell, and the replicate control.
pub const SMOKE_CANVAS: (u32, u32, u32) = (2048, 2048, 256);

/// The mid root-only cell: 95 KB tiles, the photographic end.
pub const MID_CANVAS: (u32, u32, u32) = (8192, 8192, 256);

/// The only leaf-bearing cell: 21851 tiles behind six leaf pointers.
pub const LEAF_CANVAS: (u32, u32, u32) = (8192, 8192, 64);

/// The cell of a canvas, declaring what it plans.
pub open spec fn canvas_cell(canvas: (u32, u32, u32), source: Source) -> Cell {
    Cell {
        width: canvas.0,
        height: canvas.1,
        tile_px: canvas.2,
        source,
        declared_tiles: if has_plan(canvas.0, canvas.1, canvas.2) {
            declared(planned_count(canvas.0 as nat, canvas.1 as nat, canvas.2 as nat))
        } else {
            0
        },
    }
}

/// The cell of a canvas, declaring what it plans.
fn at(canvas: (u32, u32, u32), source: Source) -> (cell: Cell)
    ensures
        cell == canvas_cell(canvas, source),
{
    let mut cell = Cell::new(canvas.0, canvas.1, canvas.2, source, 0);
    match cell.planned_tiles() {
        Some(n) => {
            cell.declared_tiles = (n as u64 % 0x1_0000_0000) as u32;
        },
        None => {},
    }
    cell
}

/// The cell whose root sits at the top of the open-cost ramp.
pub fn brink_cell(source: Source) -> (cell: Cell)
    ensures
        cell == canvas_cell(BRINK_CANVAS, source),
{
    at(BRINK_CANVAS, source)
}

/// The cell on the far side of the cliff, where every lookup goes through a
/// leaf directory.
pub fn leaf_cell(source: Source) -> (cell: Cell)
    ensures
        cell == canvas_cell(LEAF_CANVAS, source),
{
    at(LEAF_CANVAS, source)
}

/// The smoke cell, measured throughout every sweep as the drift control.
pub fn smoke_cell(source: Source) -> (cell: Cell)
    ensures
        cell == canvas_cell(SMOKE_CANVAS, source),
{
    at(SMOKE_CANVAS, source)
}

/// The mid root-only cell.
pub fn mid_cell(source: Source) -> (cell: Cell)
    ensures
        cell == canvas_cell(MID_CANVAS, source),
{
    at(MID_CANVAS, source)
}

/// Re-run the search that picked [`BRINK_CANVAS`], and answer with the cell it
/// finds and the tiles it plans.
pub fn brink_search() -> (found: (Cell, u64))
    ensures
        found.0 == canvas_cell(BRINK_CANVAS, Source::Gradient),
        found.0.declared_tiles == found.1,
        found.1 == BRINK_TILES,
        is_best_before(
            Brink {
                width: found.0.width,
                height: found.0.height,
                tile: found.0.tile_px,
                tiles: found.1,
            },
            257,
            0,
        ),
{
    let best: Brink = search();
    proof {
        law_search_ends_at_the_brink(best);
    }
    let cell = at((best.width, best.height, best.tile), Source::Gradient);
    (cell, best.tiles)
}

/// The cells of a profile that are not the control, in facet order.
pub open spec fn measured(p: Profile) -> Seq<Cell> {
    let full = seq![
        Cell {
            width: 8192,
            height: 8192,
            tile_px: 256,
            source: Source::Gradient,
            declared_tiles: 1373,
        },
        canvas_cell(BRINK_CANVAS, Source::Gradient),
        Cell {
            width: 8192,
            height: 8192,
            tile_px: 64,
            source: Source::Gradient,
            declared_tiles: 21851,
        },
        Cell {
            width: 8192,
            height: 8192,
            tile_px: 64,
            source: Source::Noise,
            declared_tiles: 21851,
        },
        canvas_cell(BRINK_CANVAS, Source::Noise),
    ];
    match p {
        Profile::Ci => Seq::empty(),
        Profile::Full => full,
        Profile::Xl => full.push(
            Cell {
                width: 16384,
                height: 16384,
                tile_px: 256,
                source: Source::Gradient,
                declared_tiles: 5469,
            },
        ),
    }
}

/// The cell that is measured through a whole sweep.
pub open spec fn control_cell() -> Cell {
    Cell {
        width: 2048,
        height: 2048,
        tile_px: 256,
        source: Source::Gradient,
        declared_tiles: 93,
    }
}

/// Every name a sweep knows, in registry order.
pub open spec fn all_scenario_names() -> Seq<Seq<char>> {
    seq![
        "generate"@,
        "open"@,
        "first_lookup"@,
        "decode_root"@,
        "read_plan_order"@,
        "read_tileid_order"@,
        "read_random"@,
        "read_concurrent@1"@,
        "read_concurrent@2"@,
        "read_concurrent@4"@,
        "read_concurrent@8"@,
        "requests"@,
    ]
}

/// The scenarios of a profile: all of them, but for the thread ladder on `ci`.
pub open spec fn scenarios_of(p: Profile) -> Seq<Seq<char>> {
    match p {
        Profile::Ci => all_scenario_names().take(7).push("requests"@),
        _ => all_scenario_names(),
    }
}

impl Profile {
    /// The name of a profile.
    pub fn label(self) -> (out: &'static str)
        ensures
            out@ == profile_name(self),
    {
        match self {
            Profile::Ci => "ci",
            Profile::Full => "full",
            Profile::Xl => "xl",
        }
    }

    /// The profile of a name.
    pub fn parse(s: &str) -> (got: Option<Profile>)
        ensures
            forall|p: Profile| got == Some(p) <==> s@ == #[trigger] profile_name(p),
    {
        proof {
            lemma_profile_names();
            assert(profile_name(Profile::Ci) == "ci"@);
            assert(profile_name(Profile::Full) == "full"@);
            assert(profile_name(Profile::Xl) == "xl"@);
        }
        if same_text(s, "ci") {
            Some(Profile::Ci)
        } else if same_text(s, "full") {
            Some(Profile::Full)
        } else if same_text(s, "xl") {
            Some(Profile::Xl)
        } else {
            None
        }
    }

    /// The profile that the environment names, or `ci` where it names none.
    pub fn from_name(value: Option<&str>) -> (p: Profile)
        ensures
            forall|q: Profile|
                value is Some && value->0@ == #[trigger] profile_name(q) ==> p == q,
            (forall|q: Profile| value is None || value->0@ != #[trigger] profile_name(q)) ==> p
                == Profile::Ci,
    {
        match value {
            Some(s) => match Profile::parse(s) {
                Some(p) => {
                    assert(s@ == profile_name(p));
                    p
                },
                None => {
                    assert forall|q: Profile| s@ != #[trigger] profile_name(q) by {}
                    Profile::Ci
                },
            },
            None => Profile::Ci,
        }
    }

    /// The cells this profile walks, in facet order.
    ///
    /// A published profile walks its control before the first measured cell and
    /// after every one of them; `ci` has one cell and no control.
    pub fn cells(self) -> (out: Vec<Cell>)
        ensures
            out@ == (match self {
                Profile::Ci => seq![control_cell()],
                _ => scheduled(control_cell(), measured(self)),
            }),
    {
        let control = Cell::new(2048, 2048, 256, Source::Gradient, 93);
        match self {
            Profile::Ci => vec![control],
            _ => {
                let rest: Vec<Cell> = self.measured_cells();
                schedule(control, rest.as_slice())
            },
        }
    }

    /// The cells a profile walks that are not the control, in facet order.
    pub fn measured_cells(self) -> (out: Vec<Cell>)
        ensures
            out@ == measured(self),
    {
        let mut out: Vec<Cell> = Vec::new();
        match self {
            Profile::Ci => {},
            _ => {
                out.push(Cell::new(8192, 8192, 256, Source::Gradient, 1373));
                out.push(brink_cell(Source::Gradient));
                out.push(Cell::new(8192, 8192, 64, Source::Gradient, 21851));
                out.push(Cell::new(8192, 8192, 64, Source::Noise, 21851));
                out.push(brink_cell(Source::Noise));
            },
        }
        match self {
            Profile::Xl => {
                out.push(Cell::new(16384, 16384, 256, Source::Gradient, 5469));
            },
            _ => {},
        }
        assert(out@ =~= measured(self));
        out
    }

    /// The scenarios this profile walks, by name.
    pub fn scenario_names(self) -> (out: Vec<String>)
        ensures
            strings(out@) == scenarios_of(self),
    {
        scenario_names_for(self)
    }

    /// How many lookups one pass performs.
    pub fn read_samples(self) -> (n: usize)
        ensures
            n == (if self == Profile::Ci {
                512int
            } else {
                20_000
            }),
    {
        match self {
            Profile::Ci => 512,
            _ => 20_000,
        }
    }

    /// Whether a run on this profile may be archived and charted.
    pub fn publishable(self) -> (yes: bool)
        ensures
            yes == (self != Profile::Ci),
    {
        match self {
            Profile::Ci => false,
            _ => true,
        }
    }
}

/// The scenarios a profile walks, by name, in registry order. What `ci` leaves
/// out is the thread ladder.
pub fn scenario_names_for(profile: Profile) -> (out: Vec<String>)
    ensures
        strings(out@) == scenarios_of(profile),
{
    let ladder = match profile {
        Profile::Ci => false,
        _ => true,
    };
    let mut out: Vec<String> = Vec::new();
    out.push("generate".to_owned());
    out.push("open".to_owned());
    out.push("first_lookup".to_owned());
    out.push("decode_root".to_owned());
    out.push("read_plan_order".to_owned());
    out.push("read_tileid_order".to_owned());
    out.push("read_random".to_owned());
    if ladder {
        out.push("read_concurrent@1".to_owned());
        out.push("read_concurrent@2".to_owned());
        out.push("read_concurrent@4".to_owned());
        out.push("read_concurrent@8".to_owned());
    }
    out.push("requests".to_owned());
    assert(strings(out@) =~= scenarios_of(profile));
    out
}

/// The cell a sweep measures through its whole length, as its own noise floor.
/// `ci` has none.
pub fn replicate_cell(profile: Profile) -> (cell: Option<Cell>)
    ensures
        cell == (if profile == Profile::Ci {
            None
        } else {
            Some(control_cell())
        }),
{
    match profile {
        Profile::Ci => None,
        _ => {
            let cells: Vec<Cell> = profile.cells();
            proof {
                law_schedule_alternates(control_cell(), measured(profile));
                assert(cells@[2 * 0int] == control_cell());
            }
            Some(cells[0])
        },
    }
}

/// The tile counts of the square canvases that a profile declares.
proof fn lemma_square_counts()
    ensures
        planned_count(2048, 2048, 256) == 93,
        planned_count(8192, 8192, 256) == 1373,
        planned_count(16384, 16384, 256) == 5469,
        planned_count(8192, 8192, 64) == 21851,
{
    lemma_square_count(1, 256, 1, 0);
    lemma_square_count(2, 256, 1, 1);
    lemma_square_count(4, 256, 1, 2);
    lemma_square_count(8, 256, 1, 3);
    lemma_square_count(16, 256, 1, 4);
    lemma_square_count(32, 256, 1, 5);
    lemma_square_count(64, 256, 1, 6);
    lemma_square_count(128, 256, 1, 7);
    lemma_square_count(256, 256, 1, 8);
    lemma_square_count(512, 256, 2, 9);
    lemma_square_count(1024, 256, 4, 13);
    lemma_square_count(2048, 256, 8, 29);
    lemma_square_count(4096, 256, 16, 93);
    lemma_square_count(8192, 256, 32, 349);
    lemma_square_count(16384, 256, 64, 1373);
    lemma_square_count(1, 64, 1, 0);
    lemma_square_count(2, 64, 1, 1);
    lemma_square_count(4, 64, 1, 2);
    lemma_square_count(8, 64, 1, 3);
    lemma_square_count(16, 64, 1, 4);
    lemma_square_count(32, 64, 1, 5);
    lemma_square_count(64, 64, 1, 6);
    lemma_square_count(128, 64, 2, 7);
    lemma_square_count(256, 64, 4, 11);
    lemma_square_count(512, 64, 8, 27);
    lemma_square_count(1024, 64, 16, 91);
    lemma_square_count(2048, 64, 32, 347);
    lemma_square_count(4096, 64, 64, 1371);
    lemma_square_count(8192, 64, 128, 5467);
}

/// Every cell that a profile walks declares the tiles that the planner lays out
/// for it.
pub proof fn law_cells_declare_their_plan(p: Profile, i: int)
    requires
        0 <= i < measured(p).len(),
    ensures
        cell_tiles(measured(p)[i]) is Some,
        measured(p)[i].declared_tiles == declared(cell_tiles(measured(p)[i])->0),
        cell_tiles(control_cell()) == Some(control_cell().declared_tiles as nat),
{
    lemma_square_counts();
}

/// What shape of directory a cell is supposed to come out as.
#[derive(Debug, Clone, Copy, PartialEq, Eq, Structural)]
pub enum Regime {
    /// Every entry lives in a flat root and there are no leaf directories.
    Root,
    /// The entries spilled past the cutoff, so the root is a handful of leaf
    /// pointers and every lookup goes through a leaf.
    Leaves,
}

/// How many pixels a source runs for before it repeats on both axes. The three
/// moduli of the gradient are prime, so it repeats after their product.
pub open spec fn period_of(source: Source) -> Option<nat> {
    match source {
        Source::Gradient => Some(14_457_349),
        Source::PeriodicGradient => Some(256),
        Source::Flat => Some(1),
        Source::Noise => None,
    }
}

/// How many pixels a source runs for before it repeats on both axes, when it
/// repeats at all.
pub fn period_px(source: Source) -> (period: Option<u32>)
    ensures
        period is Some <==> period_of(source) is Some,
        period is Some ==> period->0 == period_of(source)->0 && period->0 > 0,
{
    match source {
        Source::Gradient => Some(14_457_349),
        Source::PeriodicGradient => Some(256),
        Source::Flat => Some(1),
        Source::Noise => None,
    }
}

/// Whether a tile is a whole number of its source's periods wide.
pub open spec fn is_collapsing(source: Source, tile_px: u32) -> bool {
    period_of(source) matches Some(period) && tile_px as nat % period == 0
}

/// Whether a tile size makes every tile of a level byte-identical for this
/// source.
pub fn collapses_at(source: Source, tile_px: u32) -> (yes: bool)
    ensures
        yes == is_collapsing(source, tile_px),
{
    match period_px(source) {
        Some(period) => tile_px % period == 0,
        None => false,
    }
}

/// Why a cell's shape does not survive its source.
pub open spec fn collapse_text(cell: Cell) -> Seq<char> {
    cell_text(cell) + " fills a "@ + decimal(cell.tile_px as nat)
        + " pixel tile from a source whose period is "@ + decimal(period_of(cell.source)->0)
        + " pixels on both axes, so every tile of a level is the same bytes and the writer's run-length encoding collapses the level to one entry"@
}

/// Whether a cell's declared shape survives the source it is filled from.
pub fn source_suits_the_cell(cell: &Cell) -> (got: Result<(), String>)
    ensures
        got is Err <==> is_collapsing(cell.source, cell.tile_px),
        got is Err ==> got->Err_0@ == collapse_text(*cell),
{
    match period_px(cell.source) {
        Some(period) => if collapses_at(cell.source, cell.tile_px) {
            let mut out: String = concat3(
                cell.spec().as_str(),
                " fills a ",
                decimal_text(cell.tile_px as u128).as_str(),
            );
            out.append(" pixel tile from a source whose period is ");
            out.append(decimal_text(period as u128).as_str());
            out.append(
                " pixels on both axes, so every tile of a level is the same bytes and the writer's run-length encoding collapses the level to one entry",
            );
            Err(out)
        } else {
            Ok(())
        },
        None => Ok(()),
    }
}

/// The gradient never collapses at a tile size that any sweep uses, and the
/// positive control collapses wherever 256 divides the tile.
pub proof fn law_gradient_never_collapses(tile_px: u32)
    requires
        0 < tile_px < 14_457_349,
    ensures
        !is_collapsing(Source::Gradient, tile_px),
        !is_collapsing(Source::Noise, tile_px),
        is_collapsing(Source::PeriodicGradient, tile_px) <==> tile_px % 256 == 0,
        is_collapsing(Source::Flat, tile_px),
{
}

/// The cells whose source may be published, in their order.
pub open spec fn published(cells: Seq<Cell>) -> Seq<Cell> {
    cells.filter(|c: Cell| is_published(c.source))
}

/// The cells a sweep may publish rows for.
pub fn publishable(cells: &[Cell]) -> (out: Vec<Cell>)
    ensures
        out@ == published(cells@),
{
    let mut out: Vec<Cell> = Vec::new();
    let mut i: usize = 0;
    let ghost keep = |c: Cell| is_published(c.source);
    assert(cells@.take(0).filter(keep) =~= Seq::<Cell>::empty()) by {
        reveal(Seq::filter);
    }
    while i < cells.len()
        invariant
            i <= cells@.len(),
            keep == (|c: Cell| is_published(c.source)),
            out@ == cells@.take(i as int).filter(keep),
        decreases cells@.len() - i,
    {
        assert(cells@.take(i + 1).drop_last() =~= cells@.take(i as int));
        assert(cells@.take(i + 1).filter(keep) == (if keep(cells@[i as int]) {
            cells@.take(i as int).filter(keep).push(cells@[i as int])
        } else {
            cells@.take(i as int).filter(keep)
        })) by {
            reveal(Seq::filter);
        }
        if cells[i].source.publishable() {
            out.push(cells[i]);
        }
        i = i + 1;
    }
    assert(cells@.take(i as int) =~= cells@);
    out
}

/// What a root holds, from which of its entries are leaf pointers: how many
/// entries, and how many of those.
pub fn root_shape(leaf_flags: &[bool]) -> (shape: (u64, u64))
    ensures
        shape.0 == leaf_flags@.len(),
        shape.1 == leaf_flags@.filter(|leaf: bool| leaf).len(),
{
    let mut leaves: u64 = 0;
    let mut i: usize = 0;
    let ghost keep = |leaf: bool| leaf;
    assert(leaf_flags@.take(0).filter(keep) =~= Seq::<bool>::empty()) by {
        reveal(Seq::filter);
    }
    while i < leaf_flags.len()
        invariant
            i <= leaf_flags@.len(),
            keep == (|leaf: bool| leaf),
            leaves <= i,
            leaves == leaf_flags@.take(i as int).filter(keep).len(),
        decreases leaf_flags@.len() - i,
    {
        assert(leaf_flags@.take(i + 1).drop_last() =~= leaf_flags@.take(i as int));
        assert(leaf_flags@.take(i + 1).filter(keep) == (if leaf_flags@[i as int] {
            leaf_flags@.take(i as int).filter(keep).push(leaf_flags@[i as int])
        } else {
            leaf_flags@.take(i as int).filter(keep)
        })) by {
            reveal(Seq::filter);
        }
        if leaf_flags[i] {
            leaves = leaves + 1;
        }
        i = i + 1;
    }
    assert(leaf_flags@.take(i as int) =~= leaf_flags@);
    (leaf_flags.len() as u64, leaves)
}

/// Which regime an archive is actually in, from its root shape.
pub fn observed_regime(shape: (u64, u64)) -> (regime: Regime)
    ensures
        regime == (if shape.1 == 0 {
            Regime::Root
        } else {
            Regime::Leaves
        }),
{
    if shape.1 == 0 {
        Regime::Root
    } else {
        Regime::Leaves
    }
}

} // verus!
