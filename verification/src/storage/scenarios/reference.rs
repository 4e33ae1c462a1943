//! The reference scenarios: one generation and the passes over coordinates.

use crate::storage::cells::Profile;
use crate::storage::plan::{PyramidPlan, TileCoord};
use crate::storage::scenarios::facts::{
    blank_facts, fresh_info, fresh_model, info_models, is_series, is_written, no_facts, pass_info,
    pass_model, skip_view, write_fault_text, written_facts, Artefact, Direction, InfoModel,
    MetricSpec, RepFacts, RepKind, RowOutcome, ScenarioInfo, ScenarioRun, Series, Skip, Unit,
    WriteFault,
};
use crate::storage::scenarios::plan_order::{coordinates as plan_coordinates, first_coords};
use crate::storage::scenarios::tileid_order::{by_tile_id, law_tile_id_order_sorts, sort_by_tile_id};
use crate::storage::splitmix::{law_shuffle_keeps_items, shuffle, shuffled};
use crate::storage::stats::{tail_kind, TailKind, P99_MIN_SAMPLES};
use crate::text::concat2;
use vstd::prelude::*;

verus! {

/// Write the pyramid, measure the write, and record what it cost on disk.
#[derive(Debug, Clone, Copy)]
pub struct Generate;

/// What `generate` declares.
pub open spec fn generate_model() -> InfoModel {
    fresh_model("generate"@, "wall"@, Unit::Milliseconds, RepKind::Generate, false)
}

impl Generate {
    /// What the scenario declares.
    pub fn info(&self) -> (info: ScenarioInfo)
        ensures
            info@ == generate_model(),
    {
        fresh_info("generate", "wall", Unit::Milliseconds, RepKind::Generate, false)
    }
}

/// Which order a pass walks its coordinates in.
#[derive(Debug, Clone, Copy, PartialEq, Eq, Structural)]
pub enum Order {
    /// Level, row, column.
    Plan,
    /// The archive's own byte order.
    TileId,
    /// Seeded shuffle.
    Random,
}

/// One pass over the coordinates, repeated, with a discarded warm-up in front.
#[derive(Debug, Clone, Copy)]
pub struct ReadPass {
    name: &'static str,
    order: Order,
}

/// The name of the pass in an order.
pub open spec fn pass_name(order: Order) -> Seq<char> {
    match order {
        Order::Plan => "read_plan_order"@,
        Order::TileId => "read_tileid_order"@,
        Order::Random => "read_random"@,
    }
}

/// The coordinates that a cell's read scenarios walk: the same tiles in three
/// orders.
#[derive(Debug)]
pub struct Coordinates {
    pub plan_order: Vec<TileCoord>,
    pub tileid_order: Vec<TileCoord>,
    pub random: Vec<TileCoord>,
    /// A coordinate that the root addresses.
    pub root_addressed: Option<TileCoord>,
    /// A coordinate that a leaf addresses.
    pub leaf_addressed: Option<TileCoord>,
}

impl ReadPass {
    /// The order that the pass walks in.
    pub closed spec fn order_of(self) -> Order {
        self.order
    }

    /// Whether the pass is named after its order.
    pub closed spec fn well_named(self) -> bool {
        self.name@ == pass_name(self.order)
    }

    pub fn plan_order() -> (pass: ReadPass)
        ensures
            pass.order_of() == Order::Plan,
            pass.well_named(),
    {
        ReadPass { name: "read_plan_order", order: Order::Plan }
    }

    pub fn tileid_order() -> (pass: ReadPass)
        ensures
            pass.order_of() == Order::TileId,
            pass.well_named(),
    {
        ReadPass { name: "read_tileid_order", order: Order::TileId }
    }

    pub fn random() -> (pass: ReadPass)
        ensures
            pass.order_of() == Order::Random,
            pass.well_named(),
    {
        ReadPass { name: "read_random", order: Order::Random }
    }

    /// What the scenario declares.
    pub fn info(&self) -> (info: ScenarioInfo)
        requires
            self.well_named(),
        ensures
            info@ == pass_model(
                pass_name(self.order_of()),
                "p50"@,
                Unit::Microseconds,
                Direction::LowerIsBetter,
            ),
    {
        pass_info(self.name.to_owned(), "p50", Unit::Microseconds, Direction::LowerIsBetter)
    }

    /// The coordinates in the order that the pass walks.
    pub fn coords<'a>(&self, sets: &'a Coordinates) -> (out: &'a Vec<TileCoord>)
        ensures
            *out == (match self.order_of() {
                Order::Plan => sets.plan_order,
                Order::TileId => sets.tileid_order,
                Order::Random => sets.random,
            }),
    {
        match self.order {
            Order::Plan => &sets.plan_order,
            Order::TileId => &sets.tileid_order,
            Order::Random => &sets.random,
        }
    }
}

/// Every reference scenario, in sweep order.
pub fn all() -> (out: Vec<ScenarioInfo>)
    ensures
        info_models(out@) == seq![
            generate_model(),
            pass_model(
                "read_plan_order"@,
                "p50"@,
                Unit::Microseconds,
                Direction::LowerIsBetter,
            ),
            pass_model("read_random"@, "p50"@, Unit::Microseconds, Direction::LowerIsBetter),
        ],
{
    let mut out: Vec<ScenarioInfo> = Vec::new();
    out.push(Generate.info());
    out.push(ReadPass::plan_order().info());
    out.push(ReadPass::random().info());
    assert(info_models(out@) =~= seq![
        generate_model(),
        pass_model("read_plan_order"@, "p50"@, Unit::Microseconds, Direction::LowerIsBetter),
        pass_model("read_random"@, "p50"@, Unit::Microseconds, Direction::LowerIsBetter),
    ]);
    out
}

/// The tail series of a pass, named for what it is.
pub fn tail_metric(kind: Option<TailKind>) -> (metric: MetricSpec)
    ensures
        metric.name@ == (if kind == Some(TailKind::P99) {
            "p99"@
        } else {
            "max"@
        }),
        metric.unit == Unit::Microseconds,
        metric.direction == Direction::LowerIsBetter,
{
    let name: &'static str = match kind {
        Some(TailKind::P99) => "p99",
        _ => "max",
    };
    MetricSpec { name, unit: Unit::Microseconds, direction: Direction::LowerIsBetter }
}

/// Whether these are the first `n` coordinates of a plan, or all of them where
/// they are fewer, in three orders.
pub open spec fn are_orders(sets: Coordinates, plan: PyramidPlan, n: int, seed: u64) -> bool {
    let coords = first_coords(plan.levels@, n);
    &&& sets.plan_order@ == coords
    &&& sets.tileid_order@ == by_tile_id(coords)
    &&& sets.random@ == shuffled(coords, seed)
    &&& sets.root_addressed == (if coords.len() > 0 {
        Some(coords[0])
    } else {
        None
    })
    &&& sets.leaf_addressed is None
}

/// Build the coordinate sets that one cell's read scenarios walk: the same
/// coordinates in three orders, as many as the profile takes.
pub fn coordinate_sets(plan: &PyramidPlan, profile: Profile, seed: u64) -> (sets: Coordinates)
    ensures
        are_orders(
            sets,
            *plan,
            if profile == Profile::Ci {
                512
            } else {
                20_000
            },
            seed,
        ),
{
    three_orders(plan, profile.read_samples(), seed)
}

/// The first `n` coordinates of a plan, or all of them where they are fewer, in
/// three orders.
pub fn three_orders(plan: &PyramidPlan, n: usize, seed: u64) -> (sets: Coordinates)
    ensures
        are_orders(sets, *plan, n as int, seed),
{
    let plan_order: Vec<TileCoord> = plan_coordinates(plan, n);
    let tileid_order: Vec<TileCoord> = sort_by_tile_id(&plan_order);
    let random: Vec<TileCoord> = shuffle(&plan_order, seed);
    let root_addressed: Option<TileCoord> = if plan_order.len() > 0 {
        Some(plan_order[0])
    } else {
        None
    };
    Coordinates { plan_order, tileid_order, random, root_addressed, leaf_addressed: None }
}

/// The three orders walk the same tiles, each as often, so that a difference
/// between their rows is about order and nothing else.
pub proof fn law_orders_walk_the_same_tiles(coords: Seq<TileCoord>, seed: u64)
    ensures
        by_tile_id(coords).to_multiset() == coords.to_multiset(),
        shuffled(coords, seed).to_multiset() == coords.to_multiset(),
{
    law_tile_id_order_sorts(coords);
    law_shuffle_keeps_items(coords, seed);
}

/// One repetition of `generate`. The wall and the rate are the bits of floats;
/// the rate is missing where the wall was no measurable time.
#[derive(Debug)]
pub struct GeneratedRep {
    pub wall: u64,
    pub rate: Option<u64>,
    pub artefact: Artefact,
}

/// Why the repetitions of `generate` came to nothing, from the `i`-th on.
pub open spec fn generate_fault(reps: Seq<Result<GeneratedRep, WriteFault>>, i: int) -> Option<
    Seq<char>,
>
    decreases reps.len() - i,
{
    if 0 <= i < reps.len() {
        match reps[i] {
            Err(e) => Some(write_fault_text(e)),
            Ok(_) => generate_fault(reps, i + 1),
        }
    } else {
        None
    }
}

/// Whether every repetition has a rate.
pub open spec fn all_rated(reps: Seq<Result<GeneratedRep, WriteFault>>) -> bool {
    forall|i: int| 0 <= i < reps.len() ==> (#[trigger] reps[i])->Ok_0.rate is Some
}

/// Whether a run is what these repetitions came to.
pub open spec fn is_generate_run(
    run: ScenarioRun,
    reps: Seq<Result<GeneratedRep, WriteFault>>,
) -> bool {
    &&& run.series@.len() == (if all_rated(reps) {
        2nat
    } else {
        1nat
    })
    &&& is_series(
        run.series@[0],
        "wall"@,
        Unit::Milliseconds,
        Direction::LowerIsBetter,
        Seq::new(reps.len(), |i: int| reps[i]->Ok_0.wall),
    )
    &&& all_rated(reps) ==> is_series(
        run.series@[1],
        "tiles_per_s"@,
        Unit::PerSecond,
        Direction::HigherIsBetter,
        Seq::new(reps.len(), |i: int| reps[i]->Ok_0.rate->0),
    )
    &&& run.reps@.len() == reps.len()
    &&& forall|i: int|
        0 <= i < reps.len() ==> is_written(#[trigger] run.reps@[i], reps[i]->Ok_0.artefact)
    &&& run.discarded_warmup@.len() == 0
    &&& run.peak_rss_bytes is None
    &&& run.heap_peak_bytes is None
}

impl Generate {
    /// What the repetitions come to. The first one that wrote nothing decides.
    pub fn run(&self, plans: bool, reps: Vec<Result<GeneratedRep, WriteFault>>) -> (got: Result<
        ScenarioRun,
        Skip,
    >)
        ensures
            got is Ok <==> plans && generate_fault(reps@, 0) is None,
            !plans ==> skip_view(got->Err_0) == (RowOutcome::Failed, "the cell does not plan"@),
            plans && got is Err ==> skip_view(got->Err_0) == (
                RowOutcome::Failed,
                generate_fault(reps@, 0)->0,
            ),
            got is Ok ==> is_generate_run(got->Ok_0, reps@),
    {
        if !plans {
            return Err(Skip::failed("the cell does not plan".to_owned()));
        }
        let ghost all = reps@;
        let mut wall: Vec<u64> = Vec::new();
        let mut rate: Vec<u64> = Vec::new();
        let mut facts: Vec<RepFacts> = Vec::new();
        let mut rated = true;
        let ghost mut n: int = 0;
        for rep in it: reps
            invariant
                plans,
                it.seq() == all,
                n == it.index(),
                generate_fault(all, 0) == generate_fault(all, n),
                wall@.len() == n && facts@.len() == n,
                forall|k: int| 0 <= k < n ==> #[trigger] wall@[k] == all[k]->Ok_0.wall,
                forall|k: int|
                    0 <= k < n ==> is_written(#[trigger] facts@[k], all[k]->Ok_0.artefact),
                rated <==> forall|k: int|
                    0 <= k < n ==> (#[trigger] all[k])->Ok_0.rate is Some,
                rated ==> rate@.len() == n,
                rated ==> forall|k: int|
                    0 <= k < n ==> #[trigger] rate@[k] == all[k]->Ok_0.rate->0,
        {
            assert(rep == all[n]);
            match rep {
                Err(e) => {
                    return Err(e.skip());
                },
                Ok(r) => {
                    wall.push(r.wall);
                    match r.rate {
                        Some(v) => {
                            rate.push(v);
                        },
                        None => {
                            assert(all[n]->Ok_0.rate is None);
                            rated = false;
                        },
                    }
                    facts.push(written_facts(r.artefact));
                },
            }
            proof {
                n = n + 1;
            }
        }
        assert(wall@ =~= Seq::new(all.len(), |i: int| all[i]->Ok_0.wall));
        let mut series: Vec<Series> = Vec::new();
        series.push(
            Series {
                metric: MetricSpec {
                    name: "wall",
                    unit: Unit::Milliseconds,
                    direction: Direction::LowerIsBetter,
                },
                samples: wall,
            },
        );
        if rated {
            assert(rate@ =~= Seq::new(all.len(), |i: int| all[i]->Ok_0.rate->0));
            series.push(
                Series {
                    metric: MetricSpec {
                        name: "tiles_per_s",
                        unit: Unit::PerSecond,
                        direction: Direction::HigherIsBetter,
                    },
                    samples: rate,
                },
            );
        }
        Ok(
            ScenarioRun {
                series,
                reps: facts,
                discarded_warmup: Vec::new(),
                peak_rss_bytes: None,
                heap_peak_bytes: None,
            },
        )
    }
}

/// What one pass over the coordinates came to, as the bits of floats. The
/// median and the tail are missing where no lookup was timed, the rate where
/// the pass took no measurable time.
#[derive(Debug, Clone, Copy)]
pub struct PassFigures {
    pub p50: Option<u64>,
    pub tail: Option<u64>,
    pub rate: Option<u64>,
}

/// Why a pass that is thrown away ends the scenario.
pub open spec fn warmup_fault(passes: Seq<Result<PassFigures, String>>, i: int) -> Option<Seq<char>>
    decreases passes.len() - i,
{
    if 0 <= i < passes.len() {
        match passes[i] {
            Err(e) => Some("a lookup failed: "@ + e@),
            Ok(_) => warmup_fault(passes, i + 1),
        }
    } else {
        None
    }
}

/// Why a timed pass ends the scenario.
pub open spec fn pass_fault(passes: Seq<Result<PassFigures, String>>, i: int) -> Option<Seq<char>>
    decreases passes.len() - i,
{
    if 0 <= i < passes.len() {
        match passes[i] {
            Err(e) => Some("a lookup failed: "@ + e@),
            Ok(p) => if p.p50 is None || p.tail is None {
                Some("a pass produced no latencies"@)
            } else {
                pass_fault(passes, i + 1)
            },
        }
    } else {
        None
    }
}

/// Why a read scenario did not come about, if it did not.
pub open spec fn read_skip(
    empty: bool,
    opened: Result<(), String>,
    warmups: Seq<Result<PassFigures, String>>,
    passes: Seq<Result<PassFigures, String>>,
) -> Option<(RowOutcome, Seq<char>)> {
    if empty {
        Some((RowOutcome::Skipped, "the cell has no coordinates to walk"@))
    } else {
        match opened {
            Err(e) => Some((RowOutcome::Failed, e@)),
            Ok(_) => match (warmup_fault(warmups, 0), pass_fault(passes, 0)) {
                (Some(reason), _) => Some((RowOutcome::Failed, reason)),
                (None, Some(reason)) => Some((RowOutcome::Failed, reason)),
                (None, None) => None,
            },
        }
    }
}

/// The medians of the first `n` passes that were thrown away.
pub open spec fn thrown_away(warmups: Seq<Result<PassFigures, String>>, n: int) -> Seq<u64>
    decreases n,
{
    if n <= 0 {
        Seq::empty()
    } else {
        match warmups[n - 1]->Ok_0.p50 {
            Some(p50) => thrown_away(warmups, n - 1).push(p50),
            None => thrown_away(warmups, n - 1),
        }
    }
}

/// Whether every pass has a rate.
pub open spec fn all_paced(passes: Seq<Result<PassFigures, String>>) -> bool {
    forall|i: int| 0 <= i < passes.len() ==> (#[trigger] passes[i])->Ok_0.rate is Some
}

/// Whether a run is what these passes came to.
pub open spec fn is_read_run(
    run: ScenarioRun,
    lookups: nat,
    warmups: Seq<Result<PassFigures, String>>,
    passes: Seq<Result<PassFigures, String>>,
) -> bool {
    &&& run.series@.len() == (if all_paced(passes) {
        3nat
    } else {
        2nat
    })
    &&& is_series(
        run.series@[0],
        "p50"@,
        Unit::Microseconds,
        Direction::LowerIsBetter,
        Seq::new(passes.len(), |i: int| passes[i]->Ok_0.p50->0),
    )
    &&& is_series(
        run.series@[1],
        if lookups >= P99_MIN_SAMPLES {
            "p99"@
        } else {
            "max"@
        },
        Unit::Microseconds,
        Direction::LowerIsBetter,
        Seq::new(passes.len(), |i: int| passes[i]->Ok_0.tail->0),
    )
    &&& all_paced(passes) ==> is_series(
        run.series@[2],
        "lookups_per_s"@,
        Unit::PerSecond,
        Direction::HigherIsBetter,
        Seq::new(passes.len(), |i: int| passes[i]->Ok_0.rate->0),
    )
    &&& no_facts(run.reps@, passes.len())
    &&& run.discarded_warmup@ == thrown_away(warmups, warmups.len() as int)
    &&& run.peak_rss_bytes is None
    &&& run.heap_peak_bytes is None
}

/// The medians of the passes that were thrown away, or the first failure.
fn discard(warmups: &Vec<Result<PassFigures, String>>) -> (got: Result<Vec<u64>, Skip>)
    ensures
        got is Ok <==> warmup_fault(warmups@, 0) is None,
        got is Ok ==> got->Ok_0@ == thrown_away(warmups@, warmups@.len() as int),
        got is Err ==> skip_view(got->Err_0) == (
            RowOutcome::Failed,
            warmup_fault(warmups@, 0)->0,
        ),
{
    let mut out: Vec<u64> = Vec::new();
    let mut i: usize = 0;
    while i < warmups.len()
        invariant
            i <= warmups@.len(),
            warmup_fault(warmups@, 0) == warmup_fault(warmups@, i as int),
            out@ == thrown_away(warmups@, i as int),
        decreases warmups@.len() - i,
    {
        match &warmups[i] {
            Err(e) => {
                return Err(Skip::failed(concat2("a lookup failed: ", e.as_str())));
            },
            Ok(p) => {
                if let Some(p50) = p.p50 {
                    out.push(p50);
                }
            },
        }
        i = i + 1;
    }
    Ok(out)
}

impl ReadPass {
    /// What the passes come to: a warm-up that is thrown away, then one sample
    /// of each series per timed pass. The first failure decides.
    pub fn run(
        &self,
        sets: &Coordinates,
        opened: Result<(), String>,
        warmups: &Vec<Result<PassFigures, String>>,
        passes: &Vec<Result<PassFigures, String>>,
    ) -> (got: Result<ScenarioRun, Skip>)
        ensures
            ({
                let lookups = (match self.order_of() {
                    Order::Plan => sets.plan_order,
                    Order::TileId => sets.tileid_order,
                    Order::Random => sets.random,
                })@.len();
                let skip = read_skip(lookups == 0, opened, warmups@, passes@);
                &&& got is Ok <==> skip is None
                &&& got is Err ==> skip_view(got->Err_0) == skip->0
                &&& got is Ok ==> is_read_run(got->Ok_0, lookups, warmups@, passes@)
            }),
    {
        if self.coords(sets).len() == 0 {
            return Err(Skip::skipped("the cell has no coordinates to walk".to_owned()));
        }
        if let Err(e) = opened {
            return Err(Skip::failed(e));
        }
        let discarded: Vec<u64> = match discard(warmups) {
            Ok(d) => d,
            Err(skip) => {
                return Err(skip);
            },
        };
        let ghost all = passes@;
        let mut p50s: Vec<u64> = Vec::new();
        let mut tails: Vec<u64> = Vec::new();
        let mut rates: Vec<u64> = Vec::new();
        let mut paced = true;
        let mut i: usize = 0;
        while i < passes.len()
            invariant
                i <= passes@.len(),
                all == passes@,
                pass_fault(all, 0) == pass_fault(all, i as int),
                warmup_fault(warmups@, 0) is None,
                opened is Ok,
                p50s@.len() == i && tails@.len() == i,
                forall|k: int| 0 <= k < i ==> #[trigger] p50s@[k] == all[k]->Ok_0.p50->0,
                forall|k: int| 0 <= k < i ==> #[trigger] tails@[k] == all[k]->Ok_0.tail->0,
                paced <==> forall|k: int|
                    0 <= k < i ==> (#[trigger] all[k])->Ok_0.rate is Some,
                paced ==> rates@.len() == i,
                paced ==> forall|k: int|
                    0 <= k < i ==> #[trigger] rates@[k] == all[k]->Ok_0.rate->0,
                self.order_of() == Order::Plan ==> sets.plan_order@.len() > 0,
                self.order_of() == Order::TileId ==> sets.tileid_order@.len() > 0,
                self.order_of() == Order::Random ==> sets.random@.len() > 0,
            decreases passes@.len() - i,
        {
            match &passes[i] {
                Err(e) => {
                    return Err(Skip::failed(concat2("a lookup failed: ", e.as_str())));
                },
                Ok(p) => match (p.p50, p.tail) {
                    (Some(p50), Some(tail)) => {
                        p50s.push(p50);
                        tails.push(tail);
                        match p.rate {
                            Some(rate) => {
                                rates.push(rate);
                            },
                            None => {
                                assert(all[i as int]->Ok_0.rate is None);
                                paced = false;
                            },
                        }
                    },
                    _ => {
                        return Err(Skip::failed("a pass produced no latencies".to_owned()));
                    },
                },
            }
            i = i + 1;
        }
        assert(p50s@ =~= Seq::new(all.len(), |k: int| all[k]->Ok_0.p50->0));
        assert(tails@ =~= Seq::new(all.len(), |k: int| all[k]->Ok_0.tail->0));
        let mut series: Vec<Series> = Vec::new();
        series.push(
            Series {
                metric: MetricSpec {
                    name: "p50",
                    unit: Unit::Microseconds,
                    direction: Direction::LowerIsBetter,
                },
                samples: p50s,
            },
        );
        series.push(Series { metric: tail_metric(tail_kind(self.coords(sets).len())), samples: tails });
        if paced {
            assert(rates@ =~= Seq::new(all.len(), |k: int| all[k]->Ok_0.rate->0));
            series.push(
                Series {
                    metric: MetricSpec {
                        name: "lookups_per_s",
                        unit: Unit::PerSecond,
                        direction: Direction::HigherIsBetter,
                    },
                    samples: rates,
                },
            );
        }
        Ok(
            ScenarioRun {
                series,
                reps: blank_facts(passes.len()),
                discarded_warmup: discarded,
                peak_rss_bytes: None,
                heap_peak_bytes: None,
            },
        )
    }
}

/// A pass publishes a 99th percentile exactly where it makes a hundred lookups:
/// the tail of any other is its slowest lookup, under the name of what it is.
pub proof fn law_tail_is_named_for_what_it_is(
    run: ScenarioRun,
    lookups: nat,
    warmups: Seq<Result<PassFigures, String>>,
    passes: Seq<Result<PassFigures, String>>,
)
    requires
        is_read_run(run, lookups, warmups, passes),
    ensures
        run.series@[1].metric.name@ == "p99"@ <==> lookups >= 100,
        run.series@[1].metric.name@ == "max"@ <==> lookups < 100,
{
    reveal_strlit("p99");
    reveal_strlit("max");
    assert("p99"@[0] != "max"@[0]);
}

} // verus!
