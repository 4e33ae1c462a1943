//! The two halves of a write: everything up to the last tile, and the finish.
//!
//! Durations are in nanoseconds.

use crate::storage::scenarios::facts::{
    fresh_info, fresh_model, higher_peak, info_models, is_series, is_written, max_peak, skip_view,
    write_fault_text, written_facts, Artefact, Direction, InfoModel, MetricSpec, RepFacts, RepKind,
    RowOutcome, ScenarioInfo, ScenarioRun, Series, Skip, Unit, WriteFault,
};
use crate::text::{concat3, decimal, decimal_text};
use vstd::prelude::*;

verus! {

/// Which half of the write a scenario publishes.
#[derive(Debug, Clone, Copy, PartialEq, Eq, Structural)]
pub enum Phase {
    Ingest,
    Finalize,
}

/// The name of a half, which is that of its scenario.
pub open spec fn phase_name(p: Phase) -> Seq<char> {
    match p {
        Phase::Ingest => "generate_ingest"@,
        Phase::Finalize => "generate_finalize"@,
    }
}

/// What one hand-walked generation cost, phase by phase.
#[derive(Debug)]
pub struct HandWalk {
    /// Everything up to and including the last tile.
    pub ingest: u64,
    /// The finish the engine was not allowed to make.
    pub finalize: u64,
    /// The archive file, or the root of the tree.
    pub output: String,
    pub tiles_produced: u64,
    /// Peak live heap up to the end of ingestion, over the phase's baseline.
    pub ingest_peak_bytes: Option<u64>,
    /// Live heap still held when the last tile was in.
    pub ingest_live_bytes: Option<u64>,
    /// Peak live heap over the whole pass, on the same baseline.
    pub finalize_peak_bytes: Option<u64>,
}

impl Phase {
    /// The name of a half.
    pub fn name(self) -> (out: &'static str)
        ensures
            out@ == phase_name(self),
    {
        match self {
            Phase::Ingest => "generate_ingest",
            Phase::Finalize => "generate_finalize",
        }
    }

    /// How long the half took.
    pub fn wall(self, walked: &HandWalk) -> (ns: u64)
        ensures
            ns == (match self {
                Phase::Ingest => walked.ingest,
                Phase::Finalize => walked.finalize,
            }),
    {
        match self {
            Phase::Ingest => walked.ingest,
            Phase::Finalize => walked.finalize,
        }
    }

    /// The peak heap of the half.
    pub fn heap_peak(self, walked: &HandWalk) -> (bytes: Option<u64>)
        ensures
            bytes == (match self {
                Phase::Ingest => walked.ingest_peak_bytes,
                Phase::Finalize => walked.finalize_peak_bytes,
            }),
    {
        match self {
            Phase::Ingest => walked.ingest_peak_bytes,
            Phase::Finalize => walked.finalize_peak_bytes,
        }
    }

    /// What the scenario of the half declares.
    pub fn info(self) -> (info: ScenarioInfo)
        ensures
            info@ == phase_model(self),
    {
        fresh_info(self.name(), "wall", Unit::Milliseconds, RepKind::Generate, false)
    }
}

/// What the scenario of a half declares.
pub open spec fn phase_model(p: Phase) -> InfoModel {
    fresh_model(phase_name(p), "wall"@, Unit::Milliseconds, RepKind::Generate, false)
}

/// `generate_ingest`: the encode and every tile, with the finish held back.
#[derive(Debug, Clone, Copy)]
pub struct GenerateIngest;

/// `generate_finalize`: the finish on its own, after an ingestion this scenario
/// runs and does not publish.
#[derive(Debug, Clone, Copy)]
pub struct GenerateFinalize;

impl GenerateIngest {
    /// What the scenario declares.
    pub fn info(&self) -> (info: ScenarioInfo)
        ensures
            info@ == phase_model(Phase::Ingest),
    {
        Phase::Ingest.info()
    }
}

impl GenerateFinalize {
    /// What the scenario declares.
    pub fn info(&self) -> (info: ScenarioInfo)
        ensures
            info@ == phase_model(Phase::Finalize),
    {
        Phase::Finalize.info()
    }
}

/// Both halves, in the order they happen.
pub fn all() -> (out: Vec<ScenarioInfo>)
    ensures
        info_models(out@) == seq![phase_model(Phase::Ingest), phase_model(Phase::Finalize)],
{
    let mut out: Vec<ScenarioInfo> = Vec::new();
    out.push(GenerateIngest.info());
    out.push(GenerateFinalize.info());
    assert(info_models(out@) =~= seq![phase_model(Phase::Ingest), phase_model(Phase::Finalize)]);
    out
}

/// Whether the engine asked its sink to finish exactly once. That one time is
/// the boundary between the halves, so without it the ingest is not what it
/// says it is.
pub fn boundary_is_clear(times_asked: u32) -> (got: Result<(), String>)
    ensures
        got is Ok <==> times_asked == 1,
        got is Err ==> got->Err_0@ == "the engine asked the sink to finish "@ + decimal(
            times_asked as nat,
        )
            + " times and this split's phase boundary is the one time it does, so the ingest phase is not what it says it is"@,
{
    if times_asked == 1 {
        Ok(())
    } else {
        Err(
            concat3(
                "the engine asked the sink to finish ",
                decimal_text(times_asked as u128).as_str(),
                " times and this split's phase boundary is the one time it does, so the ingest phase is not what it says it is",
            ),
        )
    }
}

/// One repetition of a half: the walk, the half's wall as the bits of a float in
/// milliseconds, and what is known of the artefact.
#[derive(Debug)]
pub struct WalkedRep {
    pub walk: HandWalk,
    pub wall: u64,
    pub artefact: Artefact,
}

/// Why the repetitions of a half came to nothing, from the `i`-th on.
pub open spec fn walk_fault(reps: Seq<Result<WalkedRep, WriteFault>>, i: int) -> Option<Seq<char>>
    decreases reps.len() - i,
{
    if 0 <= i < reps.len() {
        match reps[i] {
            Err(e) => Some(write_fault_text(e)),
            Ok(_) => walk_fault(reps, i + 1),
        }
    } else {
        None
    }
}

/// The peak heap of a half over a walk.
pub open spec fn peak_of(p: Phase, walk: HandWalk) -> Option<u64> {
    match p {
        Phase::Ingest => walk.ingest_peak_bytes,
        Phase::Finalize => walk.finalize_peak_bytes,
    }
}

/// The highest peak heap of a half over the first `n` repetitions.
pub open spec fn highest_peak(p: Phase, reps: Seq<Result<WalkedRep, WriteFault>>, n: int) -> Option<
    u64,
>
    decreases n,
{
    if n <= 0 {
        None
    } else {
        higher_peak(highest_peak(p, reps, n - 1), peak_of(p, reps[n - 1]->Ok_0.walk))
    }
}

/// Whether a run is what these repetitions of a half came to.
pub open spec fn is_phase_run(
    run: ScenarioRun,
    p: Phase,
    reps: Seq<Result<WalkedRep, WriteFault>>,
) -> bool {
    &&& run.series@.len() == 1
    &&& is_series(
        run.series@[0],
        "wall"@,
        Unit::Milliseconds,
        Direction::LowerIsBetter,
        Seq::new(reps.len(), |i: int| reps[i]->Ok_0.wall),
    )
    &&& run.reps@.len() == reps.len()
    &&& forall|i: int|
        0 <= i < reps.len() ==> is_written(#[trigger] run.reps@[i], reps[i]->Ok_0.artefact)
    &&& run.discarded_warmup@.len() == 0
    &&& run.peak_rss_bytes is None
    &&& run.heap_peak_bytes == highest_peak(p, reps, reps.len() as int)
}

/// What the repetitions of a half come to. The first one that wrote nothing
/// decides.
pub fn run_phase(phase: Phase, plans: bool, reps: Vec<Result<WalkedRep, WriteFault>>) -> (got:
    Result<ScenarioRun, Skip>)
    ensures
        got is Ok <==> plans && walk_fault(reps@, 0) is None,
        !plans ==> skip_view(got->Err_0) == (RowOutcome::Failed, "the cell does not plan"@),
        plans && got is Err ==> skip_view(got->Err_0) == (
            RowOutcome::Failed,
            walk_fault(reps@, 0)->0,
        ),
        got is Ok ==> is_phase_run(got->Ok_0, phase, reps@),
{
    if !plans {
        return Err(Skip::failed("the cell does not plan".to_owned()));
    }
    let ghost all = reps@;
    let mut wall: Vec<u64> = Vec::new();
    let mut facts: Vec<RepFacts> = Vec::new();
    let mut peak: Option<u64> = None;
    let ghost mut n: int = 0;
    for rep in it: reps
        invariant
            plans,
            it.seq() == all,
            n == it.index(),
            walk_fault(all, 0) == walk_fault(all, n),
            wall@.len() == n && facts@.len() == n,
            forall|k: int| 0 <= k < n ==> #[trigger] wall@[k] == all[k]->Ok_0.wall,
            forall|k: int| 0 <= k < n ==> is_written(#[trigger] facts@[k], all[k]->Ok_0.artefact),
            peak == highest_peak(phase, all, n),
    {
        assert(rep == all[n]);
        match rep {
            Err(e) => {
                return Err(e.skip());
            },
            Ok(r) => {
                wall.push(r.wall);
                peak = max_peak(peak, phase.heap_peak(&r.walk));
                facts.push(written_facts(r.artefact));
            },
        }
        proof {
            n = n + 1;
        }
    }
    assert(wall@ =~= Seq::new(all.len(), |i: int| all[i]->Ok_0.wall));
    let mut series: Vec<Series> = Vec::new();
    series.push(
        Series {
            metric: MetricSpec {
                name: "wall",
                unit: Unit::Milliseconds,
                direction: Direction::LowerIsBetter,
            },
            samples: wall,
        },
    );
    Ok(
        ScenarioRun {
            series,
            reps: facts,
            discarded_warmup: Vec::new(),
            peak_rss_bytes: None,
            heap_peak_bytes: peak,
        },
    )
}

} // verus!
