//! The cold open: what it asks the byte source for, and the phases it splits
//! into.
//!
//! Durations are in nanoseconds.

use crate::storage::scenarios::counting::{
    bytes_of, in_bounds, in_section, total_bytes, touching, Request,
};
use crate::storage::plan::TileCoord;
use crate::storage::scenarios::facts::{
    blank_facts, fresh_info, fresh_model, is_blank, is_series, no_facts, skip_view, Direction,
    Invariants, MetricSpec, RepFacts, RepKind, RowOutcome, ScenarioInfo, ScenarioRun, Series, Skip,
    Unit,
};
use crate::text::{concat3, decimal, decimal_text};
use vstd::prelude::*;

verus! {

/// How many phases a cold open goes through, with the lookup that follows.
pub const COLD_PHASE_COUNT: usize = 6;

/// The names of the phases, in the order a reader runs them.
pub open spec fn cold_phase_names() -> Seq<Seq<char>> {
    seq![
        "open_file"@,
        "open_header"@,
        "open_root_fetch"@,
        "open_root_inflate"@,
        "open_root_decode"@,
        "open_lookup"@,
    ]
}

/// The names of the phases, in the order a reader runs them.
pub fn cold_phases() -> (out: Vec<&'static str>)
    ensures
        crate::text::slices(out@) == cold_phase_names(),
{
    let out: Vec<&'static str> = vec![
        "open_file",
        "open_header",
        "open_root_fetch",
        "open_root_inflate",
        "open_root_decode",
        "open_lookup",
    ];
    assert(crate::text::slices(out@) =~= cold_phase_names());
    out
}

/// The smallest root a reconciliation check may be run against. Under it the
/// root stops dominating the open and per-iteration overhead starts to.
pub const MIN_RECONCILABLE_ROOT_ENTRIES: u64 = 1_000;

/// What one open asked the byte source for.
#[derive(Debug)]
pub struct OpenObservation {
    /// Every range the reader fetched while constructing itself, oldest first.
    pub requests: Vec<Request>,
    /// Entries in the root the open decoded, as the archive answers it.
    pub root_entries: u64,
    /// Where the archive's tile data section starts.
    pub tile_data_offset: u64,
    /// How long that section is.
    pub tile_data_length: u64,
}

impl OpenObservation {
    pub fn request_count(&self) -> (n: u64)
        ensures
            n == self.requests@.len(),
    {
        self.requests.len() as u64
    }

    pub fn bytes(&self) -> (n: u64)
        requires
            bytes_of(self.requests@, self.requests@.len() as int) <= u64::MAX,
        ensures
            n == bytes_of(self.requests@, self.requests@.len() as int),
    {
        total_bytes(self.requests.as_slice())
    }

    /// The requests that touched the tile data section, which an open should
    /// have none of.
    pub fn tile_section_requests(&self) -> (out: Vec<Request>)
        requires
            self.tile_data_offset + self.tile_data_length <= u64::MAX,
            forall|i: int|
                0 <= i < self.requests@.len() ==> in_bounds(#[trigger] self.requests@[i]),
        ensures
            out@ == touching(
                self.requests@,
                self.tile_data_offset,
                self.tile_data_length,
                self.requests@.len() as int,
            ),
    {
        in_section(self.requests.as_slice(), self.tile_data_offset, self.tile_data_length)
    }
}

/// What an open cost, from what a counting reader recorded while it was built.
pub fn observe(requests: Vec<Request>, root_entries: u64, tile_data: (u64, u64)) -> (seen:
    OpenObservation)
    ensures
        seen.requests@ == requests@,
        seen.root_entries == root_entries,
        seen.tile_data_offset == tile_data.0,
        seen.tile_data_length == tile_data.1,
{
    OpenObservation {
        requests,
        root_entries,
        tile_data_offset: tile_data.0,
        tile_data_length: tile_data.1,
    }
}

/// Whether an open read the index alone; `Err` says how much of the tile data it
/// fetched.
pub fn index_only(seen: &OpenObservation) -> (got: Result<(), String>)
    requires
        seen.tile_data_offset + seen.tile_data_length <= u64::MAX,
        forall|i: int| 0 <= i < seen.requests@.len() ==> in_bounds(#[trigger] seen.requests@[i]),
    ensures
        ({
            let fetched = touching(
                seen.requests@,
                seen.tile_data_offset,
                seen.tile_data_length,
                seen.requests@.len() as int,
            );
            &&& got is Ok <==> fetched.len() == 0
            &&& got is Err ==> got->Err_0@ == "the open fetched "@ + decimal(fetched.len())
                + " range(s) from the tile data section, so it is not an index-only open"@
        }),
{
    let fetched: Vec<Request> = seen.tile_section_requests();
    if fetched.len() == 0 {
        Ok(())
    } else {
        Err(
            concat3(
                "the open fetched ",
                decimal_text(fetched.len() as u128).as_str(),
                " range(s) from the tile data section, so it is not an index-only open",
            ),
        )
    }
}

/// One iteration of the split, phase by phase.
#[derive(Debug, Clone, Copy)]
pub struct SplitSample {
    pub phases: [u64; 6],
}

/// The phases of an iteration, added up.
pub open spec fn sample_total(s: SplitSample) -> nat {
    (s.phases@[0] + s.phases@[1] + s.phases@[2] + s.phases@[3] + s.phases@[4]
        + s.phases@[5]) as nat
}

impl SplitSample {
    /// The phases, added up.
    pub fn total(&self) -> (n: u128)
        ensures
            n == sample_total(*self),
    {
        self.phases[0] as u128 + self.phases[1] as u128 + self.phases[2] as u128 + self.phases[3]
            as u128 + self.phases[4] as u128 + self.phases[5] as u128
    }
}

/// A pass of the split, and the combined open measured alongside it.
#[derive(Debug)]
pub struct SplitPass {
    pub samples: Vec<SplitSample>,
    /// The same work measured as a single number, which the split has to
    /// reconcile with.
    pub combined: Vec<u64>,
    /// Entries the root held, as the archive answers it.
    pub root_entries: u64,
}

/// One phase of every sample.
pub open spec fn phase_of(samples: Seq<SplitSample>, phase: int) -> Seq<u64> {
    Seq::new(samples.len(), |i: int| samples[i].phases@[phase])
}

impl SplitPass {
    /// One phase of every sample.
    fn phase(&self, phase: usize) -> (out: Vec<u64>)
        requires
            phase < 6,
        ensures
            out@ == phase_of(self.samples@, phase as int),
    {
        let mut out: Vec<u64> = Vec::new();
        let mut i: usize = 0;
        while i < self.samples.len()
            invariant
                i <= self.samples@.len(),
                phase < 6,
                out@.len() == i,
                forall|k: int|
                    0 <= k < i ==> #[trigger] out@[k] == self.samples@[k].phases@[phase as int],
            decreases self.samples@.len() - i,
        {
            out.push(self.samples[i].phases[phase]);
            i = i + 1;
        }
        assert(out@ =~= phase_of(self.samples@, phase as int));
        out
    }

    /// Per-phase samples, in the order of the phases.
    pub fn by_phase(&self) -> (out: Vec<Vec<u64>>)
        ensures
            out@.len() == 6,
            forall|p: int| 0 <= p < 6 ==> (#[trigger] out@[p])@ == phase_of(self.samples@, p),
    {
        let mut out: Vec<Vec<u64>> = Vec::new();
        let mut p: usize = 0;
        while p < 6
            invariant
                p <= 6,
                out@.len() == p,
                forall|q: int| 0 <= q < p ==> (#[trigger] out@[q])@ == phase_of(self.samples@, q),
            decreases 6 - p,
        {
            out.push(self.phase(p));
            p = p + 1;
        }
        out
    }

    /// The total of every sample.
    pub fn totals(&self) -> (out: Vec<u128>)
        ensures
            out@.len() == self.samples@.len(),
            forall|i: int|
                0 <= i < out@.len() ==> #[trigger] out@[i] == sample_total(self.samples@[i]),
    {
        let mut out: Vec<u128> = Vec::new();
        let mut i: usize = 0;
        while i < self.samples.len()
            invariant
                i <= self.samples@.len(),
                out@.len() == i,
                forall|k: int| 0 <= k < i ==> #[trigger] out@[k] == sample_total(self.samples@[k]),
            decreases self.samples@.len() - i,
        {
            out.push(self.samples[i].total());
            i = i + 1;
        }
        out
    }
}

/// Why a root is too small for its split to be checked.
pub open spec fn too_small_text(root_entries: u64) -> Seq<char> {
    "a root of "@ + decimal(root_entries as nat) + " entries is under the "@ + decimal(
        MIN_RECONCILABLE_ROOT_ENTRIES as nat,
    )
        + " this check needs: the whole open there is a few microseconds, per-iteration overhead is a fifth of it, and the split drifts -24% on arm64 and -34% on x86_64 with nothing wrong with it"@
}

/// Whether a cell's root is big enough for a reconciliation check to say
/// anything.
pub fn reconciliation_is_meaningful(root_entries: u64) -> (got: Result<(), String>)
    ensures
        got is Ok <==> root_entries >= MIN_RECONCILABLE_ROOT_ENTRIES,
        got is Err ==> got->Err_0@ == too_small_text(root_entries),
{
    if root_entries >= MIN_RECONCILABLE_ROOT_ENTRIES {
        return Ok(());
    }
    let mut text: String = concat3(
        "a root of ",
        decimal_text(root_entries as u128).as_str(),
        " entries is under the ",
    );
    text.append(decimal_text(MIN_RECONCILABLE_ROOT_ENTRIES as u128).as_str());
    text.append(
        " this check needs: the whole open there is a few microseconds, per-iteration overhead is a fifth of it, and the split drifts -24% on arm64 and -34% on x86_64 with nothing wrong with it",
    );
    Err(text)
}

/// `open`: construct a reader and stop.
#[derive(Debug, Clone, Copy)]
pub struct Open;

/// `first_lookup`: construct a reader and ask it for one tile.
#[derive(Debug, Clone, Copy)]
pub struct FirstLookup;

impl Open {
    /// What the scenario declares.
    pub fn info(&self) -> (info: ScenarioInfo)
        ensures
            info@ == fresh_model("open"@, "p50"@, Unit::Microseconds, RepKind::Read, true),
    {
        fresh_info("open", "p50", Unit::Microseconds, RepKind::Read, true)
    }
}

impl FirstLookup {
    /// What the scenario declares.
    pub fn info(&self) -> (info: ScenarioInfo)
        ensures
            info@ == fresh_model("first_lookup"@, "p50"@, Unit::Microseconds, RepKind::Read, true),
    {
        fresh_info("first_lookup", "p50", Unit::Microseconds, RepKind::Read, true)
    }
}


/// One repetition of `open`: how long it took, as the bits of a float, and on an
/// archive what it asked the byte source for.
#[derive(Debug)]
pub struct OpenRep {
    pub micros: u64,
    pub seen: Option<OpenObservation>,
}

/// Whether an observation's ranges can be added up.
pub open spec fn is_sound(seen: OpenObservation) -> bool {
    &&& seen.tile_data_offset + seen.tile_data_length <= u64::MAX
    &&& forall|i: int|
        0 <= i < seen.requests@.len() ==> in_bounds(#[trigger] seen.requests@[i])
    &&& bytes_of(seen.requests@, seen.requests@.len() as int) <= u64::MAX
}

/// The ranges of an open that lie in the tile data section.
pub open spec fn fetched_tiles(seen: OpenObservation) -> Seq<Request> {
    touching(
        seen.requests@,
        seen.tile_data_offset,
        seen.tile_data_length,
        seen.requests@.len() as int,
    )
}

/// Why the repetitions of `open` came to nothing, from the `i`-th on.
pub open spec fn open_fault(reps: Seq<Result<OpenRep, String>>, i: int) -> Option<Seq<char>>
    decreases reps.len() - i,
{
    if 0 <= i < reps.len() {
        match reps[i] {
            Err(e) => Some(e@),
            Ok(rep) => match rep.seen {
                Some(seen) => if fetched_tiles(seen).len() > 0 {
                    Some(
                        "the open fetched "@ + decimal(fetched_tiles(seen).len())
                            + " range(s) from the tile data section, so it is not an index-only open"@,
                    )
                } else {
                    open_fault(reps, i + 1)
                },
                None => open_fault(reps, i + 1),
            },
        }
    } else {
        None
    }
}

/// Whether a repetition's facts are what its open was seen to ask for.
pub open spec fn is_seen(facts: RepFacts, seen: Option<OpenObservation>) -> bool {
    &&& facts.scratch is None
    &&& match seen {
        None => is_blank(facts.invariants),
        Some(o) => facts.invariants == (Invariants {
            output_bytes: None,
            allocated_bytes: None,
            filesystem_entries: None,
            directories: None,
            tiles_produced: None,
            artefact_digest: None,
            root_entries: Some(o.root_entries),
            leaves: None,
            requests: Some(o.requests@.len() as u64),
            request_bytes: Some(bytes_of(o.requests@, o.requests@.len() as int) as u64),
        }),
    }
}

/// The facts of one open.
fn open_facts(seen: &Option<OpenObservation>) -> (facts: RepFacts)
    requires
        *seen matches Some(o) ==> is_sound(o),
    ensures
        is_seen(facts, *seen),
{
    match seen {
        None => RepFacts { invariants: Invariants::default(), scratch: None },
        Some(o) => RepFacts {
            invariants: Invariants {
                output_bytes: None,
                allocated_bytes: None,
                filesystem_entries: None,
                directories: None,
                tiles_produced: None,
                artefact_digest: None,
                root_entries: Some(o.root_entries),
                leaves: None,
                requests: Some(o.request_count()),
                request_bytes: Some(o.bytes()),
            },
            scratch: None,
        },
    }
}

/// The one series of a run that times opens.
pub open spec fn is_open_run(run: ScenarioRun, micros: Seq<u64>) -> bool {
    &&& run.series@.len() == 1
    &&& is_series(
        run.series@[0],
        "p50"@,
        Unit::Microseconds,
        Direction::LowerIsBetter,
        micros,
    )
    &&& run.discarded_warmup@.len() == 0
    &&& run.peak_rss_bytes is None
    &&& run.heap_peak_bytes is None
}

/// The run of one series of opens.
fn open_run(micros: Vec<u64>, reps: Vec<RepFacts>) -> (run: ScenarioRun)
    ensures
        is_open_run(run, micros@),
        run.reps == reps,
{
    let mut series: Vec<Series> = Vec::new();
    series.push(
        Series {
            metric: MetricSpec {
                name: "p50",
                unit: Unit::Microseconds,
                direction: Direction::LowerIsBetter,
            },
            samples: micros,
        },
    );
    ScenarioRun {
        series,
        reps,
        discarded_warmup: Vec::new(),
        peak_rss_bytes: None,
        heap_peak_bytes: None,
    }
}

impl Open {
    /// What the repetitions come to. An open that fetched tile data is not the
    /// open this scenario is about, and the first failure decides.
    pub fn run(&self, reps: &Vec<Result<OpenRep, String>>) -> (got: Result<ScenarioRun, Skip>)
        requires
            forall|i: int|
                0 <= i < reps@.len() ==> ((#[trigger] reps@[i]) matches Ok(r) ==> (
                r.seen matches Some(o) ==> is_sound(o))),
        ensures
            got is Ok <==> open_fault(reps@, 0) is None,
            got is Err ==> skip_view(got->Err_0) == (RowOutcome::Failed, open_fault(reps@, 0)->0),
            got is Ok ==> is_open_run(
                got->Ok_0,
                Seq::new(reps@.len(), |i: int| reps@[i]->Ok_0.micros),
            ) && got->Ok_0.reps@.len() == reps@.len(),
            got is Ok ==> forall|i: int|
                0 <= i < reps@.len() ==> is_seen(
                    #[trigger] got->Ok_0.reps@[i],
                    reps@[i]->Ok_0.seen,
                ),
    {
        let ghost all = reps@;
        let mut micros: Vec<u64> = Vec::new();
        let mut facts: Vec<RepFacts> = Vec::new();
        let mut i: usize = 0;
        while i < reps.len()
            invariant
                i <= reps@.len(),
                all == reps@,
                forall|k: int|
                    0 <= k < all.len() ==> ((#[trigger] all[k]) matches Ok(r) ==> (
                    r.seen matches Some(o) ==> is_sound(o))),
                open_fault(all, 0) == open_fault(all, i as int),
                micros@.len() == i && facts@.len() == i,
                forall|k: int| 0 <= k < i ==> #[trigger] micros@[k] == all[k]->Ok_0.micros,
                forall|k: int| 0 <= k < i ==> is_seen(#[trigger] facts@[k], all[k]->Ok_0.seen),
            decreases reps@.len() - i,
        {
            assert(all[i as int] == reps@[i as int]);
            match &reps[i] {
                Err(e) => {
                    return Err(Skip::failed(e.clone()));
                },
                Ok(rep) => {
                    if let Some(seen) = &rep.seen {
                        if let Err(reason) = index_only(seen) {
                            return Err(Skip::failed(reason));
                        }
                    }
                    micros.push(rep.micros);
                    facts.push(open_facts(&rep.seen));
                },
            }
            i = i + 1;
        }
        assert(micros@ =~= Seq::new(all.len(), |k: int| all[k]->Ok_0.micros));
        Ok(open_run(micros, facts))
    }
}

/// Why the repetitions of `first_lookup` came to nothing, from the `i`-th on.
pub open spec fn lookup_fault(reps: Seq<Result<u64, String>>, i: int) -> Option<Seq<char>>
    decreases reps.len() - i,
{
    if 0 <= i < reps.len() {
        match reps[i] {
            Err(e) => Some(e@),
            Ok(_) => lookup_fault(reps, i + 1),
        }
    } else {
        None
    }
}

impl FirstLookup {
    /// What the repetitions come to: an open and one lookup each, as the bits of
    /// a float.
    pub fn run(&self, root_addressed: Option<TileCoord>, reps: &Vec<Result<u64, String>>) -> (got:
        Result<ScenarioRun, Skip>)
        ensures
            got is Ok <==> root_addressed is Some && lookup_fault(reps@, 0) is None,
            root_addressed is None ==> skip_view(got->Err_0) == (
                RowOutcome::Skipped,
                "the cell has no root-addressed coordinate"@,
            ),
            root_addressed is Some && got is Err ==> skip_view(got->Err_0) == (
                RowOutcome::Failed,
                lookup_fault(reps@, 0)->0,
            ),
            got is Ok ==> is_open_run(
                got->Ok_0,
                Seq::new(reps@.len(), |i: int| reps@[i]->Ok_0),
            ) && no_facts(got->Ok_0.reps@, reps@.len()),
    {
        if root_addressed.is_none() {
            return Err(Skip::skipped("the cell has no root-addressed coordinate".to_owned()));
        }
        let ghost all = reps@;
        let mut micros: Vec<u64> = Vec::new();
        let mut i: usize = 0;
        while i < reps.len()
            invariant
                i <= reps@.len(),
                all == reps@,
                root_addressed is Some,
                lookup_fault(all, 0) == lookup_fault(all, i as int),
                micros@.len() == i,
                forall|k: int| 0 <= k < i ==> #[trigger] micros@[k] == all[k]->Ok_0,
            decreases reps@.len() - i,
        {
            match &reps[i] {
                Err(e) => {
                    return Err(Skip::failed(e.clone()));
                },
                Ok(m) => {
                    micros.push(*m);
                },
            }
            i = i + 1;
        }
        assert(micros@ =~= Seq::new(all.len(), |k: int| all[k]->Ok_0));
        Ok(open_run(micros, blank_facts(reps.len())))
    }
}

} // verus!
