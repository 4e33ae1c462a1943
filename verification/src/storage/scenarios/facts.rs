//! What a scenario declares about itself and what a run of it reports.
//!
//! A sample is carried as the bits of a 64-bit float. Nothing here computes with
//! it: a sample is copied, counted and passed on.

use crate::text::{concat2, same_text, strings};
use vstd::prelude::*;

verus! {

/// What a metric is counted in.
#[derive(Debug, Clone, Copy, PartialEq, Eq, Structural)]
pub enum Unit {
    Milliseconds,
    Microseconds,
    PerSecond,
    Megabytes,
    PerSecondPerMegabyte,
    MegabyteSecondsPerTile,
    Bytes,
    Ratio,
    Count,
}

/// The name of a unit.
pub open spec fn unit_name(u: Unit) -> Seq<char> {
    match u {
        Unit::Milliseconds => "ms"@,
        Unit::Microseconds => "us"@,
        Unit::PerSecond => "1/s"@,
        Unit::Megabytes => "MB"@,
        Unit::PerSecondPerMegabyte => "1/s/MB"@,
        Unit::MegabyteSecondsPerTile => "MB*s/tile"@,
        Unit::Bytes => "bytes"@,
        Unit::Ratio => "ratio"@,
        Unit::Count => "count"@,
    }
}

/// The unit of a name; a name that is none counts things.
pub open spec fn unit_of(name: Seq<char>) -> Unit {
    if name == "ms"@ {
        Unit::Milliseconds
    } else if name == "us"@ {
        Unit::Microseconds
    } else if name == "1/s"@ {
        Unit::PerSecond
    } else if name == "MB"@ {
        Unit::Megabytes
    } else if name == "1/s/MB"@ {
        Unit::PerSecondPerMegabyte
    } else if name == "MB*s/tile"@ {
        Unit::MegabyteSecondsPerTile
    } else if name == "bytes"@ {
        Unit::Bytes
    } else if name == "ratio"@ {
        Unit::Ratio
    } else {
        Unit::Count
    }
}

/// A unit reads back from its name.
pub proof fn law_unit_reads_back(u: Unit)
    ensures
        unit_of(unit_name(u)) == u,
{
    reveal_strlit("ms");
    reveal_strlit("us");
    reveal_strlit("1/s");
    reveal_strlit("MB");
    reveal_strlit("1/s/MB");
    reveal_strlit("MB*s/tile");
    reveal_strlit("bytes");
    reveal_strlit("ratio");
    reveal_strlit("count");
    assert("ms"@[0] == 'm' && "us"@[0] == 'u' && "MB"@[0] == 'M' && "bytes"@[0] == 'b'
        && "ratio"@[0] == 'r' && "count"@[0] == 'c');
    assert("1/s"@.len() == 3 && "1/s/MB"@.len() == 6 && "MB*s/tile"@.len() == 9 && "MB"@.len()
        == 2 && "1/s"@[0] == '1');
}

impl Unit {
    /// The name of a unit.
    pub fn as_str(self) -> (out: &'static str)
        ensures
            out@ == unit_name(self),
    {
        match self {
            Unit::Milliseconds => "ms",
            Unit::Microseconds => "us",
            Unit::PerSecond => "1/s",
            Unit::Megabytes => "MB",
            Unit::PerSecondPerMegabyte => "1/s/MB",
            Unit::MegabyteSecondsPerTile => "MB*s/tile",
            Unit::Bytes => "bytes",
            Unit::Ratio => "ratio",
            Unit::Count => "count",
        }
    }
}

/// The unit of a name; a name that is none counts things.
pub fn parse_unit(s: &str) -> (u: Unit)
    ensures
        u == unit_of(s@),
{
    if same_text(s, "ms") {
        Unit::Milliseconds
    } else if same_text(s, "us") {
        Unit::Microseconds
    } else if same_text(s, "1/s") {
        Unit::PerSecond
    } else if same_text(s, "MB") {
        Unit::Megabytes
    } else if same_text(s, "1/s/MB") {
        Unit::PerSecondPerMegabyte
    } else if same_text(s, "MB*s/tile") {
        Unit::MegabyteSecondsPerTile
    } else if same_text(s, "bytes") {
        Unit::Bytes
    } else if same_text(s, "ratio") {
        Unit::Ratio
    } else {
        Unit::Count
    }
}

/// Which way a metric improves.
#[derive(Debug, Clone, Copy, PartialEq, Eq, Structural)]
pub enum Direction {
    HigherIsBetter,
    LowerIsBetter,
}

/// The name of a direction.
pub open spec fn direction_name(d: Direction) -> Seq<char> {
    match d {
        Direction::HigherIsBetter => "higher-is-better"@,
        Direction::LowerIsBetter => "lower-is-better"@,
    }
}

/// The direction of a name; a name that is none is lower.
pub open spec fn direction_of(name: Seq<char>) -> Direction {
    if name == "higher-is-better"@ {
        Direction::HigherIsBetter
    } else {
        Direction::LowerIsBetter
    }
}

impl Direction {
    /// The name of a direction.
    pub fn as_str(self) -> (out: &'static str)
        ensures
            out@ == direction_name(self),
    {
        match self {
            Direction::HigherIsBetter => "higher-is-better",
            Direction::LowerIsBetter => "lower-is-better",
        }
    }
}

/// The direction of a name; a name that is none is lower.
pub fn parse_direction(s: &str) -> (d: Direction)
    ensures
        d == direction_of(s@),
{
    if same_text(s, "higher-is-better") {
        Direction::HigherIsBetter
    } else {
        Direction::LowerIsBetter
    }
}

/// A direction reads back from its name.
pub proof fn law_direction_reads_back(d: Direction)
    ensures
        direction_of(direction_name(d)) == d,
{
    reveal_strlit("higher-is-better");
    reveal_strlit("lower-is-better");
    assert("higher-is-better"@.len() == 16 && "lower-is-better"@.len() == 15);
}

/// A metric that a scenario publishes.
#[derive(Debug, Clone, Copy)]
pub struct MetricSpec {
    pub name: &'static str,
    pub unit: Unit,
    pub direction: Direction,
}

/// How the repetitions of a scenario are kept apart.
#[derive(Debug, Clone, Copy, PartialEq, Eq, Structural)]
pub enum Isolation {
    /// Each repetition owns a process.
    ProcessPerRep,
    /// All repetitions share one.
    ProcessPerScenario,
}

/// The name of an isolation.
pub open spec fn isolation_name(i: Isolation) -> Seq<char> {
    match i {
        Isolation::ProcessPerRep => "process-per-rep"@,
        Isolation::ProcessPerScenario => "process-per-scenario"@,
    }
}

impl Isolation {
    /// The name of an isolation.
    pub fn as_str(self) -> (out: &'static str)
        ensures
            out@ == isolation_name(self),
    {
        match self {
            Isolation::ProcessPerRep => "process-per-rep",
            Isolation::ProcessPerScenario => "process-per-scenario",
        }
    }
}

/// The passes a scenario runs and throws away before it measures.
#[derive(Debug, Clone, Copy)]
pub struct Warmup {
    pub policy: &'static str,
    pub passes: u32,
}

/// One pass, thrown away.
pub fn one_discarded_pass() -> (w: Warmup)
    ensures
        w.policy@ == "discard-first-pass"@,
        w.passes == 1,
{
    Warmup { policy: "discard-first-pass", passes: 1 }
}

/// How a row of a document came out.
#[derive(Debug, Clone, Copy, PartialEq, Eq, Structural)]
pub enum RowOutcome {
    /// It was measured.
    Passed,
    /// It was measured, and its own evidence speaks against it.
    Refused,
    /// It could not be measured.
    Failed,
    /// This host declined it.
    Skipped,
}

/// The word a document uses for an outcome.
pub open spec fn outcome_word(o: RowOutcome) -> Seq<char> {
    match o {
        RowOutcome::Passed => "ok"@,
        RowOutcome::Refused => "refused"@,
        RowOutcome::Failed => "failed"@,
        RowOutcome::Skipped => "skipped"@,
    }
}

impl RowOutcome {
    /// The word a document uses for an outcome.
    pub fn as_str(self) -> (out: &'static str)
        ensures
            out@ == outcome_word(self),
    {
        match self {
            RowOutcome::Passed => "ok",
            RowOutcome::Refused => "refused",
            RowOutcome::Failed => "failed",
            RowOutcome::Skipped => "skipped",
        }
    }
}

/// Why a scenario did not run to its end.
#[derive(Debug, Clone)]
pub struct Skip {
    pub outcome: RowOutcome,
    pub reason: String,
}

impl Skip {
    /// It could not be measured.
    pub fn failed(reason: String) -> (skip: Skip)
        ensures
            skip == (Skip { outcome: RowOutcome::Failed, reason }),
    {
        Skip { outcome: RowOutcome::Failed, reason }
    }

    /// This host declined it.
    pub fn skipped(reason: String) -> (skip: Skip)
        ensures
            skip == (Skip { outcome: RowOutcome::Skipped, reason }),
    {
        Skip { outcome: RowOutcome::Skipped, reason }
    }
}

/// The counts that two repetitions of one commit have to agree on.
#[derive(Debug, Clone, Copy, PartialEq, Eq, Structural)]
pub enum Fact {
    OutputBytes,
    AllocatedBytes,
    FilesystemEntries,
    Directories,
    TilesProduced,
    RootEntries,
    Leaves,
    Requests,
    RequestBytes,
}

/// The name of a count.
pub open spec fn fact_name(f: Fact) -> Seq<char> {
    match f {
        Fact::OutputBytes => "output_bytes"@,
        Fact::AllocatedBytes => "allocated_bytes"@,
        Fact::FilesystemEntries => "filesystem_entries"@,
        Fact::Directories => "directories"@,
        Fact::TilesProduced => "tiles_produced"@,
        Fact::RootEntries => "root_entries"@,
        Fact::Leaves => "leaves"@,
        Fact::Requests => "requests"@,
        Fact::RequestBytes => "request_bytes"@,
    }
}

/// What a count counts.
pub open spec fn fact_unit(f: Fact) -> Seq<char> {
    match f {
        Fact::OutputBytes => "bytes"@,
        Fact::AllocatedBytes => "bytes"@,
        Fact::RequestBytes => "bytes"@,
        _ => "count"@,
    }
}

impl Fact {
    /// The name of a count.
    pub fn name(self) -> (out: &'static str)
        ensures
            out@ == fact_name(self),
    {
        match self {
            Fact::OutputBytes => "output_bytes",
            Fact::AllocatedBytes => "allocated_bytes",
            Fact::FilesystemEntries => "filesystem_entries",
            Fact::Directories => "directories",
            Fact::TilesProduced => "tiles_produced",
            Fact::RootEntries => "root_entries",
            Fact::Leaves => "leaves",
            Fact::Requests => "requests",
            Fact::RequestBytes => "request_bytes",
        }
    }

    /// What a count counts.
    pub fn unit(self) -> (out: &'static str)
        ensures
            out@ == fact_unit(self),
    {
        match self {
            Fact::OutputBytes => "bytes",
            Fact::AllocatedBytes => "bytes",
            Fact::RequestBytes => "bytes",
            _ => "count",
        }
    }
}

/// What a repetition observed that has to come out the same every time. A count
/// that was not taken is `None`, never zero.
#[derive(Debug, Clone)]
pub struct Invariants {
    pub output_bytes: Option<u64>,
    pub allocated_bytes: Option<u64>,
    pub filesystem_entries: Option<u64>,
    pub directories: Option<u64>,
    pub tiles_produced: Option<u64>,
    pub artefact_digest: Option<String>,
    pub root_entries: Option<u64>,
    pub leaves: Option<u64>,
    pub requests: Option<u64>,
    pub request_bytes: Option<u64>,
}

/// One count of a repetition.
pub open spec fn fact_of(i: Invariants, f: Fact) -> Option<u64> {
    match f {
        Fact::OutputBytes => i.output_bytes,
        Fact::AllocatedBytes => i.allocated_bytes,
        Fact::FilesystemEntries => i.filesystem_entries,
        Fact::Directories => i.directories,
        Fact::TilesProduced => i.tiles_produced,
        Fact::RootEntries => i.root_entries,
        Fact::Leaves => i.leaves,
        Fact::Requests => i.requests,
        Fact::RequestBytes => i.request_bytes,
    }
}

/// The digest of what a repetition wrote.
pub open spec fn digest_in(i: Invariants) -> Option<Seq<char>> {
    match i.artefact_digest {
        Some(d) => Some(d@),
        None => None,
    }
}

/// Whether nothing was observed.
pub open spec fn is_blank(i: Invariants) -> bool {
    (forall|f: Fact| #[trigger] fact_of(i, f) is None) && digest_in(i) is None
}

impl Invariants {
    /// One count of a repetition.
    pub fn fact(&self, f: Fact) -> (v: Option<u64>)
        ensures
            v == fact_of(*self, f),
    {
        match f {
            Fact::OutputBytes => self.output_bytes,
            Fact::AllocatedBytes => self.allocated_bytes,
            Fact::FilesystemEntries => self.filesystem_entries,
            Fact::Directories => self.directories,
            Fact::TilesProduced => self.tiles_produced,
            Fact::RootEntries => self.root_entries,
            Fact::Leaves => self.leaves,
            Fact::Requests => self.requests,
            Fact::RequestBytes => self.request_bytes,
        }
    }
}

impl Default for Invariants {
    fn default() -> (i: Invariants)
        ensures
            is_blank(i),
    {
        Invariants {
            output_bytes: None,
            allocated_bytes: None,
            filesystem_entries: None,
            directories: None,
            tiles_produced: None,
            artefact_digest: None,
            root_entries: None,
            leaves: None,
            requests: None,
            request_bytes: None,
        }
    }
}

/// What one repetition left behind.
#[derive(Debug, Clone)]
pub struct RepFacts {
    pub invariants: Invariants,
    /// The scratch directory it wrote into, which is never used twice.
    pub scratch: Option<String>,
}

/// The samples of one metric, one per repetition, as the bits of floats.
#[derive(Debug, Clone)]
pub struct Series {
    pub metric: MetricSpec,
    pub samples: Vec<u64>,
}

/// What a scenario measured.
#[derive(Debug, Clone)]
pub struct ScenarioRun {
    pub series: Vec<Series>,
    pub reps: Vec<RepFacts>,
    /// The values of the passes that were thrown away, as the bits of floats.
    pub discarded_warmup: Vec<u64>,
    pub peak_rss_bytes: Option<u64>,
    pub heap_peak_bytes: Option<u64>,
}

/// The larger of two peaks, where both were observed, or the one that was.
pub open spec fn higher_peak(a: Option<u64>, b: Option<u64>) -> Option<u64> {
    match (a, b) {
        (Some(x), Some(y)) => Some(
            if x >= y {
                x
            } else {
                y
            },
        ),
        (Some(x), None) => Some(x),
        (None, y) => y,
    }
}

/// The larger of two peaks, where both were observed, or the one that was.
pub fn max_peak(a: Option<u64>, b: Option<u64>) -> (m: Option<u64>)
    ensures
        m == higher_peak(a, b),
{
    match (a, b) {
        (Some(x), Some(y)) => if x >= y {
            Some(x)
        } else {
            Some(y)
        },
        (Some(x), None) => Some(x),
        (None, y) => y,
    }
}

/// Whether every repetition observed the same count, which is `first`.
pub open spec fn all_have(reps: Seq<RepFacts>, f: Fact, value: Option<u64>) -> bool {
    forall|i: int| 0 <= i < reps.len() ==> fact_of((#[trigger] reps[i]).invariants, f) == value
}

/// The count that every repetition agreed on, where they did; none where there
/// was no repetition.
pub open spec fn agreed_fact(reps: Seq<RepFacts>, f: Fact) -> Option<u64> {
    if reps.len() > 0 && all_have(reps, f, fact_of(reps[0].invariants, f)) {
        fact_of(reps[0].invariants, f)
    } else {
        None
    }
}

/// Whether two repetitions observed different counts.
pub open spec fn disagrees(reps: Seq<RepFacts>, f: Fact) -> bool {
    reps.len() > 0 && !all_have(reps, f, fact_of(reps[0].invariants, f))
}

/// Whether every repetition wrote the same bytes.
pub open spec fn same_digests(reps: Seq<RepFacts>) -> bool {
    forall|i: int|
        0 <= i < reps.len() ==> digest_in((#[trigger] reps[i]).invariants) == digest_in(
            reps[0].invariants,
        )
}

/// The digest that every repetition agreed on.
pub open spec fn agreed_digest(reps: Seq<RepFacts>) -> Option<Seq<char>> {
    if reps.len() > 0 && same_digests(reps) {
        digest_in(reps[0].invariants)
    } else {
        None
    }
}

/// The note on a field that differs.
pub open spec fn difference(name: Seq<char>, differs: bool) -> Seq<Seq<char>> {
    if differs {
        seq![name + " differs between reps"@]
    } else {
        Seq::empty()
    }
}

/// The notes on every field that differs, in the order of the fields.
pub open spec fn disagreements_of(reps: Seq<RepFacts>) -> Seq<Seq<char>> {
    difference("output_bytes"@, disagrees(reps, Fact::OutputBytes)) + difference(
        "allocated_bytes"@,
        disagrees(reps, Fact::AllocatedBytes),
    ) + difference("filesystem_entries"@, disagrees(reps, Fact::FilesystemEntries)) + difference(
        "directories"@,
        disagrees(reps, Fact::Directories),
    ) + difference("tiles_produced"@, disagrees(reps, Fact::TilesProduced)) + difference(
        "artefact_digest"@,
        reps.len() > 0 && !same_digests(reps),
    ) + difference("root_entries"@, disagrees(reps, Fact::RootEntries)) + difference(
        "leaves"@,
        disagrees(reps, Fact::Leaves),
    ) + difference("requests"@, disagrees(reps, Fact::Requests)) + difference(
        "request_bytes"@,
        disagrees(reps, Fact::RequestBytes),
    )
}

/// Whether two optional counts are the same.
fn same_count(a: Option<u64>, b: Option<u64>) -> (same: bool)
    ensures
        same == (a == b),
{
    match (a, b) {
        (Some(x), Some(y)) => x == y,
        (None, None) => true,
        _ => false,
    }
}

/// Whether two optional digests are the same.
fn same_digest(a: &Option<String>, b: &Option<String>) -> (same: bool)
    ensures
        same == ((match *a {
            Some(d) => Some(d@),
            None => None,
        }) == (match *b {
            Some(d) => Some(d@),
            None => None,
        })),
{
    match (a, b) {
        (Some(x), Some(y)) => same_text(x.as_str(), y.as_str()),
        (None, None) => true,
        _ => false,
    }
}

/// The count that every repetition agreed on; a note goes to `notes` where two
/// did not.
fn agree(reps: &[RepFacts], f: Fact, notes: &mut Vec<String>) -> (v: Option<u64>)
    ensures
        v == agreed_fact(reps@, f),
        strings(final(notes)@) == strings(old(notes)@) + difference(
            fact_name(f),
            disagrees(reps@, f),
        ),
{
    let ghost before = strings(notes@);
    if reps.len() == 0 {
        assert(strings(notes@) =~= before + difference(fact_name(f), disagrees(reps@, f)));
        return None;
    }
    let first: Option<u64> = reps[0].invariants.fact(f);
    let mut i: usize = 0;
    while i < reps.len()
        invariant
            i <= reps@.len(),
            reps@.len() > 0,
            first == fact_of(reps@[0].invariants, f),
            forall|k: int| 0 <= k < i ==> fact_of((#[trigger] reps@[k]).invariants, f) == first,
            before == strings(old(notes)@),
            strings(notes@) == before,
        decreases reps@.len() - i,
    {
        if !same_count(reps[i].invariants.fact(f), first) {
            assert(fact_of(reps@[i as int].invariants, f) != first);
            let note: String = crate::text::concat2(f.name(), " differs between reps");
            notes.push(note);
            assert(strings(notes@) =~= before + difference(fact_name(f), disagrees(reps@, f)));
            return None;
        }
        i = i + 1;
    }
    assert(strings(notes@) =~= before + difference(fact_name(f), disagrees(reps@, f)));
    first
}

/// The digest that every repetition agreed on; a note goes to `notes` where two
/// did not.
fn agree_digest(reps: &[RepFacts], notes: &mut Vec<String>) -> (v: Option<String>)
    ensures
        (match v {
            Some(d) => Some(d@),
            None => None,
        }) == agreed_digest(reps@),
        strings(final(notes)@) == strings(old(notes)@) + difference(
            "artefact_digest"@,
            reps@.len() > 0 && !same_digests(reps@),
        ),
{
    let ghost before = strings(notes@);
    if reps.len() == 0 {
        assert(strings(notes@) =~= before + difference("artefact_digest"@, false));
        return None;
    }
    let mut i: usize = 0;
    while i < reps.len()
        invariant
            i <= reps@.len(),
            reps@.len() > 0,
            forall|k: int|
                0 <= k < i ==> digest_in((#[trigger] reps@[k]).invariants) == digest_in(
                    reps@[0].invariants,
                ),
            before == strings(old(notes)@),
            strings(notes@) == before,
        decreases reps@.len() - i,
    {
        if !same_digest(
            &reps[i].invariants.artefact_digest,
            &reps[0].invariants.artefact_digest,
        ) {
            assert(digest_in(reps@[i as int].invariants) != digest_in(reps@[0].invariants));
            notes.push("artefact_digest differs between reps".to_owned());
            proof {
                reveal_strlit("artefact_digest differs between reps");
                reveal_strlit("artefact_digest");
                reveal_strlit(" differs between reps");
                assert("artefact_digest differs between reps"@ =~= "artefact_digest"@
                    + " differs between reps"@);
            }
            assert(strings(notes@) =~= before + difference("artefact_digest"@, true));
            return None;
        }
        i = i + 1;
    }
    assert(strings(notes@) =~= before + difference("artefact_digest"@, false));
    match &reps[0].invariants.artefact_digest {
        Some(d) => Some(d.clone()),
        None => None,
    }
}

/// The invariants every repetition of a scenario agreed on.
///
/// An invariant that differs between two repetitions of one commit is a defect,
/// never noise, so a disagreement is reported rather than averaged: the field
/// goes `None` and a note says which one moved.
pub fn agreed(reps: &[RepFacts]) -> (out: (Invariants, Vec<String>))
    ensures
        forall|f: Fact| #[trigger] fact_of(out.0, f) == agreed_fact(reps@, f),
        digest_in(out.0) == agreed_digest(reps@),
        strings(out.1@) == disagreements_of(reps@),
        out.1@.len() == 0 <==> forall|i: int, j: int|
            0 <= i < reps@.len() && 0 <= j < reps@.len() ==> {
                let (a, b) = ((#[trigger] reps@[i]).invariants, (#[trigger] reps@[j]).invariants);
                &&& a.output_bytes == b.output_bytes
                &&& a.allocated_bytes == b.allocated_bytes
                &&& a.filesystem_entries == b.filesystem_entries
                &&& a.directories == b.directories
                &&& a.tiles_produced == b.tiles_produced
                &&& a.root_entries == b.root_entries
                &&& a.leaves == b.leaves
                &&& a.requests == b.requests
                &&& a.request_bytes == b.request_bytes
                &&& (match (a.artefact_digest, b.artefact_digest) {
                    (Some(x), Some(y)) => x@ == y@,
                    (None, None) => true,
                    _ => false,
                })
            },
        out.0.output_bytes is Some <==> reps@.len() > 0 && reps@[0].invariants.output_bytes is Some && forall|i: int|
            0 <= i < reps@.len() ==> (#[trigger] reps@[i]).invariants.output_bytes
                == reps@[0].invariants.output_bytes,
        out.0.output_bytes is Some ==> out.0.output_bytes == reps@[0].invariants.output_bytes,
        out.0.allocated_bytes is Some <==> reps@.len() > 0 && reps@[0].invariants.allocated_bytes is Some && forall|i: int|
            0 <= i < reps@.len() ==> (#[trigger] reps@[i]).invariants.allocated_bytes
                == reps@[0].invariants.allocated_bytes,
        out.0.allocated_bytes is Some ==> out.0.allocated_bytes == reps@[0].invariants.allocated_bytes,
        out.0.filesystem_entries is Some <==> reps@.len() > 0 && reps@[0].invariants.filesystem_entries is Some && forall|i: int|
            0 <= i < reps@.len() ==> (#[trigger] reps@[i]).invariants.filesystem_entries
                == reps@[0].invariants.filesystem_entries,
        out.0.filesystem_entries is Some ==> out.0.filesystem_entries == reps@[0].invariants.filesystem_entries,
        out.0.directories is Some <==> reps@.len() > 0 && reps@[0].invariants.directories is Some && forall|i: int|
            0 <= i < reps@.len() ==> (#[trigger] reps@[i]).invariants.directories
                == reps@[0].invariants.directories,
        out.0.directories is Some ==> out.0.directories == reps@[0].invariants.directories,
        out.0.tiles_produced is Some <==> reps@.len() > 0 && reps@[0].invariants.tiles_produced is Some && forall|i: int|
            0 <= i < reps@.len() ==> (#[trigger] reps@[i]).invariants.tiles_produced
                == reps@[0].invariants.tiles_produced,
        out.0.tiles_produced is Some ==> out.0.tiles_produced == reps@[0].invariants.tiles_produced,
        out.0.root_entries is Some <==> reps@.len() > 0 && reps@[0].invariants.root_entries is Some && forall|i: int|
            0 <= i < reps@.len() ==> (#[trigger] reps@[i]).invariants.root_entries
                == reps@[0].invariants.root_entries,
        out.0.root_entries is Some ==> out.0.root_entries == reps@[0].invariants.root_entries,
        out.0.leaves is Some <==> reps@.len() > 0 && reps@[0].invariants.leaves is Some && forall|i: int|
            0 <= i < reps@.len() ==> (#[trigger] reps@[i]).invariants.leaves
                == reps@[0].invariants.leaves,
        out.0.leaves is Some ==> out.0.leaves == reps@[0].invariants.leaves,
        out.0.requests is Some <==> reps@.len() > 0 && reps@[0].invariants.requests is Some && forall|i: int|
            0 <= i < reps@.len() ==> (#[trigger] reps@[i]).invariants.requests
                == reps@[0].invariants.requests,
        out.0.requests is Some ==> out.0.requests == reps@[0].invariants.requests,
        out.0.request_bytes is Some <==> reps@.len() > 0 && reps@[0].invariants.request_bytes is Some && forall|i: int|
            0 <= i < reps@.len() ==> (#[trigger] reps@[i]).invariants.request_bytes
                == reps@[0].invariants.request_bytes,
        out.0.request_bytes is Some ==> out.0.request_bytes == reps@[0].invariants.request_bytes,
        out.0.artefact_digest is Some <==> reps@.len() > 0 && reps@[0].invariants.artefact_digest
            is Some && forall|i: int|
            0 <= i < reps@.len() ==> ((#[trigger] reps@[i]).invariants.artefact_digest matches Some(x)
                && x@ == reps@[0].invariants.artefact_digest->0@),
        out.0.artefact_digest is Some ==> out.0.artefact_digest->0@
            == reps@[0].invariants.artefact_digest->0@,
{
    proof {
        law_no_notes_iff_all_agree(reps@);
    }
    let mut notes: Vec<String> = Vec::new();
    assert(strings(notes@) =~= Seq::<Seq<char>>::empty());
    let output_bytes: Option<u64> = agree(reps, Fact::OutputBytes, &mut notes);
    let allocated_bytes: Option<u64> = agree(reps, Fact::AllocatedBytes, &mut notes);
    let filesystem_entries: Option<u64> = agree(reps, Fact::FilesystemEntries, &mut notes);
    let directories: Option<u64> = agree(reps, Fact::Directories, &mut notes);
    let tiles_produced: Option<u64> = agree(reps, Fact::TilesProduced, &mut notes);
    let artefact_digest: Option<String> = agree_digest(reps, &mut notes);
    let root_entries: Option<u64> = agree(reps, Fact::RootEntries, &mut notes);
    let leaves: Option<u64> = agree(reps, Fact::Leaves, &mut notes);
    let requests: Option<u64> = agree(reps, Fact::Requests, &mut notes);
    let request_bytes: Option<u64> = agree(reps, Fact::RequestBytes, &mut notes);
    assert(strings(notes@) =~= disagreements_of(reps@));
    let out = Invariants {
        output_bytes,
        allocated_bytes,
        filesystem_entries,
        directories,
        tiles_produced,
        artefact_digest,
        root_entries,
        leaves,
        requests,
        request_bytes,
    };
    proof {
        assert(strings(notes@).len() == notes@.len());
        lemma_published(reps@, out);
    }
    (out, notes)
}

/// What is published, field by field.
pub(crate) proof fn lemma_published(reps: Seq<RepFacts>, out: Invariants)
    requires
        forall|f: Fact| #[trigger] fact_of(out, f) == agreed_fact(reps, f),
        digest_in(out) == agreed_digest(reps),
    ensures
        out.output_bytes is Some <==> reps.len() > 0 && reps[0].invariants.output_bytes is Some && forall|i: int|
            0 <= i < reps.len() ==> (#[trigger] reps[i]).invariants.output_bytes
                == reps[0].invariants.output_bytes,
        out.output_bytes is Some ==> out.output_bytes == reps[0].invariants.output_bytes,
        out.allocated_bytes is Some <==> reps.len() > 0 && reps[0].invariants.allocated_bytes is Some && forall|i: int|
            0 <= i < reps.len() ==> (#[trigger] reps[i]).invariants.allocated_bytes
                == reps[0].invariants.allocated_bytes,
        out.allocated_bytes is Some ==> out.allocated_bytes == reps[0].invariants.allocated_bytes,
        out.filesystem_entries is Some <==> reps.len() > 0 && reps[0].invariants.filesystem_entries is Some && forall|i: int|
            0 <= i < reps.len() ==> (#[trigger] reps[i]).invariants.filesystem_entries
                == reps[0].invariants.filesystem_entries,
        out.filesystem_entries is Some ==> out.filesystem_entries == reps[0].invariants.filesystem_entries,
        out.directories is Some <==> reps.len() > 0 && reps[0].invariants.directories is Some && forall|i: int|
            0 <= i < reps.len() ==> (#[trigger] reps[i]).invariants.directories
                == reps[0].invariants.directories,
        out.directories is Some ==> out.directories == reps[0].invariants.directories,
        out.tiles_produced is Some <==> reps.len() > 0 && reps[0].invariants.tiles_produced is Some && forall|i: int|
            0 <= i < reps.len() ==> (#[trigger] reps[i]).invariants.tiles_produced
                == reps[0].invariants.tiles_produced,
        out.tiles_produced is Some ==> out.tiles_produced == reps[0].invariants.tiles_produced,
        out.root_entries is Some <==> reps.len() > 0 && reps[0].invariants.root_entries is Some && forall|i: int|
            0 <= i < reps.len() ==> (#[trigger] reps[i]).invariants.root_entries
                == reps[0].invariants.root_entries,
        out.root_entries is Some ==> out.root_entries == reps[0].invariants.root_entries,
        out.leaves is Some <==> reps.len() > 0 && reps[0].invariants.leaves is Some && forall|i: int|
            0 <= i < reps.len() ==> (#[trigger] reps[i]).invariants.leaves
                == reps[0].invariants.leaves,
        out.leaves is Some ==> out.leaves == reps[0].invariants.leaves,
        out.requests is Some <==> reps.len() > 0 && reps[0].invariants.requests is Some && forall|i: int|
            0 <= i < reps.len() ==> (#[trigger] reps[i]).invariants.requests
                == reps[0].invariants.requests,
        out.requests is Some ==> out.requests == reps[0].invariants.requests,
        out.request_bytes is Some <==> reps.len() > 0 && reps[0].invariants.request_bytes is Some && forall|i: int|
            0 <= i < reps.len() ==> (#[trigger] reps[i]).invariants.request_bytes
                == reps[0].invariants.request_bytes,
        out.request_bytes is Some ==> out.request_bytes == reps[0].invariants.request_bytes,
        out.artefact_digest is Some <==> reps.len() > 0 && reps[0].invariants.artefact_digest
            is Some && forall|i: int|
            0 <= i < reps.len() ==> ((#[trigger] reps[i]).invariants.artefact_digest matches Some(x)
                && x@ == reps[0].invariants.artefact_digest->0@),
        out.artefact_digest is Some ==> out.artefact_digest->0@
            == reps[0].invariants.artefact_digest->0@,
{
    assert(fact_of(out, Fact::OutputBytes) == agreed_fact(reps, Fact::OutputBytes));
    if reps.len() > 0 && (forall|i: int|
        0 <= i < reps.len() ==> (#[trigger] reps[i]).invariants.output_bytes == reps[0].invariants.output_bytes) {
        assert(all_have(reps, Fact::OutputBytes, fact_of(reps[0].invariants, Fact::OutputBytes)));
    }
    if out.output_bytes is Some {
        assert forall|i: int| 0 <= i < reps.len() implies (#[trigger] reps[i]).invariants.output_bytes
            == reps[0].invariants.output_bytes by {
            assert(fact_of(reps[i].invariants, Fact::OutputBytes) == fact_of(reps[0].invariants, Fact::OutputBytes));
        }
    }
    assert(fact_of(out, Fact::AllocatedBytes) == agreed_fact(reps, Fact::AllocatedBytes));
    if reps.len() > 0 && (forall|i: int|
        0 <= i < reps.len() ==> (#[trigger] reps[i]).invariants.allocated_bytes == reps[0].invariants.allocated_bytes) {
        assert(all_have(reps, Fact::AllocatedBytes, fact_of(reps[0].invariants, Fact::AllocatedBytes)));
    }
    if out.allocated_bytes is Some {
        assert forall|i: int| 0 <= i < reps.len() implies (#[trigger] reps[i]).invariants.allocated_bytes
            == reps[0].invariants.allocated_bytes by {
            assert(fact_of(reps[i].invariants, Fact::AllocatedBytes) == fact_of(reps[0].invariants, Fact::AllocatedBytes));
        }
    }
    assert(fact_of(out, Fact::FilesystemEntries) == agreed_fact(reps, Fact::FilesystemEntries));
    if reps.len() > 0 && (forall|i: int|
        0 <= i < reps.len() ==> (#[trigger] reps[i]).invariants.filesystem_entries == reps[0].invariants.filesystem_entries) {
        assert(all_have(reps, Fact::FilesystemEntries, fact_of(reps[0].invariants, Fact::FilesystemEntries)));
    }
    if out.filesystem_entries is Some {
        assert forall|i: int| 0 <= i < reps.len() implies (#[trigger] reps[i]).invariants.filesystem_entries
            == reps[0].invariants.filesystem_entries by {
            assert(fact_of(reps[i].invariants, Fact::FilesystemEntries) == fact_of(reps[0].invariants, Fact::FilesystemEntries));
        }
    }
    assert(fact_of(out, Fact::Directories) == agreed_fact(reps, Fact::Directories));
    if reps.len() > 0 && (forall|i: int|
        0 <= i < reps.len() ==> (#[trigger] reps[i]).invariants.directories == reps[0].invariants.directories) {
        assert(all_have(reps, Fact::Directories, fact_of(reps[0].invariants, Fact::Directories)));
    }
    if out.directories is Some {
        assert forall|i: int| 0 <= i < reps.len() implies (#[trigger] reps[i]).invariants.directories
            == reps[0].invariants.directories by {
            assert(fact_of(reps[i].invariants, Fact::Directories) == fact_of(reps[0].invariants, Fact::Directories));
        }
    }
    assert(fact_of(out, Fact::TilesProduced) == agreed_fact(reps, Fact::TilesProduced));
    if reps.len() > 0 && (forall|i: int|
        0 <= i < reps.len() ==> (#[trigger] reps[i]).invariants.tiles_produced == reps[0].invariants.tiles_produced) {
        assert(all_have(reps, Fact::TilesProduced, fact_of(reps[0].invariants, Fact::TilesProduced)));
    }
    if out.tiles_produced is Some {
        assert forall|i: int| 0 <= i < reps.len() implies (#[trigger] reps[i]).invariants.tiles_produced
            == reps[0].invariants.tiles_produced by {
            assert(fact_of(reps[i].invariants, Fact::TilesProduced) == fact_of(reps[0].invariants, Fact::TilesProduced));
        }
    }
    assert(fact_of(out, Fact::RootEntries) == agreed_fact(reps, Fact::RootEntries));
    if reps.len() > 0 && (forall|i: int|
        0 <= i < reps.len() ==> (#[trigger] reps[i]).invariants.root_entries == reps[0].invariants.root_entries) {
        assert(all_have(reps, Fact::RootEntries, fact_of(reps[0].invariants, Fact::RootEntries)));
    }
    if out.root_entries is Some {
        assert forall|i: int| 0 <= i < reps.len() implies (#[trigger] reps[i]).invariants.root_entries
            == reps[0].invariants.root_entries by {
            assert(fact_of(reps[i].invariants, Fact::RootEntries) == fact_of(reps[0].invariants, Fact::RootEntries));
        }
    }
    assert(fact_of(out, Fact::Leaves) == agreed_fact(reps, Fact::Leaves));
    if reps.len() > 0 && (forall|i: int|
        0 <= i < reps.len() ==> (#[trigger] reps[i]).invariants.leaves == reps[0].invariants.leaves) {
        assert(all_have(reps, Fact::Leaves, fact_of(reps[0].invariants, Fact::Leaves)));
    }
    if out.leaves is Some {
        assert forall|i: int| 0 <= i < reps.len() implies (#[trigger] reps[i]).invariants.leaves
            == reps[0].invariants.leaves by {
            assert(fact_of(reps[i].invariants, Fact::Leaves) == fact_of(reps[0].invariants, Fact::Leaves));
        }
    }
    assert(fact_of(out, Fact::Requests) == agreed_fact(reps, Fact::Requests));
    if reps.len() > 0 && (forall|i: int|
        0 <= i < reps.len() ==> (#[trigger] reps[i]).invariants.requests == reps[0].invariants.requests) {
        assert(all_have(reps, Fact::Requests, fact_of(reps[0].invariants, Fact::Requests)));
    }
    if out.requests is Some {
        assert forall|i: int| 0 <= i < reps.len() implies (#[trigger] reps[i]).invariants.requests
            == reps[0].invariants.requests by {
            assert(fact_of(reps[i].invariants, Fact::Requests) == fact_of(reps[0].invariants, Fact::Requests));
        }
    }
    assert(fact_of(out, Fact::RequestBytes) == agreed_fact(reps, Fact::RequestBytes));
    if reps.len() > 0 && (forall|i: int|
        0 <= i < reps.len() ==> (#[trigger] reps[i]).invariants.request_bytes == reps[0].invariants.request_bytes) {
        assert(all_have(reps, Fact::RequestBytes, fact_of(reps[0].invariants, Fact::RequestBytes)));
    }
    if out.request_bytes is Some {
        assert forall|i: int| 0 <= i < reps.len() implies (#[trigger] reps[i]).invariants.request_bytes
            == reps[0].invariants.request_bytes by {
            assert(fact_of(reps[i].invariants, Fact::RequestBytes) == fact_of(reps[0].invariants, Fact::RequestBytes));
        }
    }
    if out.artefact_digest is Some {
        assert forall|i: int| 0 <= i < reps.len() implies ((
        #[trigger] reps[i]).invariants.artefact_digest matches Some(x) && x@
            == reps[0].invariants.artefact_digest->0@) by {
            assert(digest_in(reps[i].invariants) == digest_in(reps[0].invariants));
        }
    }
}

/// Two parts hold what either holds.
proof fn lemma_either_holds(a: Seq<Seq<char>>, b: Seq<Seq<char>>, x: Seq<char>)
    ensures
        (a + b).contains(x) <==> a.contains(x) || b.contains(x),
{
    if a.contains(x) {
        let i = choose|i: int| 0 <= i < a.len() && a[i] == x;
        assert((a + b)[i] == x);
    }
    if b.contains(x) {
        let i = choose|i: int| 0 <= i < b.len() && b[i] == x;
        assert((a + b)[a.len() + i] == x);
    }
}

/// A note is made where a field differs, and only there.
proof fn lemma_note_made(name: Seq<char>, differs: bool, x: Seq<char>)
    ensures
        difference(name, differs).contains(x) <==> differs && x == name + " differs between reps"@,
{
    if differs {
        assert(difference(name, differs)[0] == name + " differs between reps"@);
    }
}

/// The first character of a note, and how long it is.
proof fn lemma_notes_differ(a: Seq<char>, b: Seq<char>)
    requires
        a + " differs between reps"@ == b + " differs between reps"@,
    ensures
        a == b,
{
    let (x, y) = (a + " differs between reps"@, b + " differs between reps"@);
    assert(x.len() == y.len());
    assert(a =~= x.take(a.len() as int));
    assert(b =~= y.take(b.len() as int));
}

/// The names of the fields are all different.
proof fn lemma_field_names()
    ensures
        "output_bytes"@ != "allocated_bytes"@,
        "output_bytes"@ != "filesystem_entries"@,
        "output_bytes"@ != "directories"@,
        "output_bytes"@ != "tiles_produced"@,
        "output_bytes"@ != "artefact_digest"@,
        "output_bytes"@ != "root_entries"@,
        "output_bytes"@ != "leaves"@,
        "output_bytes"@ != "requests"@,
        "output_bytes"@ != "request_bytes"@,
        "allocated_bytes"@ != "filesystem_entries"@,
        "allocated_bytes"@ != "directories"@,
        "allocated_bytes"@ != "tiles_produced"@,
        "allocated_bytes"@ != "artefact_digest"@,
        "allocated_bytes"@ != "root_entries"@,
        "allocated_bytes"@ != "leaves"@,
        "allocated_bytes"@ != "requests"@,
        "allocated_bytes"@ != "request_bytes"@,
        "filesystem_entries"@ != "directories"@,
        "filesystem_entries"@ != "tiles_produced"@,
        "filesystem_entries"@ != "artefact_digest"@,
        "filesystem_entries"@ != "root_entries"@,
        "filesystem_entries"@ != "leaves"@,
        "filesystem_entries"@ != "requests"@,
        "filesystem_entries"@ != "request_bytes"@,
        "directories"@ != "tiles_produced"@,
        "directories"@ != "artefact_digest"@,
        "directories"@ != "root_entries"@,
        "directories"@ != "leaves"@,
        "directories"@ != "requests"@,
        "directories"@ != "request_bytes"@,
        "tiles_produced"@ != "artefact_digest"@,
        "tiles_produced"@ != "root_entries"@,
        "tiles_produced"@ != "leaves"@,
        "tiles_produced"@ != "requests"@,
        "tiles_produced"@ != "request_bytes"@,
        "artefact_digest"@ != "root_entries"@,
        "artefact_digest"@ != "leaves"@,
        "artefact_digest"@ != "requests"@,
        "artefact_digest"@ != "request_bytes"@,
        "root_entries"@ != "leaves"@,
        "root_entries"@ != "requests"@,
        "root_entries"@ != "request_bytes"@,
        "leaves"@ != "requests"@,
        "leaves"@ != "request_bytes"@,
        "requests"@ != "request_bytes"@,
{
    reveal_strlit("output_bytes");
    reveal_strlit("allocated_bytes");
    reveal_strlit("filesystem_entries");
    reveal_strlit("directories");
    reveal_strlit("tiles_produced");
    reveal_strlit("artefact_digest");
    reveal_strlit("root_entries");
    reveal_strlit("leaves");
    reveal_strlit("requests");
    reveal_strlit("request_bytes");
    assert("output_bytes"@.len() == 12);
    assert("allocated_bytes"@.len() == 15);
    assert("filesystem_entries"@.len() == 18);
    assert("directories"@.len() == 11);
    assert("tiles_produced"@.len() == 14);
    assert("artefact_digest"@.len() == 15);
    assert("root_entries"@.len() == 12);
    assert("leaves"@.len() == 6);
    assert("requests"@.len() == 8);
    assert("request_bytes"@.len() == 13);
    assert("output_bytes"@[0] == 'o' && "root_entries"@[0] == 'r');
    assert("allocated_bytes"@[1] == 'l' && "artefact_digest"@[1] == 'r');
}

/// Ten parts hold what any of them holds.
proof fn lemma_any_holds(
    d0: Seq<Seq<char>>,
    d1: Seq<Seq<char>>,
    d2: Seq<Seq<char>>,
    d3: Seq<Seq<char>>,
    d4: Seq<Seq<char>>,
    d5: Seq<Seq<char>>,
    d6: Seq<Seq<char>>,
    d7: Seq<Seq<char>>,
    d8: Seq<Seq<char>>,
    d9: Seq<Seq<char>>,
    x: Seq<char>,
)
    ensures
        (d0 + d1 + d2 + d3 + d4 + d5 + d6 + d7 + d8 + d9).contains(x) <==> d0.contains(x) || d1.contains(x) || d2.contains(x) || d3.contains(x) || d4.contains(x) || d5.contains(x) || d6.contains(x) || d7.contains(x) || d8.contains(x) || d9.contains(x),
{
    lemma_either_holds(d0, d1, x);
    lemma_either_holds(d0 + d1, d2, x);
    lemma_either_holds(d0 + d1 + d2, d3, x);
    lemma_either_holds(d0 + d1 + d2 + d3, d4, x);
    lemma_either_holds(d0 + d1 + d2 + d3 + d4, d5, x);
    lemma_either_holds(d0 + d1 + d2 + d3 + d4 + d5, d6, x);
    lemma_either_holds(d0 + d1 + d2 + d3 + d4 + d5 + d6, d7, x);
    lemma_either_holds(d0 + d1 + d2 + d3 + d4 + d5 + d6 + d7, d8, x);
    lemma_either_holds(d0 + d1 + d2 + d3 + d4 + d5 + d6 + d7 + d8, d9, x);
}

/// A note is made on a field exactly where its name is that of one that differs.
proof fn lemma_note_for(name: Seq<char>, field: Seq<char>, differs: bool)
    ensures
        difference(field, differs).contains(name + " differs between reps"@) <==> differs && name
            == field,
{
    let x = name + " differs between reps"@;
    lemma_note_made(field, differs, x);
    if x == field + " differs between reps"@ {
        lemma_notes_differ(name, field);
    }
}

/// A note on a field stands among the notes exactly where that field differs.
proof fn lemma_note_of(reps: Seq<RepFacts>, name: Seq<char>)
    ensures
        disagreements_of(reps).contains(name + " differs between reps"@) <==> {
            ||| name == "output_bytes"@ && disagrees(reps, Fact::OutputBytes)
            ||| name == "allocated_bytes"@ && disagrees(reps, Fact::AllocatedBytes)
            ||| name == "filesystem_entries"@ && disagrees(reps, Fact::FilesystemEntries)
            ||| name == "directories"@ && disagrees(reps, Fact::Directories)
            ||| name == "tiles_produced"@ && disagrees(reps, Fact::TilesProduced)
            ||| name == "artefact_digest"@ && reps.len() > 0 && !same_digests(reps)
            ||| name == "root_entries"@ && disagrees(reps, Fact::RootEntries)
            ||| name == "leaves"@ && disagrees(reps, Fact::Leaves)
            ||| name == "requests"@ && disagrees(reps, Fact::Requests)
            ||| name == "request_bytes"@ && disagrees(reps, Fact::RequestBytes)
        },
{
    lemma_any_holds(
        difference("output_bytes"@, disagrees(reps, Fact::OutputBytes)),
        difference("allocated_bytes"@, disagrees(reps, Fact::AllocatedBytes)),
        difference("filesystem_entries"@, disagrees(reps, Fact::FilesystemEntries)),
        difference("directories"@, disagrees(reps, Fact::Directories)),
        difference("tiles_produced"@, disagrees(reps, Fact::TilesProduced)),
        difference("artefact_digest"@, reps.len() > 0 && !same_digests(reps)),
        difference("root_entries"@, disagrees(reps, Fact::RootEntries)),
        difference("leaves"@, disagrees(reps, Fact::Leaves)),
        difference("requests"@, disagrees(reps, Fact::Requests)),
        difference("request_bytes"@, disagrees(reps, Fact::RequestBytes)),
        name + " differs between reps"@,
    );
    lemma_note_for(name, "output_bytes"@, disagrees(reps, Fact::OutputBytes));
    lemma_note_for(name, "allocated_bytes"@, disagrees(reps, Fact::AllocatedBytes));
    lemma_note_for(name, "filesystem_entries"@, disagrees(reps, Fact::FilesystemEntries));
    lemma_note_for(name, "directories"@, disagrees(reps, Fact::Directories));
    lemma_note_for(name, "tiles_produced"@, disagrees(reps, Fact::TilesProduced));
    lemma_note_for(name, "artefact_digest"@, reps.len() > 0 && !same_digests(reps));
    lemma_note_for(name, "root_entries"@, disagrees(reps, Fact::RootEntries));
    lemma_note_for(name, "leaves"@, disagrees(reps, Fact::Leaves));
    lemma_note_for(name, "requests"@, disagrees(reps, Fact::Requests));
    lemma_note_for(name, "request_bytes"@, disagrees(reps, Fact::RequestBytes));
}

/// Whether two repetitions differ in a count, as it is found by comparing each
/// with the first.
proof fn lemma_disagrees(reps: Seq<RepFacts>, f: Fact)
    ensures
        disagrees(reps, f) <==> exists|i: int, j: int|
            0 <= i < reps.len() && 0 <= j < reps.len() && fact_of(
                (#[trigger] reps[i]).invariants,
                f,
            ) != fact_of((#[trigger] reps[j]).invariants, f),
{
    if reps.len() > 0 {
        if disagrees(reps, f) {
            let i = choose|i: int|
                0 <= i < reps.len() && fact_of((#[trigger] reps[i]).invariants, f) != fact_of(
                    reps[0].invariants,
                    f,
                );
            assert(fact_of(reps[i].invariants, f) != fact_of(reps[0].invariants, f));
        }
    }
}

/// The same of the bytes that were written.
proof fn lemma_digests_disagree(reps: Seq<RepFacts>)
    ensures
        reps.len() > 0 && !same_digests(reps) <==> exists|i: int, j: int|
            0 <= i < reps.len() && 0 <= j < reps.len() && digest_in(
                (#[trigger] reps[i]).invariants,
            ) != digest_in((#[trigger] reps[j]).invariants),
{
    if reps.len() > 0 && !same_digests(reps) {
        let i = choose|i: int|
            0 <= i < reps.len() && digest_in((#[trigger] reps[i]).invariants) != digest_in(
                reps[0].invariants,
            );
        assert(digest_in(reps[i].invariants) != digest_in(reps[0].invariants));
    }
}

/// A field is named in a note exactly where two repetitions observed it
/// differently: each of the nine counts, and the bytes that were written.
pub proof fn law_every_difference_is_noted(reps: Seq<RepFacts>)
    ensures
        disagreements_of(reps).contains("output_bytes"@ + " differs between reps"@)
            <==> exists|i: int, j: int|
            0 <= i < reps.len() && 0 <= j < reps.len() && (#[trigger] reps[i]).invariants.output_bytes
                != (#[trigger] reps[j]).invariants.output_bytes,
        disagreements_of(reps).contains("allocated_bytes"@ + " differs between reps"@)
            <==> exists|i: int, j: int|
            0 <= i < reps.len() && 0 <= j < reps.len() && (#[trigger] reps[i]).invariants.allocated_bytes
                != (#[trigger] reps[j]).invariants.allocated_bytes,
        disagreements_of(reps).contains("filesystem_entries"@ + " differs between reps"@)
            <==> exists|i: int, j: int|
            0 <= i < reps.len() && 0 <= j < reps.len() && (#[trigger] reps[i]).invariants.filesystem_entries
                != (#[trigger] reps[j]).invariants.filesystem_entries,
        disagreements_of(reps).contains("directories"@ + " differs between reps"@)
            <==> exists|i: int, j: int|
            0 <= i < reps.len() && 0 <= j < reps.len() && (#[trigger] reps[i]).invariants.directories
                != (#[trigger] reps[j]).invariants.directories,
        disagreements_of(reps).contains("tiles_produced"@ + " differs between reps"@)
            <==> exists|i: int, j: int|
            0 <= i < reps.len() && 0 <= j < reps.len() && (#[trigger] reps[i]).invariants.tiles_produced
                != (#[trigger] reps[j]).invariants.tiles_produced,
        disagreements_of(reps).contains("artefact_digest"@ + " differs between reps"@)
            <==> exists|i: int, j: int|
            0 <= i < reps.len() && 0 <= j < reps.len() && (match (
                (#[trigger] reps[i]).invariants.artefact_digest,
                (#[trigger] reps[j]).invariants.artefact_digest,
            ) {
                (Some(x), Some(y)) => x@ != y@,
                (None, None) => false,
                _ => true,
            }),
        disagreements_of(reps).contains("root_entries"@ + " differs between reps"@)
            <==> exists|i: int, j: int|
            0 <= i < reps.len() && 0 <= j < reps.len() && (#[trigger] reps[i]).invariants.root_entries
                != (#[trigger] reps[j]).invariants.root_entries,
        disagreements_of(reps).contains("leaves"@ + " differs between reps"@)
            <==> exists|i: int, j: int|
            0 <= i < reps.len() && 0 <= j < reps.len() && (#[trigger] reps[i]).invariants.leaves
                != (#[trigger] reps[j]).invariants.leaves,
        disagreements_of(reps).contains("requests"@ + " differs between reps"@)
            <==> exists|i: int, j: int|
            0 <= i < reps.len() && 0 <= j < reps.len() && (#[trigger] reps[i]).invariants.requests
                != (#[trigger] reps[j]).invariants.requests,
        disagreements_of(reps).contains("request_bytes"@ + " differs between reps"@)
            <==> exists|i: int, j: int|
            0 <= i < reps.len() && 0 <= j < reps.len() && (#[trigger] reps[i]).invariants.request_bytes
                != (#[trigger] reps[j]).invariants.request_bytes,
{
    lemma_field_names();
    lemma_note_of(reps, "output_bytes"@);
    lemma_disagrees(reps, Fact::OutputBytes);
    lemma_note_of(reps, "allocated_bytes"@);
    lemma_disagrees(reps, Fact::AllocatedBytes);
    lemma_note_of(reps, "filesystem_entries"@);
    lemma_disagrees(reps, Fact::FilesystemEntries);
    lemma_note_of(reps, "directories"@);
    lemma_disagrees(reps, Fact::Directories);
    lemma_note_of(reps, "tiles_produced"@);
    lemma_disagrees(reps, Fact::TilesProduced);
    lemma_note_of(reps, "artefact_digest"@);
    lemma_digests_disagree(reps);
    if exists|i: int, j: int|
        0 <= i < reps.len() && 0 <= j < reps.len() && digest_in((#[trigger] reps[i]).invariants)
            != digest_in((#[trigger] reps[j]).invariants) {
        let (i, j) = choose|i: int, j: int|
            0 <= i < reps.len() && 0 <= j < reps.len() && digest_in((#[trigger] reps[i]).invariants)
                != digest_in((#[trigger] reps[j]).invariants);
        assert(0 <= i < reps.len() && 0 <= j < reps.len());
        let (a, b) = (reps[i].invariants.artefact_digest, reps[j].invariants.artefact_digest);
        assert(match (a, b) {
            (Some(x), Some(y)) => x@ != y@,
            (None, None) => false,
            _ => true,
        });
    }
    lemma_note_of(reps, "root_entries"@);
    lemma_disagrees(reps, Fact::RootEntries);
    lemma_note_of(reps, "leaves"@);
    lemma_disagrees(reps, Fact::Leaves);
    lemma_note_of(reps, "requests"@);
    lemma_disagrees(reps, Fact::Requests);
    lemma_note_of(reps, "request_bytes"@);
    lemma_disagrees(reps, Fact::RequestBytes);
}

/// There is nothing to note exactly where every two repetitions observed the same
/// counts and wrote the same bytes.
pub proof fn law_no_notes_iff_all_agree(reps: Seq<RepFacts>)
    ensures
        disagreements_of(reps).len() == 0 <==> forall|i: int, j: int|
            0 <= i < reps.len() && 0 <= j < reps.len() ==> {
                let (a, b) = ((#[trigger] reps[i]).invariants, (#[trigger] reps[j]).invariants);
                &&& a.output_bytes == b.output_bytes
                &&& a.allocated_bytes == b.allocated_bytes
                &&& a.filesystem_entries == b.filesystem_entries
                &&& a.directories == b.directories
                &&& a.tiles_produced == b.tiles_produced
                &&& a.root_entries == b.root_entries
                &&& a.leaves == b.leaves
                &&& a.requests == b.requests
                &&& a.request_bytes == b.request_bytes
                &&& (match (a.artefact_digest, b.artefact_digest) {
                    (Some(x), Some(y)) => x@ == y@,
                    (None, None) => true,
                    _ => false,
                })
            },
{
    let notes = disagreements_of(reps);
    lemma_disagrees(reps, Fact::OutputBytes);
    lemma_disagrees(reps, Fact::AllocatedBytes);
    lemma_disagrees(reps, Fact::FilesystemEntries);
    lemma_disagrees(reps, Fact::Directories);
    lemma_disagrees(reps, Fact::TilesProduced);
    lemma_digests_disagree(reps);
    lemma_disagrees(reps, Fact::RootEntries);
    lemma_disagrees(reps, Fact::Leaves);
    lemma_disagrees(reps, Fact::Requests);
    lemma_disagrees(reps, Fact::RequestBytes);
    let d0 = difference("output_bytes"@, disagrees(reps, Fact::OutputBytes));
    let d1 = difference("allocated_bytes"@, disagrees(reps, Fact::AllocatedBytes));
    let d2 = difference("filesystem_entries"@, disagrees(reps, Fact::FilesystemEntries));
    let d3 = difference("directories"@, disagrees(reps, Fact::Directories));
    let d4 = difference("tiles_produced"@, disagrees(reps, Fact::TilesProduced));
    let d5 = difference("artefact_digest"@, reps.len() > 0 && !same_digests(reps));
    let d6 = difference("root_entries"@, disagrees(reps, Fact::RootEntries));
    let d7 = difference("leaves"@, disagrees(reps, Fact::Leaves));
    let d8 = difference("requests"@, disagrees(reps, Fact::Requests));
    let d9 = difference("request_bytes"@, disagrees(reps, Fact::RequestBytes));
    assert(notes.len() == d0.len() + d1.len() + d2.len() + d3.len() + d4.len() + d5.len() + d6.len() + d7.len() + d8.len() + d9.len());
    if notes.len() == 0 {
        assert forall|i: int, j: int| 0 <= i < reps.len() && 0 <= j < reps.len() implies {
            let (a, b) = ((#[trigger] reps[i]).invariants, (#[trigger] reps[j]).invariants);
            &&& a.output_bytes == b.output_bytes
            &&& a.allocated_bytes == b.allocated_bytes
            &&& a.filesystem_entries == b.filesystem_entries
            &&& a.directories == b.directories
            &&& a.tiles_produced == b.tiles_produced
            &&& a.root_entries == b.root_entries
            &&& a.leaves == b.leaves
            &&& a.requests == b.requests
            &&& a.request_bytes == b.request_bytes
            &&& (match (a.artefact_digest, b.artefact_digest) {
                (Some(x), Some(y)) => x@ == y@,
                (None, None) => true,
                _ => false,
            })
        } by {
            assert(fact_of(reps[i].invariants, Fact::OutputBytes) == fact_of(reps[j].invariants, Fact::OutputBytes));
            assert(fact_of(reps[i].invariants, Fact::AllocatedBytes) == fact_of(reps[j].invariants, Fact::AllocatedBytes));
            assert(fact_of(reps[i].invariants, Fact::FilesystemEntries) == fact_of(reps[j].invariants, Fact::FilesystemEntries));
            assert(fact_of(reps[i].invariants, Fact::Directories) == fact_of(reps[j].invariants, Fact::Directories));
            assert(fact_of(reps[i].invariants, Fact::TilesProduced) == fact_of(reps[j].invariants, Fact::TilesProduced));
            assert(fact_of(reps[i].invariants, Fact::RootEntries) == fact_of(reps[j].invariants, Fact::RootEntries));
            assert(fact_of(reps[i].invariants, Fact::Leaves) == fact_of(reps[j].invariants, Fact::Leaves));
            assert(fact_of(reps[i].invariants, Fact::Requests) == fact_of(reps[j].invariants, Fact::Requests));
            assert(fact_of(reps[i].invariants, Fact::RequestBytes) == fact_of(reps[j].invariants, Fact::RequestBytes));
            assert(digest_in(reps[i].invariants) == digest_in(reps[j].invariants));
        }
    }
}

/// What is published of a count is what every repetition observed, or nothing.
pub proof fn law_published_count_was_observed_every_time(reps: Seq<RepFacts>, f: Fact, i: int)
    requires
        0 <= i < reps.len(),
        agreed_fact(reps, f) is Some,
    ensures
        fact_of(reps[i].invariants, f) == agreed_fact(reps, f),
        !disagrees(reps, f),
{
}


/// Which count of repetitions a scenario takes.
#[derive(Debug, Clone, Copy, PartialEq, Eq, Structural)]
pub enum RepKind {
    /// As many as a generation.
    Generate,
    /// As many as a read.
    Read,
    /// One: what it measures does not vary.
    Once,
}

/// What a scenario declares about itself.
#[derive(Debug)]
pub struct ScenarioInfo {
    pub name: String,
    pub primary: MetricSpec,
    pub isolation: Isolation,
    /// `None` on a scenario that measures from its first repetition.
    pub warmup: Option<Warmup>,
    pub rep_kind: RepKind,
    /// Whether it reads an artefact that was written before.
    pub needs_artefact: bool,
    /// How many threads it runs.
    pub threads: usize,
}

/// A [`ScenarioInfo`], as texts.
pub struct InfoModel {
    pub name: Seq<char>,
    pub metric: Seq<char>,
    pub unit: Unit,
    pub direction: Direction,
    pub isolation: Isolation,
    pub warmup: Option<(Seq<char>, u32)>,
    pub rep_kind: RepKind,
    pub needs_artefact: bool,
    pub threads: usize,
}

impl View for ScenarioInfo {
    type V = InfoModel;

    open spec fn view(&self) -> InfoModel {
        InfoModel {
            name: self.name@,
            metric: self.primary.name@,
            unit: self.primary.unit,
            direction: self.primary.direction,
            isolation: self.isolation,
            warmup: match self.warmup {
                Some(w) => Some((w.policy@, w.passes)),
                None => None,
            },
            rep_kind: self.rep_kind,
            needs_artefact: self.needs_artefact,
            threads: self.threads,
        }
    }
}

/// A list of scenarios, as texts.
pub open spec fn info_models(v: Seq<ScenarioInfo>) -> Seq<InfoModel> {
    Seq::new(v.len(), |i: int| v[i]@)
}

/// A scenario that throws one pass away and then reads an artefact.
pub open spec fn pass_model(
    name: Seq<char>,
    metric: Seq<char>,
    unit: Unit,
    direction: Direction,
) -> InfoModel {
    InfoModel {
        name,
        metric,
        unit,
        direction,
        isolation: Isolation::ProcessPerScenario,
        warmup: Some(("discard-first-pass"@, 1u32)),
        rep_kind: RepKind::Read,
        needs_artefact: true,
        threads: 1,
    }
}

/// A scenario each of whose repetitions owns a process.
pub open spec fn fresh_model(
    name: Seq<char>,
    metric: Seq<char>,
    unit: Unit,
    rep_kind: RepKind,
    needs_artefact: bool,
) -> InfoModel {
    InfoModel {
        name,
        metric,
        unit,
        direction: Direction::LowerIsBetter,
        isolation: Isolation::ProcessPerRep,
        warmup: None,
        rep_kind,
        needs_artefact,
        threads: 1,
    }
}

/// A scenario that throws one pass away and then reads an artefact.
pub(crate) fn pass_info(
    name: String,
    metric: &'static str,
    unit: Unit,
    direction: Direction,
) -> (info: ScenarioInfo)
    ensures
        info@ == pass_model(name@, metric@, unit, direction),
{
    ScenarioInfo {
        name,
        primary: MetricSpec { name: metric, unit, direction },
        isolation: Isolation::ProcessPerScenario,
        warmup: Some(one_discarded_pass()),
        rep_kind: RepKind::Read,
        needs_artefact: true,
        threads: 1,
    }
}

/// A scenario each of whose repetitions owns a process. A fresh process is the
/// warm-up: there is no state inside it for a discarded pass to warm.
pub(crate) fn fresh_info(
    name: &str,
    metric: &'static str,
    unit: Unit,
    rep_kind: RepKind,
    needs_artefact: bool,
) -> (info: ScenarioInfo)
    ensures
        info@ == fresh_model(name@, metric@, unit, rep_kind, needs_artefact),
{
    ScenarioInfo {
        name: name.to_owned(),
        primary: MetricSpec { name: metric, unit, direction: Direction::LowerIsBetter },
        isolation: Isolation::ProcessPerRep,
        warmup: None,
        rep_kind,
        needs_artefact,
        threads: 1,
    }
}

/// Whether a series holds these samples of this metric.
pub open spec fn is_series(
    s: Series,
    metric: Seq<char>,
    unit: Unit,
    direction: Direction,
    samples: Seq<u64>,
) -> bool {
    &&& s.metric.name@ == metric
    &&& s.metric.unit == unit
    &&& s.metric.direction == direction
    &&& s.samples@ == samples
}

/// Whether these are the facts of `n` repetitions of which nothing was counted.
pub open spec fn no_facts(reps: Seq<RepFacts>, n: nat) -> bool {
    &&& reps.len() == n
    &&& forall|i: int|
        0 <= i < n ==> is_blank((#[trigger] reps[i]).invariants) && reps[i].scratch is None
}

/// The facts of `n` repetitions of which nothing was counted.
pub(crate) fn blank_facts(n: usize) -> (reps: Vec<RepFacts>)
    ensures
        no_facts(reps@, n as nat),
{
    let mut reps: Vec<RepFacts> = Vec::new();
    let mut i: usize = 0;
    while i < n
        invariant
            i <= n,
            no_facts(reps@, i as nat),
        decreases n - i,
    {
        reps.push(RepFacts { invariants: Invariants::default(), scratch: None });
        i = i + 1;
    }
    reps
}

/// Why a run did not come about: how the row came out, and why in words.
pub open spec fn skip_view(s: Skip) -> (RowOutcome, Seq<char>) {
    (s.outcome, s.reason@)
}

/// A scenario takes at least one repetition.
pub fn at_least_one(reps: u32) -> (n: u32)
    ensures
        n == (if reps == 0 {
            1
        } else {
            reps
        }),
{
    if reps == 0 {
        1
    } else {
        reps
    }
}

/// What is known of an artefact that a repetition wrote.
#[derive(Debug)]
pub struct Artefact {
    /// Bytes, entries, directories and allocated bytes.
    pub occupancy: Option<(u64, u64, u64, u64)>,
    pub tiles_produced: u64,
    pub digest: Option<String>,
    /// Root entries and leaves, on an archive that opened.
    pub shape: Option<(u64, u64)>,
    /// The scratch directory it was written into.
    pub scratch: String,
}

/// Whether a repetition's facts are those of the artefact that it wrote.
pub open spec fn is_written(facts: RepFacts, a: Artefact) -> bool {
    &&& facts.invariants.output_bytes == (match a.occupancy {
        Some(o) => Some(o.0),
        None => None,
    })
    &&& facts.invariants.filesystem_entries == (match a.occupancy {
        Some(o) => Some(o.1),
        None => None,
    })
    &&& facts.invariants.directories == (match a.occupancy {
        Some(o) => Some(o.2),
        None => None,
    })
    &&& facts.invariants.allocated_bytes == (match a.occupancy {
        Some(o) => Some(o.3),
        None => None,
    })
    &&& facts.invariants.tiles_produced == Some(a.tiles_produced)
    &&& facts.invariants.artefact_digest == a.digest
    &&& facts.invariants.root_entries == (match a.shape {
        Some(s) => Some(s.0),
        None => None,
    })
    &&& facts.invariants.leaves == (match a.shape {
        Some(s) => Some(s.1),
        None => None,
    })
    &&& facts.invariants.requests is None
    &&& facts.invariants.request_bytes is None
    &&& facts.scratch == Some(a.scratch)
}

/// The facts of a repetition, from the artefact that it wrote.
pub(crate) fn written_facts(a: Artefact) -> (facts: RepFacts)
    ensures
        is_written(facts, a),
{
    let (output_bytes, filesystem_entries, directories, allocated_bytes): (
        Option<u64>,
        Option<u64>,
        Option<u64>,
        Option<u64>,
    ) = match a.occupancy {
        Some(o) => (Some(o.0), Some(o.1), Some(o.2), Some(o.3)),
        None => (None, None, None, None),
    };
    let (root_entries, leaves): (Option<u64>, Option<u64>) = match a.shape {
        Some(s) => (Some(s.0), Some(s.1)),
        None => (None, None),
    };
    RepFacts {
        invariants: Invariants {
            output_bytes,
            allocated_bytes,
            filesystem_entries,
            directories,
            tiles_produced: Some(a.tiles_produced),
            artefact_digest: a.digest,
            root_entries,
            leaves,
            requests: None,
            request_bytes: None,
        },
        scratch: Some(a.scratch),
    }
}

/// Why a repetition wrote no artefact.
#[derive(Debug)]
pub enum WriteFault {
    NoScratch(String),
    NotWritten(String),
}

/// Why a repetition wrote no artefact, in words.
pub open spec fn write_fault_text(f: WriteFault) -> Seq<char> {
    match f {
        WriteFault::NoScratch(e) => "no scratch directory: "@ + e@,
        WriteFault::NotWritten(e) => e@,
    }
}

impl WriteFault {
    /// The row of a scenario whose artefact could not be written.
    pub fn skip(self) -> (skip: Skip)
        ensures
            skip_view(skip) == (RowOutcome::Failed, write_fault_text(self)),
    {
        match self {
            WriteFault::NoScratch(e) => Skip::failed(concat2("no scratch directory: ", e.as_str())),
            WriteFault::NotWritten(e) => Skip::failed(e),
        }
    }
}

} // verus!
