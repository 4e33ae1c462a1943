//! The document a storage sweep writes.
//!
//! A cell carries its samples and every summary statistic is computed from
//! them. An unmeasured column is empty, never zero: lower is better on the
//! columns that matter, so a zero would be the best possible score.
//!
//! Numbers that are not whole are carried as the bits of 64-bit floats. They are
//! computed elsewhere; here they are placed.

use crate::storage::cells::{backend_name, cell_text, source_name, Backend, Cell, Profile, SEED};
use crate::storage::json::RawJson;
use crate::storage::scenarios::facts::{
    direction_name, fact_name, fact_of, fact_unit, isolation_name, one_discarded_pass, outcome_word,
    unit_name, Fact, Invariants, Isolation, RowOutcome, Unit, Warmup,
};
use crate::storage::stats::{tail_kind, tail_name, tail_of, BOOTSTRAP_RESAMPLES};
use crate::storage::wire::text_view;
use crate::text::{
    concat3, decimal, decimal_text, hex_text, hexadecimal, same_text, slices, strings, zeros,
};
use vstd::prelude::*;

verus! {

/// The shape of this document.
pub const SCHEMA_VERSION: u32 = 1;

/// The family name an importer matches on before it reads anything else.
pub const FAMILY: &'static str = "libviprs-storage";

/// The one runner this family has.
pub const RUNNER: &'static str = "libviprs-storage";

/// How many timed repetitions each kind of scenario takes.
#[derive(Debug, Clone, Copy, PartialEq, Eq, Structural)]
pub struct RepsByKind {
    pub generate: u32,
    pub read: u32,
}

/// Timed repetitions a `generate` scenario takes on a profile.
pub fn generate_reps(profile: Profile) -> (n: u32)
    ensures
        n == (if profile == Profile::Ci {
            3int
        } else {
            7
        }),
{
    match profile {
        Profile::Ci => 3,
        _ => 7,
    }
}

/// Timed repetitions a read scenario takes on a profile.
pub fn read_reps(profile: Profile) -> (n: u32)
    ensures
        n == (if profile == Profile::Ci {
            3int
        } else {
            20
        }),
{
    match profile {
        Profile::Ci => 3,
        _ => 20,
    }
}

/// The repetitions of both kinds on a profile.
pub fn reps_by_kind(profile: Profile) -> (reps: RepsByKind)
    ensures
        reps.generate == (if profile == Profile::Ci {
            3int
        } else {
            7
        }),
        reps.read == (if profile == Profile::Ci {
            3int
        } else {
            20
        }),
{
    RepsByKind { generate: generate_reps(profile), read: read_reps(profile) }
}

/// The warm-up policy as the document carries it.
#[derive(Debug, Clone, PartialEq, Eq)]
pub struct WarmupBlock {
    pub policy: String,
    pub passes: u32,
}

/// Whether a block is that of a warm-up.
pub open spec fn is_block_of(block: Option<WarmupBlock>, w: Option<Warmup>) -> bool {
    match (block, w) {
        (Some(b), Some(w)) => b.policy@ == w.policy@ && b.passes == w.passes,
        (None, None) => true,
        _ => false,
    }
}

/// The warm-up policy as the document carries it.
pub fn warmup_block(w: Option<Warmup>) -> (block: Option<WarmupBlock>)
    ensures
        is_block_of(block, w),
{
    match w {
        Some(w) => Some(WarmupBlock { policy: w.policy.to_owned(), passes: w.passes }),
        None => None,
    }
}

/// The machine's load while a cell was measured. An unknown load is not a quiet
/// one. The two averages are the bits of floats.
#[derive(Debug, Clone, Copy, PartialEq, Eq)]
pub struct MachineLoad {
    pub cores: Option<u64>,
    pub load_avg_1m: Option<u64>,
    pub contention_per_core: Option<u64>,
    /// `None` where the load could not be read: unknown, not quiet.
    pub quiet: Option<bool>,
}

impl MachineLoad {
    /// A load that could not be read.
    pub fn unknown() -> (load: MachineLoad)
        ensures
            load == (MachineLoad {
                cores: None,
                load_avg_1m: None,
                contention_per_core: None,
                quiet: None,
            }),
    {
        MachineLoad { cores: None, load_avg_1m: None, contention_per_core: None, quiet: None }
    }
}

/// Everything a cell publishes about the spread of one metric's samples, as the
/// bits of floats.
#[derive(Debug, Clone, Copy)]
pub struct Summary {
    pub median: u64,
    pub min: u64,
    pub max: u64,
    pub iqr: u64,
    pub cov: Option<u64>,
    pub ci95: (u64, u64),
    pub ci_half_width_pct: Option<u64>,
    pub p95_of_samples: u64,
    /// The value of the tail statistic that so many samples earn.
    pub tail_value: u64,
}

/// The tail statistic a cell published, and the name it earned.
#[derive(Debug, Clone, PartialEq, Eq)]
pub struct TailBlock {
    /// `"p99"` or `"max"`.
    pub statistic: String,
    /// The bits of a float.
    pub value: u64,
}

/// The invariants a cell observed, as they reach the document.
#[derive(Debug, Clone)]
pub struct InvariantBlock {
    pub invariants: Invariants,
    /// The child's peak resident memory in bytes.
    pub peak_rss_bytes: Option<u64>,
    pub heap_peak_bytes: Option<u64>,
}

/// What a cell needs to become a row.
#[derive(Debug)]
pub struct CellReport {
    pub backend: Backend,
    pub cell: Cell,
    pub scenario: String,
    pub metric: String,
    pub unit: Unit,
    pub direction: crate::storage::scenarios::facts::Direction,
    pub isolation: Isolation,
    pub warmup: Option<Warmup>,
    /// The bits of floats.
    pub discarded_warmup: Vec<u64>,
    pub reps_declared: u32,
    pub min_reps: u32,
    /// The bits of floats.
    pub samples: Vec<u64>,
    pub outcome: RowOutcome,
    pub reason: Option<String>,
    pub invariants: InvariantBlock,
    pub machine_load: MachineLoad,
    pub oversubscribed: bool,
}

/// One `(backend, cell, scenario, metric)` row, with its samples.
#[derive(Debug)]
pub struct DocumentCell {
    pub backend: String,
    /// The facet key: the cell's tile count.
    pub scale: u32,
    pub source: String,
    pub cell: String,
    pub scenario: String,
    pub metric: String,
    /// `<scenario>.<metric>`, which is what the page sections on.
    pub key: String,
    pub unit: String,
    pub direction: String,
    pub isolation: String,
    pub warmup: Option<WarmupBlock>,
    pub discarded_warmup: Vec<u64>,
    pub reps: u32,
    pub min_reps: u32,
    pub outcome: String,
    pub reason: Option<String>,
    /// One per timed repetition, in the order they ran.
    pub samples: Vec<u64>,
    pub summary: Option<Summary>,
    pub tail: Option<TailBlock>,
    pub timer_saturated: Option<bool>,
    pub confidence: String,
    pub low_confidence_reasons: Vec<String>,
    pub machine_load: MachineLoad,
    pub invariants: InvariantBlock,
    /// What an observation of the artefact said, where there was one.
    pub attested: Option<bool>,
    /// Whether the run's sources were dirty, where they were.
    pub dirty: Option<bool>,
    /// Whether it ran more threads than the host has cores.
    pub oversubscribed: bool,
}

/// Whether a sample set is smaller than a row has to have.
pub open spec fn too_few(samples: nat, min_reps: u32) -> bool {
    samples < min_reps
}

/// Why a row is low-confidence.
pub open spec fn confidence_reasons(
    samples: nat,
    min_reps: u32,
    cov_note: Option<Seq<char>>,
    quiet: Option<bool>,
    saturated: Option<bool>,
) -> Seq<Seq<char>> {
    (if too_few(samples, min_reps) {
        seq!["fewer than minReps: "@ + decimal(samples) + " of "@ + decimal(min_reps as nat)]
    } else {
        Seq::empty()
    }) + (match cov_note {
        Some(note) => seq![note],
        None => Seq::empty(),
    }) + (match quiet {
        Some(true) => Seq::empty(),
        Some(false) => seq!["machine not quiet"@],
        None => seq!["machine load unknown"@],
    }) + (if saturated == Some(true) {
        seq!["timer saturated"@]
    } else {
        Seq::empty()
    })
}

/// Why a row is low-confidence.
fn low_confidence(
    samples: usize,
    min_reps: u32,
    cov_note: Option<String>,
    quiet: Option<bool>,
    saturated: Option<bool>,
) -> (out: Vec<String>)
    ensures
        strings(out@) == confidence_reasons(
            samples as nat,
            min_reps,
            text_view(cov_note),
            quiet,
            saturated,
        ),
{
    let mut out: Vec<String> = Vec::new();
    if (samples as u64) < min_reps as u64 {
        let mut text: String = concat3(
            "fewer than minReps: ",
            decimal_text(samples as u128).as_str(),
            " of ",
        );
        text.append(decimal_text(min_reps as u128).as_str());
        out.push(text);
    }
    match cov_note {
        Some(note) => {
            out.push(note);
        },
        None => {},
    }
    match quiet {
        Some(true) => {},
        Some(false) => {
            out.push("machine not quiet".to_owned());
        },
        None => {
            out.push("machine load unknown".to_owned());
        },
    }
    match saturated {
        Some(true) => {
            out.push("timer saturated".to_owned());
        },
        _ => {},
    }
    assert(strings(out@) =~= confidence_reasons(
        samples as nat,
        min_reps,
        text_view(cov_note),
        quiet,
        saturated,
    ));
    out
}

/// Nothing speaks against a row exactly where it has as many samples as it has to
/// have, no note on their variation, a machine that was seen to be quiet, and a
/// clock that was not too coarse. Each of the four speaks against it by itself, in
/// words of its own: a machine that is not quiet and one of which nothing is known
/// are told apart.
pub proof fn law_confident_iff_nothing_speaks_against_it(
    samples: nat,
    min_reps: u32,
    cov_note: Option<Seq<char>>,
    quiet: Option<bool>,
    saturated: Option<bool>,
)
    ensures
        confidence_reasons(samples, min_reps, cov_note, quiet, saturated).len() == 0 <==> {
            &&& samples >= min_reps
            &&& cov_note is None
            &&& quiet == Some(true)
            &&& saturated != Some(true)
        },
        samples < min_reps ==> confidence_reasons(
            samples,
            min_reps,
            cov_note,
            quiet,
            saturated,
        ).contains("fewer than minReps: "@ + decimal(samples) + " of "@ + decimal(min_reps as nat)),
        cov_note matches Some(note) ==> confidence_reasons(
            samples,
            min_reps,
            cov_note,
            quiet,
            saturated,
        ).contains(note),
        quiet == Some(false) ==> confidence_reasons(
            samples,
            min_reps,
            cov_note,
            quiet,
            saturated,
        ).contains("machine not quiet"@),
        quiet is None ==> confidence_reasons(
            samples,
            min_reps,
            cov_note,
            quiet,
            saturated,
        ).contains("machine load unknown"@),
        saturated == Some(true) ==> confidence_reasons(
            samples,
            min_reps,
            cov_note,
            quiet,
            saturated,
        ).contains("timer saturated"@),
        confidence_reasons(samples, min_reps, cov_note, quiet, saturated).len() == (if samples
            < min_reps {
            1int
        } else {
            0
        }) + (if cov_note is Some {
            1int
        } else {
            0
        }) + (if quiet == Some(true) {
            0int
        } else {
            1
        }) + (if saturated == Some(true) {
            1int
        } else {
            0
        }),
{
    let all = confidence_reasons(samples, min_reps, cov_note, quiet, saturated);
    let a: int = if samples < min_reps {
        1
    } else {
        0
    };
    let b: int = if cov_note is Some {
        1
    } else {
        0
    };
    let c: int = if quiet == Some(true) {
        0
    } else {
        1
    };
    if a == 1 {
        assert(all[0] == "fewer than minReps: "@ + decimal(samples) + " of "@ + decimal(
            min_reps as nat,
        ));
    }
    if b == 1 {
        assert(all[a] == cov_note->0);
    }
    if quiet == Some(false) {
        assert(all[a + b] == "machine not quiet"@);
    }
    if quiet is None {
        assert(all[a + b] == "machine load unknown"@);
    }
    if saturated == Some(true) {
        assert(all[a + b + c] == "timer saturated"@);
    }
}

/// How many nanoseconds one of a unit is, where it is a unit of time that a
/// clock can be too coarse for.
pub fn nanoseconds_in(unit: Unit) -> (ns: Option<u64>)
    ensures
        ns == (match unit {
            Unit::Microseconds => Some(1_000u64),
            Unit::Milliseconds => Some(1_000_000u64),
            _ => None,
        }),
{
    match unit {
        Unit::Microseconds => Some(1_000),
        Unit::Milliseconds => Some(1_000_000),
        _ => None,
    }
}

/// Whether a clock can be asked whether it was too coarse for a row: the row has
/// samples, and they are times.
pub open spec fn is_timed(unit: Unit, samples: nat) -> bool {
    samples > 0 && (unit == Unit::Microseconds || unit == Unit::Milliseconds)
}

/// What holds of a row that has samples, and nothing of one that has none.
pub open spec fn with_samples<T>(said: Option<T>, samples: nat) -> Option<T> {
    if samples > 0 {
        said
    } else {
        None
    }
}

/// What the clock said of a row that it can be asked of.
pub open spec fn clock_of(saturated: Option<bool>, unit: Unit, samples: nat) -> Option<bool> {
    if is_timed(unit, samples) {
        saturated
    } else {
        None
    }
}

/// Whether a tail block is that of `n` samples: named for what so many earn.
pub open spec fn is_tail_of(tail: Option<TailBlock>, summary: Option<Summary>, n: nat) -> bool {
    match (tail, summary) {
        (Some(t), Some(s)) => tail_of(n) is Some && t.statistic@ == tail_name(tail_of(n)->0)
            && t.value == s.tail_value,
        (None, None) => true,
        _ => false,
    }
}

impl DocumentCell {
    /// Build a row. A row has a summary exactly where it has samples, and its tail
    /// is named for how many there are. `cov_note` says that their variation is
    /// high, where it is; `saturated` whether the clock was too coarse for them,
    /// which counts only where the samples are times.
    pub fn from_report(
        report: CellReport,
        summary: Option<Summary>,
        cov_note: Option<String>,
        saturated: Option<bool>,
    ) -> (row: DocumentCell)
        requires
            summary is Some <==> report.samples@.len() > 0,
        ensures
            row.backend@ == backend_name(report.backend),
            row.scale == report.cell.declared_tiles,
            row.source@ == source_name(report.cell.source),
            row.cell@ == cell_text(report.cell),
            row.scenario@ == report.scenario@,
            row.metric@ == report.metric@,
            row.key@ == report.scenario@ + "."@ + report.metric@,
            row.unit@ == unit_name(report.unit),
            row.direction@ == direction_name(report.direction),
            row.isolation@ == isolation_name(report.isolation),
            is_block_of(row.warmup, report.warmup),
            row.discarded_warmup@ == report.discarded_warmup@,
            row.reps == report.reps_declared,
            row.min_reps == report.min_reps,
            row.outcome@ == outcome_word(report.outcome),
            text_view(row.reason) == text_view(report.reason),
            row.samples@ == report.samples@,
            row.summary == summary,
            is_tail_of(row.tail, summary, report.samples@.len()),
            row.timer_saturated == clock_of(saturated, report.unit, report.samples@.len()),
            strings(row.low_confidence_reasons@) == confidence_reasons(
                report.samples@.len(),
                report.min_reps,
                with_samples(text_view(cov_note), report.samples@.len()),
                report.machine_load.quiet,
                row.timer_saturated,
            ),
            row.confidence@ == (if row.low_confidence_reasons@.len() == 0 {
                "high"@
            } else {
                "low"@
            }),
            row.tail is Some <==> report.samples@.len() > 0,
            row.tail matches Some(t) ==> t.statistic@ == (if report.samples@.len() >= 100 {
                "p99"@
            } else {
                "max"@
            }) && t.value == summary->0.tail_value,
            row.timer_saturated == (if report.samples@.len() > 0 && (report.unit
                == Unit::Microseconds || report.unit == Unit::Milliseconds) {
                saturated
            } else {
                None
            }),
            row.outcome@ == (match report.outcome {
                RowOutcome::Passed => "ok"@,
                RowOutcome::Refused => "refused"@,
                RowOutcome::Failed => "failed"@,
                RowOutcome::Skipped => "skipped"@,
            }),
            (match (row.reason, report.reason) {
                (Some(told), Some(reason)) => told@ == reason@,
                (None, None) => true,
                _ => false,
            }),
            row.backend@ == (match report.backend {
                Backend::PmTiles => "pmtiles"@,
                Backend::Directory => "directory"@,
            }),
            row.confidence@ == "high"@ <==> {
                &&& report.samples@.len() >= report.min_reps
                &&& report.samples@.len() > 0 ==> cov_note is None
                &&& report.machine_load.quiet == Some(true)
                &&& !(saturated == Some(true) && report.samples@.len() > 0 && (report.unit
                    == Unit::Microseconds || report.unit == Unit::Milliseconds))
            },
            row.confidence@ == "high"@ || row.confidence@ == "low"@,
            row.low_confidence_reasons@.len() == 0 <==> row.confidence@ == "high"@,
            row.machine_load == report.machine_load,
            row.invariants == report.invariants,
            row.attested is None,
            row.dirty is None,
            row.oversubscribed == report.oversubscribed,
    {
        let measured: bool = report.samples.len() > 0;
        let timer_saturated: Option<bool> = if measured && nanoseconds_in(
            report.unit,
        ).is_some() {
            saturated
        } else {
            None
        };
        let note: Option<String> = if measured {
            cov_note
        } else {
            None
        };
        proof {
            reveal_strlit("high");
            reveal_strlit("low");
            assert("high"@.len() == 4 && "low"@.len() == 3);
            law_confident_iff_nothing_speaks_against_it(
                report.samples@.len(),
                report.min_reps,
                text_view(note),
                report.machine_load.quiet,
                timer_saturated,
            );
        }
        let reasons: Vec<String> = low_confidence(
            report.samples.len(),
            report.min_reps,
            note,
            report.machine_load.quiet,
            timer_saturated,
        );
        assert(strings(reasons@).len() == reasons@.len());
        let confidence: String = (if reasons.len() == 0 {
            "high"
        } else {
            "low"
        }).to_owned();
        let tail: Option<TailBlock> = match (summary, tail_kind(report.samples.len())) {
            (Some(s), Some(kind)) => Some(
                TailBlock { statistic: kind.as_str().to_owned(), value: s.tail_value },
            ),
            _ => None,
        };
        let key: String = concat3(report.scenario.as_str(), ".", report.metric.as_str());
        DocumentCell {
            backend: report.backend.as_str().to_owned(),
            scale: report.cell.declared_tiles,
            source: report.cell.source.as_str().to_owned(),
            cell: report.cell.spec(),
            scenario: report.scenario,
            metric: report.metric,
            key,
            unit: report.unit.as_str().to_owned(),
            direction: report.direction.as_str().to_owned(),
            isolation: report.isolation.as_str().to_owned(),
            warmup: warmup_block(report.warmup),
            discarded_warmup: report.discarded_warmup,
            reps: report.reps_declared,
            min_reps: report.min_reps,
            outcome: report.outcome.as_str().to_owned(),
            reason: report.reason,
            samples: report.samples,
            summary,
            tail,
            timer_saturated,
            confidence,
            low_confidence_reasons: reasons,
            machine_load: report.machine_load,
            invariants: report.invariants,
            attested: None,
            dirty: None,
            oversubscribed: report.oversubscribed,
        }
    }
}

/// Nothing under a hundred samples is called a 99th percentile: a row's tail has
/// that name exactly where it has as many.
pub proof fn law_no_p99_of_few_samples(tail: TailBlock, summary: Summary, n: nat)
    requires
        n > 0,
        is_tail_of(Some(tail), Some(summary), n),
    ensures
        tail.statistic@ == "p99"@ <==> n >= 100,
        tail.statistic@ == "max"@ <==> n < 100,
{
    reveal_strlit("p99");
    reveal_strlit("max");
    assert("p99"@[0] != "max"@[0]);
}

/// The value of one invariant.
#[derive(Debug, Clone, PartialEq, Eq)]
pub enum FactValue {
    Count(u64),
    Digest(String),
}

/// A [`FactValue`], with its text as characters.
pub enum FactModel {
    Count(u64),
    Digest(Seq<char>),
}

impl View for FactValue {
    type V = FactModel;

    open spec fn view(&self) -> FactModel {
        match *self {
            FactValue::Count(n) => FactModel::Count(n),
            FactValue::Digest(d) => FactModel::Digest(d@),
        }
    }
}

/// One invariant, flattened for the page's equality table.
#[derive(Debug, Clone, PartialEq, Eq)]
pub struct InvariantEntry {
    pub library: String,
    pub scale: u32,
    pub source: String,
    pub name: String,
    pub value: FactValue,
    pub unit: String,
}

/// An [`InvariantEntry`], as texts.
pub struct EntryModel {
    pub library: Seq<char>,
    pub scale: u32,
    pub source: Seq<char>,
    pub name: Seq<char>,
    pub value: FactModel,
    pub unit: Seq<char>,
}

impl View for InvariantEntry {
    type V = EntryModel;

    open spec fn view(&self) -> EntryModel {
        EntryModel {
            library: self.library@,
            scale: self.scale,
            source: self.source@,
            name: self.name@,
            value: self.value@,
            unit: self.unit@,
        }
    }
}

/// A list of entries, as texts.
pub open spec fn entry_models(v: Seq<InvariantEntry>) -> Seq<EntryModel> {
    Seq::new(v.len(), |i: int| v[i]@)
}

/// Whether two entries are about the same thing.
pub open spec fn same_key(a: EntryModel, b: EntryModel) -> bool {
    a.library == b.library && a.scale == b.scale && a.source == b.source && a.name == b.name
}

/// Whether a table has an entry about the same thing.
pub open spec fn has_key(table: Seq<EntryModel>, e: EntryModel) -> bool {
    exists|i: int| 0 <= i < table.len() && same_key(#[trigger] table[i], e)
}

/// A table with an entry behind the others, unless it has one about the same
/// thing.
pub open spec fn with_entry(table: Seq<EntryModel>, e: Option<EntryModel>) -> Seq<EntryModel> {
    match e {
        None => table,
        Some(e) => if has_key(table, e) {
            table
        } else {
            table.push(e)
        },
    }
}

/// The entry of a cell's count, where it was taken.
pub open spec fn count_entry(cell: DocumentCell, f: Fact) -> Option<EntryModel> {
    match fact_of(cell.invariants.invariants, f) {
        Some(n) => Some(
            EntryModel {
                library: cell.backend@,
                scale: cell.scale,
                source: cell.source@,
                name: fact_name(f),
                value: FactModel::Count(n),
                unit: fact_unit(f),
            },
        ),
        None => None,
    }
}

/// The entry of a cell's digest, where it was taken.
pub open spec fn digest_entry(cell: DocumentCell) -> Option<EntryModel> {
    match cell.invariants.invariants.artefact_digest {
        Some(d) => Some(
            EntryModel {
                library: cell.backend@,
                scale: cell.scale,
                source: cell.source@,
                name: "artefact_digest"@,
                value: FactModel::Digest(d@),
                unit: "sha256"@,
            },
        ),
        None => None,
    }
}

/// The entries of one cell, in the order of the columns; a value that was not
/// measured gives none.
pub open spec fn cell_entries(cell: DocumentCell) -> Seq<Option<EntryModel>> {
    seq![
        count_entry(cell, Fact::OutputBytes),
        count_entry(cell, Fact::AllocatedBytes),
        count_entry(cell, Fact::FilesystemEntries),
        count_entry(cell, Fact::Directories),
        count_entry(cell, Fact::TilesProduced),
        digest_entry(cell),
        count_entry(cell, Fact::RootEntries),
        count_entry(cell, Fact::Leaves),
        count_entry(cell, Fact::Requests),
        count_entry(cell, Fact::RequestBytes),
    ]
}

/// A table with the first `n` of some entries behind the others.
pub open spec fn with_entries(
    table: Seq<EntryModel>,
    entries: Seq<Option<EntryModel>>,
    n: int,
) -> Seq<EntryModel>
    decreases n,
{
    if n <= 0 {
        table
    } else {
        with_entry(with_entries(table, entries, n - 1), entries[n - 1])
    }
}

/// The table of the first `n` cells: one entry for each thing that was measured,
/// with the value that was measured first.
pub open spec fn table_of(cells: Seq<DocumentCell>, n: int) -> Seq<EntryModel>
    decreases n,
{
    if n <= 0 {
        Seq::empty()
    } else {
        with_entries(table_of(cells, n - 1), cell_entries(cells[n - 1]), 10)
    }
}

/// A table with an entry behind the others, unless it has one about the same
/// thing.
fn add_entry(table: &mut Vec<InvariantEntry>, entry: InvariantEntry)
    ensures
        entry_models(final(table)@) == with_entry(entry_models(old(table)@), Some(entry@)),
{
    let ghost model = entry_models(table@);
    let mut i: usize = 0;
    while i < table.len()
        invariant
            i <= table@.len(),
            table@ == old(table)@,
            model == entry_models(table@),
            forall|k: int| 0 <= k < i ==> !same_key(#[trigger] model[k], entry@),
        decreases table@.len() - i,
    {
        let other: &InvariantEntry = &table[i];
        assert(model[i as int] == table@[i as int]@);
        if same_text(other.library.as_str(), entry.library.as_str()) && other.scale == entry.scale
            && same_text(other.source.as_str(), entry.source.as_str()) && same_text(
            other.name.as_str(),
            entry.name.as_str(),
        ) {
            assert(same_key(model[i as int], entry@));
            return ;
        }
        i = i + 1;
    }
    table.push(entry);
    assert(entry_models(table@) =~= model.push(entry@));
}

/// A table with a cell's count, where it was taken.
fn add_count(table: &mut Vec<InvariantEntry>, cell: &DocumentCell, f: Fact)
    ensures
        entry_models(final(table)@) == with_entry(
            entry_models(old(table)@),
            count_entry(*cell, f),
        ),
{
    match cell.invariants.invariants.fact(f) {
        Some(n) => add_entry(
            table,
            InvariantEntry {
                library: cell.backend.clone(),
                scale: cell.scale,
                source: cell.source.clone(),
                name: f.name().to_owned(),
                value: FactValue::Count(n),
                unit: f.unit().to_owned(),
            },
        ),
        None => {},
    }
}

/// A table with a cell's digest, where it was taken.
fn add_digest(table: &mut Vec<InvariantEntry>, cell: &DocumentCell)
    ensures
        entry_models(final(table)@) == with_entry(
            entry_models(old(table)@),
            digest_entry(*cell),
        ),
{
    match &cell.invariants.invariants.artefact_digest {
        Some(d) => add_entry(
            table,
            InvariantEntry {
                library: cell.backend.clone(),
                scale: cell.scale,
                source: cell.source.clone(),
                name: "artefact_digest".to_owned(),
                value: FactValue::Digest(d.clone()),
                unit: "sha256".to_owned(),
            },
        ),
        None => {},
    }
}

/// A table with the entries of a cell.
fn add_cell(table: &mut Vec<InvariantEntry>, cell: &DocumentCell)
    ensures
        entry_models(final(table)@) == with_entries(
            entry_models(old(table)@),
            cell_entries(*cell),
            10,
        ),
{
    let ghost start = entry_models(table@);
    let ghost entries = cell_entries(*cell);
    assert(with_entries(start, entries, 0) == start);
    add_count(table, cell, Fact::OutputBytes);
    assert(entry_models(table@) == with_entries(start, entries, 1));
    add_count(table, cell, Fact::AllocatedBytes);
    assert(entry_models(table@) == with_entries(start, entries, 2));
    add_count(table, cell, Fact::FilesystemEntries);
    assert(entry_models(table@) == with_entries(start, entries, 3));
    add_count(table, cell, Fact::Directories);
    assert(entry_models(table@) == with_entries(start, entries, 4));
    add_count(table, cell, Fact::TilesProduced);
    assert(entry_models(table@) == with_entries(start, entries, 5));
    add_digest(table, cell);
    assert(entry_models(table@) == with_entries(start, entries, 6));
    add_count(table, cell, Fact::RootEntries);
    assert(entry_models(table@) == with_entries(start, entries, 7));
    add_count(table, cell, Fact::Leaves);
    assert(entry_models(table@) == with_entries(start, entries, 8));
    add_count(table, cell, Fact::Requests);
    assert(entry_models(table@) == with_entries(start, entries, 9));
    add_count(table, cell, Fact::RequestBytes);
}

/// What a sweep writes.
#[derive(Debug)]
pub struct Document {
    pub schema_version: u32,
    pub family: String,
    pub runner: String,
    pub profile: String,
    pub started_at: String,
    pub finished_at: Option<String>,
    pub run_id: Option<String>,
    pub reps: RepsByKind,
    /// What the machine carried before the sweep had done anything.
    pub starting_load: Option<MachineLoad>,
    pub provenance: Option<RawJson>,
    pub cells: Vec<DocumentCell>,
    pub invariants: Vec<InvariantEntry>,
}

/// Whether two documents are the same but for their rows and their table.
pub open spec fn same_head(a: Document, b: Document) -> bool {
    &&& a.schema_version == b.schema_version
    &&& a.family == b.family
    &&& a.runner == b.runner
    &&& a.profile == b.profile
    &&& a.started_at == b.started_at
    &&& a.finished_at == b.finished_at
    &&& a.run_id == b.run_id
    &&& a.reps == b.reps
    &&& a.starting_load == b.starting_load
    &&& a.provenance == b.provenance
}

/// Whether a document is the empty one of a profile.
pub open spec fn is_new(doc: Document, profile: Profile, started_at: Seq<char>) -> bool {
    &&& doc.schema_version == SCHEMA_VERSION
    &&& doc.family@ == FAMILY@
    &&& doc.runner@ == RUNNER@
    &&& doc.profile@ == crate::storage::cells::profile_name(profile)
    &&& doc.started_at@ == started_at
    &&& doc.finished_at is None
    &&& doc.run_id is None
    &&& doc.reps.generate == (if profile == Profile::Ci {
        3int
    } else {
        7
    })
    &&& doc.reps.read == (if profile == Profile::Ci {
        3int
    } else {
        20
    })
    &&& doc.provenance is None
    &&& doc.cells@.len() == 0
    &&& doc.invariants@.len() == 0
}

impl Document {
    /// An empty document of a profile.
    pub fn new(profile: Profile, started_at: String) -> (doc: Document)
        ensures
            is_new(doc, profile, started_at@),
            doc.starting_load is None,
    {
        Document {
            schema_version: SCHEMA_VERSION,
            family: FAMILY.to_owned(),
            runner: RUNNER.to_owned(),
            profile: profile.label().to_owned(),
            started_at,
            finished_at: None,
            run_id: None,
            reps: reps_by_kind(profile),
            starting_load: None,
            provenance: None,
            cells: Vec::new(),
            invariants: Vec::new(),
        }
    }

    /// Add a row behind the others.
    pub fn push(&mut self, cell: DocumentCell)
        ensures
            final(self).cells@ == old(self).cells@.push(cell),
            same_head(*final(self), *old(self)),
            final(self).invariants == old(self).invariants,
    {
        self.cells.push(cell);
    }

    /// Rebuild the flat invariant table from the cells: one entry per
    /// `(backend, scale, source, name)` with a measured value.
    pub fn rebuild_invariant_table(&mut self)
        ensures
            entry_models(final(self).invariants@) == table_of(
                old(self).cells@,
                old(self).cells@.len() as int,
            ),
            final(self).cells == old(self).cells,
            same_head(*final(self), *old(self)),
    {
        self.invariants = invariant_table(&self.cells);
    }
}

/// The flat invariant table of some cells.
pub fn invariant_table(cells: &Vec<DocumentCell>) -> (table: Vec<InvariantEntry>)
    ensures
        entry_models(table@) == table_of(cells@, cells@.len() as int),
{
    let mut table: Vec<InvariantEntry> = Vec::new();
    let mut i: usize = 0;
    assert(entry_models(table@) =~= table_of(cells@, 0));
    while i < cells.len()
        invariant
            i <= cells@.len(),
            entry_models(table@) == table_of(cells@, i as int),
        decreases cells@.len() - i,
    {
        add_cell(&mut table, &cells[i]);
        i = i + 1;
    }
    table
}

/// Whether no two entries are about the same thing.
pub open spec fn keys_once(table: Seq<EntryModel>) -> bool {
    forall|a: int, b: int|
        0 <= a < b < table.len() ==> !same_key(#[trigger] table[a], #[trigger] table[b])
}

/// Adding entries keeps every entry, keeps keys apart and leaves nothing out.
proof fn lemma_with_entries(
    table: Seq<EntryModel>,
    entries: Seq<Option<EntryModel>>,
    n: int,
)
    requires
        0 <= n <= entries.len(),
        keys_once(table),
    ensures
        keys_once(with_entries(table, entries, n)),
        table.len() <= with_entries(table, entries, n).len(),
        forall|i: int|
            0 <= i < table.len() ==> #[trigger] with_entries(table, entries, n)[i] == table[i],
        forall|k: int|
            0 <= k < n && entries[k] is Some ==> has_key(
                with_entries(table, entries, n),
                (#[trigger] entries[k])->0,
            ),
    decreases n,
{
    if n > 0 {
        lemma_with_entries(table, entries, n - 1);
        let before = with_entries(table, entries, n - 1);
        let after = with_entries(table, entries, n);
        if let Some(e) = entries[n - 1] {
            if !has_key(before, e) {
                assert forall|a: int, b: int| 0 <= a < b < after.len() implies !same_key(
                    #[trigger] after[a],
                    #[trigger] after[b],
                ) by {
                    assert(after[a] == before[a]);
                    if b < before.len() {
                        assert(after[b] == before[b]);
                    } else {
                        assert(!same_key(before[a], e));
                    }
                }
                assert(same_key(after[before.len() as int], e));
            }
        }
        assert forall|k: int| 0 <= k < n && entries[k] is Some implies has_key(
            after,
            (#[trigger] entries[k])->0,
        ) by {
            if k < n - 1 {
                let e = entries[k]->0;
                let i = choose|i: int| 0 <= i < before.len() && same_key(#[trigger] before[i], e);
                assert(after[i] == before[i]);
            }
        }
    }
}

/// The table has one entry for each thing, and one for every value that a cell
/// measured.
pub proof fn law_table_has_each_thing_once(cells: Seq<DocumentCell>, n: int, c: int, k: int)
    requires
        0 <= c < n <= cells.len(),
        0 <= k < 10,
    ensures
        keys_once(table_of(cells, n)),
        cell_entries(cells[c])[k] is Some ==> has_key(
            table_of(cells, n),
            cell_entries(cells[c])[k]->0,
        ),
    decreases n,
{
    lemma_table_keys(cells, n - 1);
    let before = table_of(cells, n - 1);
    let entries = cell_entries(cells[n - 1]);
    lemma_with_entries(before, entries, 10);
    if c < n - 1 {
        law_table_has_each_thing_once(cells, n - 1, c, k);
        let after = table_of(cells, n);
        if cell_entries(cells[c])[k] is Some {
            let e = cell_entries(cells[c])[k]->0;
            let i = choose|i: int| 0 <= i < before.len() && same_key(#[trigger] before[i], e);
            assert(after[i] == before[i]);
        }
    } else if entries[k] is Some {
        assert(has_key(with_entries(before, entries, 10), entries[k]->0));
    }
}

/// The table has one entry for each thing.
proof fn lemma_table_keys(cells: Seq<DocumentCell>, n: int)
    requires
        n <= cells.len(),
    ensures
        keys_once(table_of(cells, n)),
    decreases n,
{
    if n > 0 {
        lemma_table_keys(cells, n - 1);
        lemma_with_entries(table_of(cells, n - 1), cell_entries(cells[n - 1]), 10);
    }
}

/// The names of a document's fields, in their order.
pub open spec fn document_field_names() -> Seq<Seq<char>> {
    seq![
        "schemaVersion"@,
        "family"@,
        "runner"@,
        "profile"@,
        "startedAt"@,
        "finishedAt"@,
        "runId"@,
        "measurement"@,
        "provenance"@,
        "cells"@,
        "invariants"@,
        "modelled"@,
        "replicate"@,
        "integrity"@,
    ]
}

/// The names of a document's fields, in their order.
pub fn document_fields() -> (out: Vec<&'static str>)
    ensures
        slices(out@) == document_field_names(),
{
    let out: Vec<&'static str> = vec![
        "schemaVersion",
        "family",
        "runner",
        "profile",
        "startedAt",
        "finishedAt",
        "runId",
        "measurement",
        "provenance",
        "cells",
        "invariants",
        "modelled",
        "replicate",
        "integrity",
    ];
    assert(slices(out@) =~= document_field_names());
    out
}

/// The names of a row's fields, in their order.
pub open spec fn cell_field_names() -> Seq<Seq<char>> {
    seq![
        "backend"@,
        "scale"@,
        "source"@,
        "cell"@,
        "scenario"@,
        "metric"@,
        "key"@,
        "unit"@,
        "direction"@,
        "isolation"@,
        "warmup"@,
        "discardedWarmup"@,
        "reps"@,
        "minReps"@,
        "outcome"@,
        "reason"@,
        "samples"@,
        "median"@,
        "min"@,
        "max"@,
        "iqr"@,
        "cov"@,
        "ci95"@,
        "ciHalfWidthPct"@,
        "p95OfSamples"@,
        "tail"@,
        "timerSaturated"@,
        "steadyState"@,
        "confidence"@,
        "lowConfidenceReasons"@,
        "machineLoad"@,
        "invariants"@,
    ]
}

/// The names of a row's fields, in their order.
pub fn cell_fields() -> (out: Vec<&'static str>)
    ensures
        slices(out@) == cell_field_names(),
{
    let out: Vec<&'static str> = vec![
        "backend",
        "scale",
        "source",
        "cell",
        "scenario",
        "metric",
        "key",
        "unit",
        "direction",
        "isolation",
        "warmup",
        "discardedWarmup",
        "reps",
        "minReps",
        "outcome",
        "reason",
        "samples",
        "median",
        "min",
        "max",
        "iqr",
        "cov",
        "ci95",
        "ciHalfWidthPct",
        "p95OfSamples",
        "tail",
        "timerSaturated",
        "steadyState",
        "confidence",
        "lowConfidenceReasons",
        "machineLoad",
        "invariants",
    ];
    assert(slices(out@) =~= cell_field_names());
    out
}

/// A seed as a document writes it: sixteen hexadecimal digits behind `0x`.
pub open spec fn seed_form(seed: u64) -> Seq<char> {
    let digits = hexadecimal(seed as nat);
    "0x"@ + (if digits.len() < 16 {
        zeros((16 - digits.len()) as nat)
    } else {
        Seq::empty()
    }) + digits
}

/// A seed as a document writes it.
pub fn seed_text(seed: u64) -> (out: String)
    ensures
        out@ == seed_form(seed),
{
    let digits: String = hex_text(seed);
    let n: usize = crate::text::chars_of(digits.as_str()).len();
    let mut out: String = "0x".to_owned();
    let mut i: usize = n;
    while i < 16
        invariant
            n <= i,
            n == digits@.len(),
            i <= 16 || i == n,
            out@ == "0x"@ + zeros((i - n) as nat),
        decreases 16 - i,
    {
        out.push('0');
        i = i + 1;
        assert(out@ =~= "0x"@ + zeros((i - n) as nat));
    }
    out.append(digits.as_str());
    assert(out@ =~= seed_form(seed));
    out
}

/// What a run declares about how it measured, in words and counts.
#[derive(Debug)]
pub struct Measurement {
    pub unit: &'static str,
    pub isolation: &'static str,
    pub reps: RepsByKind,
    pub min_reps: RepsByKind,
    pub seed: String,
    pub clock: &'static str,
    pub warmup: Option<WarmupBlock>,
    pub interval_statistic: &'static str,
    pub interval_method: &'static str,
    pub interval_resamples: usize,
    pub fresh_process_per_cell: bool,
    pub page_cache: &'static str,
}

impl Measurement {
    /// What a run on a profile declares.
    pub fn declared(profile: Profile) -> (m: Measurement)
        ensures
            m.unit@ == "fresh-process-per-cell"@,
            m.isolation@ == "subprocess-per-cell"@,
            m.reps == m.min_reps,
            m.reps.generate == (if profile == Profile::Ci {
                3u32
            } else {
                7u32
            }),
            m.reps.read == (if profile == Profile::Ci {
                3u32
            } else {
                20u32
            }),
            m.seed@ == seed_form(SEED),
            m.clock@ == "std::time::Instant"@,
            m.warmup is Some,
            m.warmup->0.policy@ == "discard-first-pass"@,
            m.warmup->0.passes == 1,
            m.interval_statistic@ == "median"@,
            m.interval_method@ == "percentile-bootstrap"@,
            m.interval_resamples == BOOTSTRAP_RESAMPLES,
            m.fresh_process_per_cell,
            m.page_cache@ == "warm-unknown"@,
    {
        Measurement {
            unit: "fresh-process-per-cell",
            isolation: "subprocess-per-cell",
            reps: reps_by_kind(profile),
            min_reps: reps_by_kind(profile),
            seed: seed_text(SEED),
            clock: "std::time::Instant",
            warmup: warmup_block(Some(one_discarded_pass())),
            interval_statistic: "median",
            interval_method: "percentile-bootstrap",
            interval_resamples: BOOTSTRAP_RESAMPLES,
            fresh_process_per_cell: true,
            page_cache: "warm-unknown",
        }
    }
}

} // verus!
