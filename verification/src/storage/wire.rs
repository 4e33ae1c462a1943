//! What a child process hands its parent, and how the parent folds the children
//! of one scenario into one run.

use crate::storage::scenarios::facts::{
    direction_name, disagreements_of, higher_peak, law_no_notes_iff_all_agree, max_peak,
    outcome_word, unit_name, RepFacts, RowOutcome, ScenarioRun, Series, Skip,
};
use crate::text::{concat3, same_text, strings};
use crate::words::{join, joined};
use vstd::prelude::*;

verus! {

/// The samples of one metric, as the bits of floats.
#[derive(Debug, Clone)]
pub struct WireSeries {
    pub metric: String,
    pub unit: String,
    pub direction: String,
    pub samples: Vec<u64>,
}

/// A [`WireSeries`], as texts and numbers.
pub struct SeriesModel {
    pub metric: Seq<char>,
    pub unit: Seq<char>,
    pub direction: Seq<char>,
    pub samples: Seq<u64>,
}

impl View for WireSeries {
    type V = SeriesModel;

    open spec fn view(&self) -> SeriesModel {
        SeriesModel {
            metric: self.metric@,
            unit: self.unit@,
            direction: self.direction@,
            samples: self.samples@,
        }
    }
}

/// A list of series, as texts and numbers.
pub open spec fn series_models(v: Seq<WireSeries>) -> Seq<SeriesModel> {
    Seq::new(v.len(), |i: int| v[i]@)
}

/// What one child measured, or why it did not.
#[derive(Debug, Clone)]
pub struct WireRun {
    pub outcome: String,
    pub reason: Option<String>,
    pub series: Vec<WireSeries>,
    pub reps: Vec<RepFacts>,
    /// The values of the passes that were thrown away, as the bits of floats.
    pub discarded_warmup: Vec<u64>,
    pub peak_rss_bytes: Option<u64>,
    pub heap_peak_bytes: Option<u64>,
}

/// A [`WireRun`], as texts and numbers.
pub struct RunModel {
    pub outcome: Seq<char>,
    pub reason: Option<Seq<char>>,
    pub series: Seq<SeriesModel>,
    pub reps: Seq<RepFacts>,
    pub discarded_warmup: Seq<u64>,
    pub peak_rss_bytes: Option<u64>,
    pub heap_peak_bytes: Option<u64>,
}

/// A text that may be there.
pub open spec fn text_view(t: Option<String>) -> Option<Seq<char>> {
    match t {
        Some(s) => Some(s@),
        None => None,
    }
}

impl View for WireRun {
    type V = RunModel;

    open spec fn view(&self) -> RunModel {
        RunModel {
            outcome: self.outcome@,
            reason: text_view(self.reason),
            series: series_models(self.series@),
            reps: self.reps@,
            discarded_warmup: self.discarded_warmup@,
            peak_rss_bytes: self.peak_rss_bytes,
            heap_peak_bytes: self.heap_peak_bytes,
        }
    }
}

/// A series as it goes over the wire.
pub open spec fn series_on_wire(s: Series) -> SeriesModel {
    SeriesModel {
        metric: s.metric.name@,
        unit: unit_name(s.metric.unit),
        direction: direction_name(s.metric.direction),
        samples: s.samples@,
    }
}

/// A copy of samples.
fn copy_samples(samples: &Vec<u64>) -> (out: Vec<u64>)
    ensures
        out@ == samples@,
{
    let mut out: Vec<u64> = Vec::new();
    let mut i: usize = 0;
    while i < samples.len()
        invariant
            i <= samples@.len(),
            out@ == samples@.take(i as int),
        decreases samples@.len() - i,
    {
        out.push(samples[i]);
        i = i + 1;
        assert(out@ =~= samples@.take(i as int));
    }
    assert(out@ =~= samples@);
    out
}

impl WireRun {
    /// A run that was measured.
    pub fn from_run(run: ScenarioRun) -> (wire: WireRun)
        ensures
            wire@ == (RunModel {
                outcome: outcome_word(RowOutcome::Passed),
                reason: None,
                series: Seq::new(run.series@.len(), |i: int| series_on_wire(run.series@[i])),
                reps: run.reps@,
                discarded_warmup: run.discarded_warmup@,
                peak_rss_bytes: run.peak_rss_bytes,
                heap_peak_bytes: run.heap_peak_bytes,
            }),
    {
        let mut series: Vec<WireSeries> = Vec::new();
        let mut i: usize = 0;
        while i < run.series.len()
            invariant
                i <= run.series@.len(),
                series@.len() == i,
                forall|k: int|
                    0 <= k < i ==> (#[trigger] series@[k])@ == series_on_wire(run.series@[k]),
            decreases run.series@.len() - i,
        {
            let one: &Series = &run.series[i];
            series.push(
                WireSeries {
                    metric: one.metric.name.to_owned(),
                    unit: one.metric.unit.as_str().to_owned(),
                    direction: one.metric.direction.as_str().to_owned(),
                    samples: copy_samples(&one.samples),
                },
            );
            i = i + 1;
        }
        assert(series_models(series@) =~= Seq::new(
            run.series@.len(),
            |i: int| series_on_wire(run.series@[i]),
        ));
        WireRun {
            outcome: RowOutcome::Passed.as_str().to_owned(),
            reason: None,
            series,
            reps: run.reps,
            discarded_warmup: run.discarded_warmup,
            peak_rss_bytes: run.peak_rss_bytes,
            heap_peak_bytes: run.heap_peak_bytes,
        }
    }

    /// A run that was not measured.
    pub fn from_skip(skip: &Skip) -> (wire: WireRun)
        ensures
            wire@ == (RunModel {
                outcome: outcome_word(skip.outcome),
                reason: Some(skip.reason@),
                series: Seq::empty(),
                reps: Seq::empty(),
                discarded_warmup: Seq::empty(),
                peak_rss_bytes: None,
                heap_peak_bytes: None,
            }),
    {
        let wire = WireRun {
            outcome: skip.outcome.as_str().to_owned(),
            reason: Some(skip.reason.clone()),
            series: Vec::new(),
            reps: Vec::new(),
            discarded_warmup: Vec::new(),
            peak_rss_bytes: None,
            heap_peak_bytes: None,
        };
        assert(series_models(wire.series@) =~= Seq::<SeriesModel>::empty());
        wire
    }
}

/// The index of the first series of a metric from `i` on, or their number.
pub open spec fn metric_index(series: Seq<SeriesModel>, metric: Seq<char>, i: int) -> int
    decreases series.len() - i,
{
    if 0 <= i < series.len() && series[i].metric != metric {
        metric_index(series, metric, i + 1)
    } else {
        i
    }
}

/// A series with more samples behind its own.
pub open spec fn extended(s: SeriesModel, samples: Seq<u64>) -> SeriesModel {
    SeriesModel { samples: s.samples + samples, ..s }
}

/// One series, folded into the run so far: behind the samples of the same
/// metric, or at the end where no series has it.
pub open spec fn absorbed(series: Seq<SeriesModel>, one: SeriesModel) -> Seq<SeriesModel> {
    let i = metric_index(series, one.metric, 0);
    if i < series.len() {
        series.update(i, extended(series[i], one.samples))
    } else {
        series.push(one)
    }
}

/// The first `n` series of a child, folded into the run so far.
pub open spec fn all_absorbed(series: Seq<SeriesModel>, more: Seq<SeriesModel>, n: int) -> Seq<
    SeriesModel,
>
    decreases n,
{
    if n <= 0 {
        series
    } else {
        absorbed(all_absorbed(series, more, n - 1), more[n - 1])
    }
}

/// The metrics, among the first `n` of a child, that no series so far had.
pub open spec fn newcomers(series: Seq<SeriesModel>, more: Seq<SeriesModel>, n: int) -> Seq<
    Seq<char>,
>
    decreases n,
{
    if n <= 0 {
        Seq::empty()
    } else {
        let so_far = all_absorbed(series, more, n - 1);
        if metric_index(so_far, more[n - 1].metric, 0) < so_far.len() {
            newcomers(series, more, n - 1)
        } else {
            newcomers(series, more, n - 1).push(more[n - 1].metric)
        }
    }
}

/// A reason with a note on the metrics that appeared partway through.
pub open spec fn noted(reason: Option<Seq<char>>, newcomers: Seq<Seq<char>>) -> Option<Seq<char>> {
    if newcomers.len() == 0 {
        reason
    } else {
        let note = "repetitions disagreed about which series they publish; "@ + joined(
            newcomers,
            ", "@,
        ) + " appeared partway through"@;
        match reason {
            Some(existing) => Some(existing + "; "@ + note),
            None => Some(note),
        }
    }
}

/// One more child, folded into the run so far.
pub open spec fn merged(acc: RunModel, one: RunModel) -> RunModel {
    let n = one.series.len() as int;
    let passed = one.outcome == "ok"@;
    RunModel {
        outcome: if passed {
            acc.outcome
        } else {
            one.outcome
        },
        reason: if passed {
            noted(acc.reason, newcomers(acc.series, one.series, n))
        } else {
            one.reason
        },
        series: all_absorbed(acc.series, one.series, n),
        reps: acc.reps + one.reps,
        discarded_warmup: acc.discarded_warmup + one.discarded_warmup,
        peak_rss_bytes: higher_peak(acc.peak_rss_bytes, one.peak_rss_bytes),
        heap_peak_bytes: higher_peak(acc.heap_peak_bytes, one.heap_peak_bytes),
    }
}

/// The index of the first series of a metric, or their number.
fn find_metric(series: &Vec<WireSeries>, metric: &str) -> (i: usize)
    ensures
        i == metric_index(series_models(series@), metric@, 0),
        i <= series@.len(),
{
    let ghost model = series_models(series@);
    let mut i: usize = 0;
    while i < series.len() && !same_text(series[i].metric.as_str(), metric)
        invariant
            i <= series@.len(),
            model == series_models(series@),
            metric_index(model, metric@, 0) == metric_index(model, metric@, i as int),
        decreases series@.len() - i,
    {
        assert(model[i as int] == series@[i as int]@);
        i = i + 1;
    }
    if i < series.len() {
        assert(model[i as int] == series@[i as int]@);
    }
    i
}

/// A text with the characters of another.
fn copy_text(t: &Option<String>) -> (out: Option<String>)
    ensures
        text_view(out) == text_view(*t),
{
    match t {
        Some(s) => Some(s.clone()),
        None => None,
    }
}

/// One series, folded into the run so far. Whether no series had its metric.
fn absorb(series: &mut Vec<WireSeries>, one: &WireSeries) -> (is_new: bool)
    ensures
        series_models(final(series)@) == absorbed(series_models(old(series)@), one@),
        is_new == (metric_index(series_models(old(series)@), one@.metric, 0) >= old(
            series,
        )@.len()),
{
    let ghost before = series_models(series@);
    let i: usize = find_metric(series, one.metric.as_str());
    if i < series.len() {
        let mut samples: Vec<u64> = copy_samples(&series[i].samples);
        let mut more: Vec<u64> = copy_samples(&one.samples);
        samples.append(&mut more);
        let grown = WireSeries {
            metric: series[i].metric.clone(),
            unit: series[i].unit.clone(),
            direction: series[i].direction.clone(),
            samples,
        };
        assert(before[i as int] == series@[i as int]@);
        series.set(i, grown);
        assert(series_models(series@) =~= absorbed(before, one@));
        false
    } else {
        series.push(
            WireSeries {
                metric: one.metric.clone(),
                unit: one.unit.clone(),
                direction: one.direction.clone(),
                samples: copy_samples(&one.samples),
            },
        );
        assert(series_models(series@) =~= absorbed(before, one@));
        true
    }
}

/// Fold one more per-repetition child into the run so far.
///
/// Series pair by metric name, never by position. A metric that appears in one
/// child and not another is carried through and named in the reason.
pub fn merge(into: Option<WireRun>, one: WireRun) -> (out: WireRun)
    ensures
        out@ == (match into {
            Some(acc) => merged(acc@, one@),
            None => one@,
        }),
        one.outcome@ != "ok"@ ==> out.outcome@ == one.outcome@,
        one.outcome@ != "ok"@ ==> (match (out.reason, one.reason) {
            (Some(told), Some(reason)) => told@ == reason@,
            (None, None) => true,
            _ => false,
        }),
        out.outcome@ == "ok"@ <==> one.outcome@ == "ok"@ && (into matches Some(acc)
            ==> acc.outcome@ == "ok"@),
        into matches Some(acc) ==> {
            &&& one.outcome@ == "ok"@ ==> out.outcome@ == acc.outcome@
            &&& out.reps@ == acc.reps@ + one.reps@
            &&& out.discarded_warmup@ == acc.discarded_warmup@ + one.discarded_warmup@
        },
{
    proof {
        if into is Some {
            law_merge_keeps_what_went_wrong(into->0@, one@);
        }
    }
    let mut acc: WireRun = match into {
        Some(acc) => acc,
        None => return one,
    };
    let ghost start = acc@;
    let ghost more = series_models(one.series@);
    let mut unmatched: Vec<String> = Vec::new();
    let mut i: usize = 0;
    assert(strings(unmatched@) =~= newcomers(start.series, more, 0));
    while i < one.series.len()
        invariant
            i <= one.series@.len(),
            more == series_models(one.series@),
            series_models(acc.series@) == all_absorbed(start.series, more, i as int),
            strings(unmatched@) == newcomers(start.series, more, i as int),
            acc.outcome@ == start.outcome,
            text_view(acc.reason) == start.reason,
            acc.reps@ == start.reps,
            acc.discarded_warmup@ == start.discarded_warmup,
            acc.peak_rss_bytes == start.peak_rss_bytes,
            acc.heap_peak_bytes == start.heap_peak_bytes,
        decreases one.series@.len() - i,
    {
        let ghost names = strings(unmatched@);
        assert(more[i as int] == one.series@[i as int]@);
        if absorb(&mut acc.series, &one.series[i]) {
            unmatched.push(one.series[i].metric.clone());
            assert(strings(unmatched@) =~= names.push(more[i as int].metric));
        }
        i = i + 1;
        assert(strings(unmatched@) =~= newcomers(start.series, more, i as int));
    }
    let mut reason: Option<String> = copy_text(&acc.reason);
    assert(strings(unmatched@).len() == unmatched@.len());
    if unmatched.len() > 0 {
        let note: String = concat3(
            "repetitions disagreed about which series they publish; ",
            join(&unmatched, ", ").as_str(),
            " appeared partway through",
        );
        reason = match reason {
            Some(existing) => Some(concat3(existing.as_str(), "; ", note.as_str())),
            None => Some(note),
        };
    }
    let mut outcome: String = acc.outcome.clone();
    if !same_text(one.outcome.as_str(), "ok") {
        outcome = one.outcome.clone();
        reason = copy_text(&one.reason);
    }
    let mut reps: Vec<RepFacts> = acc.reps;
    let mut more_reps: Vec<RepFacts> = one.reps;
    reps.append(&mut more_reps);
    let mut discarded: Vec<u64> = acc.discarded_warmup;
    let mut more_discarded: Vec<u64> = one.discarded_warmup;
    discarded.append(&mut more_discarded);
    WireRun {
        outcome,
        reason,
        series: acc.series,
        reps,
        discarded_warmup: discarded,
        peak_rss_bytes: max_peak(acc.peak_rss_bytes, one.peak_rss_bytes),
        heap_peak_bytes: max_peak(acc.heap_peak_bytes, one.heap_peak_bytes),
    }
}

/// A child that did not come out `ok` decides the outcome and the reason of the
/// run it is folded into; one that did changes no outcome. So a run says `ok` only
/// where every child in it did. Every repetition and every discarded pass is kept,
/// those of the child last, and a peak is the larger of the two that were observed.
pub proof fn law_merge_keeps_what_went_wrong(acc: RunModel, one: RunModel)
    ensures
        one.outcome != "ok"@ ==> merged(acc, one).outcome == one.outcome && merged(
            acc,
            one,
        ).reason == one.reason,
        one.outcome == "ok"@ ==> merged(acc, one).outcome == acc.outcome,
        merged(acc, one).outcome == "ok"@ <==> acc.outcome == "ok"@ && one.outcome == "ok"@,
        merged(acc, one).reps == acc.reps + one.reps,
        merged(acc, one).discarded_warmup == acc.discarded_warmup + one.discarded_warmup,
        merged(acc, one).peak_rss_bytes is Some <==> acc.peak_rss_bytes is Some
            || one.peak_rss_bytes is Some,
        acc.peak_rss_bytes matches Some(a) ==> merged(acc, one).peak_rss_bytes->0 >= a,
        one.peak_rss_bytes matches Some(b) ==> merged(acc, one).peak_rss_bytes->0 >= b,
        merged(acc, one).peak_rss_bytes == acc.peak_rss_bytes || merged(acc, one).peak_rss_bytes
            == one.peak_rss_bytes,
        merged(acc, one).heap_peak_bytes is Some <==> acc.heap_peak_bytes is Some
            || one.heap_peak_bytes is Some,
        acc.heap_peak_bytes matches Some(a) ==> merged(acc, one).heap_peak_bytes->0 >= a,
        one.heap_peak_bytes matches Some(b) ==> merged(acc, one).heap_peak_bytes->0 >= b,
        merged(acc, one).heap_peak_bytes == acc.heap_peak_bytes || merged(acc, one).heap_peak_bytes
            == one.heap_peak_bytes,
{
}

/// Which metrics appeared partway through.
proof fn lemma_newcomers(series: Seq<SeriesModel>, more: Seq<SeriesModel>, n: int, m: Seq<char>)
    requires
        0 <= n <= more.len(),
    ensures
        newcomers(series, more, n).contains(m) <==> (exists|j: int|
            0 <= j < n && (#[trigger] more[j]).metric == m) && !(exists|i: int|
            0 <= i < series.len() && (#[trigger] series[i]).metric == m),
        (exists|i: int|
            0 <= i < all_absorbed(series, more, n).len() && (#[trigger] all_absorbed(
                series,
                more,
                n,
            )[i]).metric == m) <==> (exists|j: int|
            0 <= j < n && (#[trigger] more[j]).metric == m) || (exists|i: int|
            0 <= i < series.len() && (#[trigger] series[i]).metric == m),
    decreases n,
{
    if n > 0 {
        lemma_newcomers(series, more, n - 1, m);
        let before = all_absorbed(series, more, n - 1);
        let after = all_absorbed(series, more, n);
        let one = more[n - 1];
        let at = metric_index(before, one.metric, 0);
        lemma_metric_index(before, one.metric, 0);
        let names = newcomers(series, more, n - 1);
        let grown = newcomers(series, more, n);
        if exists|i: int| 0 <= i < before.len() && (#[trigger] before[i]).metric == m {
            let i = choose|i: int| 0 <= i < before.len() && (#[trigger] before[i]).metric == m;
            assert(after[i].metric == m);
        }
        if exists|i: int| 0 <= i < after.len() && (#[trigger] after[i]).metric == m {
            let i = choose|i: int| 0 <= i < after.len() && (#[trigger] after[i]).metric == m;
            if i < before.len() {
                assert(before[i].metric == m);
                if exists|j: int| 0 <= j < n - 1 && (#[trigger] more[j]).metric == m {
                    let j = choose|j: int| 0 <= j < n - 1 && (#[trigger] more[j]).metric == m;
                    assert(0 <= j < n && more[j].metric == m);
                }
            } else {
                assert(more[n - 1].metric == m);
            }
        }
        if exists|j: int| 0 <= j < n && (#[trigger] more[j]).metric == m {
            let j = choose|j: int| 0 <= j < n && (#[trigger] more[j]).metric == m;
            if j < n - 1 {
                assert(0 <= j < n - 1 && more[j].metric == m);
            }
        }
        if one.metric == m {
            if at < before.len() {
                assert(after[at].metric == m);
            } else {
                assert(after[before.len() as int].metric == m);
                assert(grown[names.len() as int] == m);
                assert(grown.contains(m));
            }
        }
        if names.contains(m) {
            let k = choose|k: int| 0 <= k < names.len() && names[k] == m;
            assert(grown[k] == m);
        }
        if grown.contains(m) && !names.contains(m) {
            let k = choose|k: int| 0 <= k < grown.len() && grown[k] == m;
            assert(k == names.len());
            assert(m == one.metric);
        }
    } else {
        assert(!newcomers(series, more, n).contains(m));
        assert(all_absorbed(series, more, n) == series);
    }
}

/// A child that came out `ok` leaves the reason as it was where it brings no
/// metric that the run had not, and adds a note to it where it does: with one such
/// metric, the note names it.
pub proof fn law_merge_notes_new_metrics(acc: RunModel, one: RunModel, m: Seq<char>)
    requires
        one.outcome == "ok"@,
    ensures
        (forall|j: int|
            0 <= j < one.series.len() ==> exists|i: int|
                0 <= i < acc.series.len() && (#[trigger] acc.series[i]).metric == (
                #[trigger] one.series[j]).metric) ==> merged(acc, one).reason == acc.reason,
        (exists|j: int| 0 <= j < one.series.len() && (#[trigger] one.series[j]).metric == m)
            && !(exists|i: int| 0 <= i < acc.series.len() && (#[trigger] acc.series[i]).metric == m)
            ==> merged(acc, one).reason is Some && merged(acc, one).reason != acc.reason,
        acc.reason is None && one.series.len() == 1 && one.series[0].metric == m && !(exists|i: int|
            0 <= i < acc.series.len() && (#[trigger] acc.series[i]).metric == m) ==> merged(
            acc,
            one,
        ).reason == Some(
            "repetitions disagreed about which series they publish; "@ + m
                + " appeared partway through"@,
        ),
{
    let n = one.series.len() as int;
    let names = newcomers(acc.series, one.series, n);
    lemma_newcomers(acc.series, one.series, n, m);
    if names.len() > 0 {
        let first = names[0];
        assert(names.contains(first));
        lemma_newcomers(acc.series, one.series, n, first);
        let note = "repetitions disagreed about which series they publish; "@ + joined(
            names,
            ", "@,
        ) + " appeared partway through"@;
        if let Some(existing) = acc.reason {
            reveal_strlit("; ");
            assert((existing + "; "@ + note).len() > existing.len());
        }
    }
    if n == 1 && one.series[0].metric == m && !(exists|i: int|
        0 <= i < acc.series.len() && (#[trigger] acc.series[i]).metric == m) {
        lemma_metric_index(acc.series, m, 0);
        reveal_with_fuel(newcomers, 2);
        assert(names =~= seq![m]);
    }
}

/// The samples of a metric: those of the first series that has it.
pub open spec fn samples_of(series: Seq<SeriesModel>, metric: Seq<char>) -> Seq<u64> {
    let i = metric_index(series, metric, 0);
    if i < series.len() {
        series[i].samples
    } else {
        Seq::empty()
    }
}

/// Whether no two series have one metric.
pub open spec fn metrics_distinct(series: Seq<SeriesModel>) -> bool {
    forall|a: int, b: int|
        0 <= a < b < series.len() ==> (#[trigger] series[a]).metric != (#[trigger] series[b]).metric
}

/// Where the series of a metric is found.
proof fn lemma_metric_index(series: Seq<SeriesModel>, metric: Seq<char>, i: int)
    requires
        0 <= i <= series.len(),
    ensures
        i <= metric_index(series, metric, i) <= series.len(),
        metric_index(series, metric, i) < series.len() ==> series[metric_index(
            series,
            metric,
            i,
        )].metric == metric,
        forall|k: int|
            i <= k < metric_index(series, metric, i) ==> (#[trigger] series[k]).metric != metric,
    decreases series.len() - i,
{
    if i < series.len() && series[i].metric != metric {
        lemma_metric_index(series, metric, i + 1);
    }
}

/// Absorbing a series adds its samples to its metric, and to no other.
proof fn lemma_absorbed(series: Seq<SeriesModel>, one: SeriesModel, metric: Seq<char>)
    requires
        metrics_distinct(series),
    ensures
        metrics_distinct(absorbed(series, one)),
        samples_of(absorbed(series, one), metric) == (if metric == one.metric {
            samples_of(series, metric) + one.samples
        } else {
            samples_of(series, metric)
        }),
{
    let out = absorbed(series, one);
    lemma_metric_index(series, one.metric, 0);
    lemma_metric_index(series, metric, 0);
    lemma_metric_index(out, metric, 0);
    let at = metric_index(series, one.metric, 0);
    let (i, j) = (metric_index(series, metric, 0), metric_index(out, metric, 0));
    if at < series.len() {
        assert forall|a: int, b: int| 0 <= a < b < out.len() implies (#[trigger] out[a]).metric
            != (#[trigger] out[b]).metric by {
            assert(series[a].metric != series[b].metric);
        }
        assert(i == j) by {
            if i < j {
                assert(out[i].metric == series[i].metric);
            } else if j < i {
                assert(series[j].metric == out[j].metric);
            }
        }
    } else {
        assert forall|a: int, b: int| 0 <= a < b < out.len() implies (#[trigger] out[a]).metric
            != (#[trigger] out[b]).metric by {
            if b < series.len() {
                assert(series[a].metric != series[b].metric);
            } else {
                assert(series[a].metric != one.metric);
            }
        }
        if i < series.len() {
            assert(i == j) by {
                if i < j {
                    assert(out[i].metric == series[i].metric);
                } else if j < i {
                    assert(series[j].metric == out[j].metric);
                }
            }
        } else if metric == one.metric {
            assert(out[series.len() as int] == one);
            assert(j == series.len()) by {
                if j < series.len() {
                    assert(series[j].metric == out[j].metric);
                } else if j > series.len() {
                    assert(out[series.len() as int].metric != metric);
                }
            }
            assert(Seq::<u64>::empty() + one.samples =~= one.samples);
        } else {
            assert(j == out.len()) by {
                if j < series.len() {
                    assert(series[j].metric == out[j].metric);
                } else if j == series.len() {
                    assert(out[j] == one);
                }
            }
        }
    }
}

/// Merging loses no sample and moves none to another metric: under each metric
/// stand the samples of the run so far and then those of the child.
pub proof fn law_merge_pairs_by_metric(acc: RunModel, one: RunModel, metric: Seq<char>)
    requires
        metrics_distinct(acc.series),
        metrics_distinct(one.series),
    ensures
        metrics_distinct(merged(acc, one).series),
        samples_of(merged(acc, one).series, metric) == samples_of(acc.series, metric) + samples_of(
            one.series,
            metric,
        ),
{
    lemma_absorb_all(acc.series, one.series, one.series.len() as int, metric);
    assert(one.series.take(one.series.len() as int) =~= one.series);
}

/// What absorbing the first series of a child adds to a metric.
proof fn lemma_absorb_all(
    series: Seq<SeriesModel>,
    more: Seq<SeriesModel>,
    n: int,
    metric: Seq<char>,
)
    requires
        metrics_distinct(series),
        metrics_distinct(more),
        0 <= n <= more.len(),
    ensures
        metrics_distinct(all_absorbed(series, more, n)),
        samples_of(all_absorbed(series, more, n), metric) == samples_of(series, metric)
            + samples_of(more.take(n), metric),
    decreases n,
{
    let head = more.take(n);
    lemma_metric_index(head, metric, 0);
    if n > 0 {
        let before = all_absorbed(series, more, n - 1);
        let shorter = more.take(n - 1);
        lemma_absorb_all(series, more, n - 1, metric);
        lemma_absorbed(before, more[n - 1], metric);
        lemma_metric_index(shorter, metric, 0);
        let (i, j) = (metric_index(shorter, metric, 0), metric_index(head, metric, 0));
        if more[n - 1].metric == metric {
            assert(i == shorter.len()) by {
                if i < shorter.len() {
                    assert(more[i].metric != more[n - 1].metric);
                    assert(shorter[i] == more[i]);
                }
            }
            assert(j == n - 1) by {
                assert(head[n - 1] == more[n - 1]);
                if j < n - 1 {
                    assert(head[j] == more[j]);
                    assert(more[j].metric != more[n - 1].metric);
                }
            }
            assert(samples_of(series, metric) + Seq::<u64>::empty() + more[n - 1].samples
                =~= samples_of(series, metric) + more[n - 1].samples);
        } else {
            assert(samples_of(head, metric) == samples_of(shorter, metric)) by {
                if i < shorter.len() {
                    assert(head[i] == shorter[i]);
                    if j < i {
                        assert(head[j] == shorter[j]);
                    }
                    assert(i == j);
                } else {
                    if j < n - 1 {
                        assert(head[j] == shorter[j]);
                    } else if j == n - 1 {
                        assert(head[j] == more[n - 1]);
                    }
                }
            }
        }
    } else {
        assert(samples_of(series, metric) + samples_of(head, metric) =~= samples_of(
            series,
            metric,
        ));
    }
}

/// How a row came out: a child that says `ok` is measured, unless its own
/// repetitions disagree, and what the host declined is skipped.
pub open spec fn row_outcome_of(outcome: Seq<char>, disagreements: Seq<Seq<char>>) -> RowOutcome {
    if outcome == "ok"@ {
        if disagreements.len() == 0 {
            RowOutcome::Passed
        } else {
            RowOutcome::Refused
        }
    } else if outcome == "skipped"@ {
        RowOutcome::Skipped
    } else {
        RowOutcome::Failed
    }
}

/// Why a row came out as it did: the child's own reason, or what its
/// repetitions disagree on.
pub open spec fn row_reason_of(reason: Option<Seq<char>>, disagreements: Seq<Seq<char>>) -> Option<
    Seq<char>,
> {
    match reason {
        Some(r) => Some(r),
        None => if disagreements.len() > 0 {
            Some(joined(disagreements, "; "@))
        } else {
            None
        },
    }
}

/// How the rows of a run came out, and why.
pub fn row_verdict(wire: &WireRun, disagreements: &Vec<String>) -> (out: (
    RowOutcome,
    Option<String>,
))
    ensures
        out.0 == row_outcome_of(wire@.outcome, strings(disagreements@)),
        text_view(out.1) == row_reason_of(wire@.reason, strings(disagreements@)),
{
    assert(strings(disagreements@).len() == disagreements@.len());
    let outcome = if same_text(wire.outcome.as_str(), "ok") {
        if disagreements.len() == 0 {
            RowOutcome::Passed
        } else {
            RowOutcome::Refused
        }
    } else if same_text(wire.outcome.as_str(), "skipped") {
        RowOutcome::Skipped
    } else {
        RowOutcome::Failed
    };
    let reason: Option<String> = match &wire.reason {
        Some(r) => Some(r.clone()),
        None => if disagreements.len() > 0 {
            Some(join(disagreements, "; "))
        } else {
            None
        },
    };
    (outcome, reason)
}

/// A run whose child says `ok` is published as measured only where no two
/// repetitions disagree about a count or about the bytes they wrote.
pub proof fn law_disagreement_is_never_published(wire: RunModel)
    ensures
        row_outcome_of(wire.outcome, disagreements_of(wire.reps)) == RowOutcome::Passed
            <==> wire.outcome == "ok"@ && disagreements_of(wire.reps).len() == 0,
        disagreements_of(wire.reps).len() > 0 ==> row_reason_of(
            wire.reason,
            disagreements_of(wire.reps),
        ) is Some,
{
}

/// A run comes out as measured exactly where its child says `ok` and every two
/// repetitions observed the same counts and wrote the same bytes. Where they did
/// not, it is refused; what the host declined is skipped, and all else failed. The
/// child's own reason stands; a refusal without one names what differs.
pub proof fn law_measured_iff_every_repetition_agrees(wire: RunModel)
    ensures
        ({
            let outcome = row_outcome_of(wire.outcome, disagreements_of(wire.reps));
            let agree = forall|i: int, j: int|
                0 <= i < wire.reps.len() && 0 <= j < wire.reps.len() ==> {
                    let (a, b) = (
                        (#[trigger] wire.reps[i]).invariants,
                        (#[trigger] wire.reps[j]).invariants,
                    );
                    &&& a.output_bytes == b.output_bytes
                    &&& a.allocated_bytes == b.allocated_bytes
                    &&& a.filesystem_entries == b.filesystem_entries
                    &&& a.directories == b.directories
                    &&& a.tiles_produced == b.tiles_produced
                    &&& a.root_entries == b.root_entries
                    &&& a.leaves == b.leaves
                    &&& a.requests == b.requests
                    &&& a.request_bytes == b.request_bytes
                    &&& (match (a.artefact_digest, b.artefact_digest) {
                        (Some(x), Some(y)) => x@ == y@,
                        (None, None) => true,
                        _ => false,
                    })
                };
            &&& outcome == RowOutcome::Passed <==> wire.outcome == "ok"@ && agree
            &&& outcome == RowOutcome::Refused <==> wire.outcome == "ok"@ && !agree
            &&& outcome == RowOutcome::Skipped <==> wire.outcome == "skipped"@
            &&& outcome == RowOutcome::Failed <==> wire.outcome != "ok"@ && wire.outcome
                != "skipped"@
            &&& wire.reason is Some ==> row_reason_of(wire.reason, disagreements_of(wire.reps))
                == wire.reason
            &&& wire.reason is None ==> (row_reason_of(wire.reason, disagreements_of(wire.reps))
                is None <==> agree)
        }),
{
    law_no_notes_iff_all_agree(wire.reps);
    reveal_strlit("ok");
    reveal_strlit("skipped");
    assert("ok"@.len() == 2 && "skipped"@.len() == 7);
}

/// A scenario that did not come about stays in the document under the outcome
/// it had, declined or failed, with its reason.
pub proof fn law_declined_stays_in_the_document(skip: Skip, wire: RunModel)
    requires
        skip.outcome == RowOutcome::Skipped || skip.outcome == RowOutcome::Failed,
        wire.outcome == outcome_word(skip.outcome),
        wire.reason == Some(skip.reason@),
    ensures
        row_outcome_of(wire.outcome, disagreements_of(wire.reps)) == skip.outcome,
        row_reason_of(wire.reason, disagreements_of(wire.reps)) == Some(skip.reason@),
{
    reveal_strlit("ok");
    reveal_strlit("skipped");
    reveal_strlit("failed");
    assert("ok"@.len() == 2 && "skipped"@.len() == 7 && "failed"@.len() == 6);
}

} // verus!
