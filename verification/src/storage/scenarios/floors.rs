//! The noise floor of a sweep: the control's placements, metric by metric.
//!
//! Medians and the numbers of a dispersion are the bits of floats. What a
//! dispersion is, is floating point, and no part of this.

use crate::storage::canonical_laws::{climbs, lemma_climb_is_unique};
use crate::storage::cells::{cell_text, Cell};
use crate::storage::document::DocumentCell;
use crate::storage::scenarios::replicate::{ESTIMATOR, MIN_REPLICATE_REPS};
use crate::text::{
    chars_of, concat3, decimal, decimal_text, is_less, lemma_less_asymmetric,
    lemma_less_irreflexive, lemma_less_total, lemma_less_transitive, same_text, text_less,
};
use vstd::prelude::*;

verus! {

/// The medians of one metric, in sweep order.
#[derive(Debug)]
pub struct Placement {
    /// `<backend>.<scenario>.<metric>`.
    pub metric: String,
    pub medians: Vec<u64>,
}

/// A [`Placement`], as text.
pub struct PlacementModel {
    pub metric: Seq<char>,
    pub medians: Seq<u64>,
}

impl View for Placement {
    type V = PlacementModel;

    open spec fn view(&self) -> PlacementModel {
        PlacementModel { metric: self.metric@, medians: self.medians@ }
    }
}

/// A list of placements, as texts.
pub open spec fn placement_models(v: Seq<Placement>) -> Seq<PlacementModel> {
    Seq::new(v.len(), |i: int| v[i]@)
}

/// What a row says of the control, where it is a row of it with a median.
pub open spec fn control_row(cell: DocumentCell, spec_text: Seq<char>) -> Option<(Seq<char>, u64)> {
    if cell.cell@ == spec_text && cell.summary is Some {
        Some((cell.backend@ + "."@ + cell.key@, cell.summary->0.median))
    } else {
        None
    }
}

/// The medians of a metric over the first `n` rows, in their order.
pub open spec fn medians_of(
    cells: Seq<DocumentCell>,
    spec_text: Seq<char>,
    metric: Seq<char>,
    n: int,
) -> Seq<u64>
    decreases n,
{
    if n <= 0 {
        Seq::empty()
    } else {
        let before = medians_of(cells, spec_text, metric, n - 1);
        match control_row(cells[n - 1], spec_text) {
            Some((name, median)) => if name == metric {
                before.push(median)
            } else {
                before
            },
            None => before,
        }
    }
}

/// Whether metrics stand in strictly ascending order.
pub open spec fn metrics_ascend(list: Seq<PlacementModel>) -> bool {
    forall|i: int, j: int|
        0 <= i < j < list.len() ==> text_less(
            (#[trigger] list[i]).metric,
            (#[trigger] list[j]).metric,
        )
}

/// Whether a list has a metric.
pub open spec fn has_metric(list: Seq<PlacementModel>, metric: Seq<char>) -> bool {
    exists|i: int| 0 <= i < list.len() && (#[trigger] list[i]).metric == metric
}

/// Whether a list is the control's placements over the first `n` rows: every
/// metric that has a median, once, in ascending order, with all its medians in
/// sweep order.
pub open spec fn are_placements(
    list: Seq<PlacementModel>,
    cells: Seq<DocumentCell>,
    spec_text: Seq<char>,
    n: int,
) -> bool {
    &&& metrics_ascend(list)
    &&& forall|i: int|
        0 <= i < list.len() ==> (#[trigger] list[i]).medians == medians_of(
            cells,
            spec_text,
            list[i].metric,
            n,
        )
    &&& forall|metric: Seq<char>| #[trigger]
        has_metric(list, metric) <==> medians_of(cells, spec_text, metric, n).len() > 0
}

/// The place in an ascending list where a metric stands or would stand.
fn place_of(list: &Vec<Placement>, metric: &str) -> (at: usize)
    ensures
        at <= list@.len(),
        forall|k: int|
            0 <= k < at ==> text_less((#[trigger] placement_models(list@)[k]).metric, metric@),
        at < list@.len() ==> !text_less(placement_models(list@)[at as int].metric, metric@),
{
    let wanted: Vec<char> = chars_of(metric);
    let mut at: usize = 0;
    while at < list.len()
        invariant
            at <= list@.len(),
            wanted@ == metric@,
            forall|k: int|
                0 <= k < at ==> text_less((#[trigger] placement_models(list@)[k]).metric, metric@),
        decreases list@.len() - at,
    {
        let there: Vec<char> = chars_of(list[at].metric.as_str());
        assert(placement_models(list@)[at as int] == list@[at as int]@);
        if !is_less(there.as_slice(), wanted.as_slice()) {
            return at;
        }
        at = at + 1;
    }
    at
}

/// A new metric, put where it belongs, keeps a list ascending.
proof fn lemma_metric_inserted(list: Seq<PlacementModel>, at: int, new: PlacementModel)
    requires
        metrics_ascend(list),
        0 <= at <= list.len(),
        forall|k: int| 0 <= k < at ==> text_less((#[trigger] list[k]).metric, new.metric),
        at < list.len() ==> text_less(new.metric, list[at].metric),
    ensures
        metrics_ascend(list.insert(at, new)),
        forall|metric: Seq<char>| #[trigger]
            has_metric(list.insert(at, new), metric) <==> has_metric(list, metric) || metric
                == new.metric,
{
    let out = list.insert(at, new);
    assert forall|i: int, j: int| 0 <= i < j < out.len() implies text_less(
        (#[trigger] out[i]).metric,
        (#[trigger] out[j]).metric,
    ) by {
        if j < at {
            assert(text_less(list[i].metric, list[j].metric));
        } else if i == at {
            if j - 1 > at {
                assert(text_less(list[at].metric, list[j - 1].metric));
                lemma_less_transitive(new.metric, list[at].metric, list[j - 1].metric);
            }
        } else if i > at {
            assert(text_less(list[i - 1].metric, list[j - 1].metric));
        } else if j > at {
            assert(text_less(list[i].metric, list[j - 1].metric));
        } else {
            assert(text_less(list[i].metric, new.metric));
        }
    }
    assert forall|metric: Seq<char>| #[trigger] has_metric(out, metric) <==> has_metric(list, metric)
        || metric == new.metric by {
        if has_metric(list, metric) {
            let i = choose|i: int| 0 <= i < list.len() && (#[trigger] list[i]).metric == metric;
            if i < at {
                assert(out[i].metric == metric);
            } else {
                assert(out[i + 1].metric == metric);
            }
        }
        if metric == new.metric {
            assert(out[at].metric == metric);
        }
        if has_metric(out, metric) {
            let i = choose|i: int| 0 <= i < out.len() && (#[trigger] out[i]).metric == metric;
            if i < at {
                assert(list[i].metric == metric);
            } else if i > at {
                assert(list[i - 1].metric == metric);
            }
        }
    }
}

/// One more median of a metric.
fn place(list: &mut Vec<Placement>, metric: String, median: u64)
    requires
        metrics_ascend(placement_models(old(list)@)),
    ensures
        ({
            let was = placement_models(old(list)@);
            let now = placement_models(final(list)@);
            &&& metrics_ascend(now)
            &&& forall|m: Seq<char>| #[trigger]
                has_metric(now, m) <==> has_metric(was, m) || m == metric@
            &&& forall|i: int|
                0 <= i < now.len() ==> ({
                    let one = #[trigger] now[i];
                    if one.metric != metric@ {
                        was.contains(one)
                    } else {
                        if has_metric(was, metric@) {
                            exists|k: int|
                                0 <= k < was.len() && (#[trigger] was[k]).metric == metric@
                                    && one.medians == was[k].medians.push(median)
                        } else {
                            one.medians == seq![median]
                        }
                    }
                })
        }),
{
    let ghost was = placement_models(list@);
    let at: usize = place_of(list, metric.as_str());
    if at < list.len() && same_text(list[at].metric.as_str(), metric.as_str()) {
        assert(was[at as int].metric == metric@);
        let mut one: Placement = list.remove(at);
        let ghost before = one.medians@;
        one.medians.push(median);
        list.insert(at, one);
        proof {
            let now = placement_models(list@);
            assert(now =~= was.update(
                at as int,
                PlacementModel { metric: metric@, medians: before.push(median) },
            ));
            assert(was[at as int].medians == before);
            assert forall|m: Seq<char>| #[trigger] has_metric(now, m) <==> has_metric(was, m) || m
                == metric@ by {
                if has_metric(was, m) {
                    let i = choose|i: int| 0 <= i < was.len() && (#[trigger] was[i]).metric == m;
                    assert(now[i].metric == m);
                }
                if m == metric@ {
                    assert(now[at as int].metric == m);
                }
                if has_metric(now, m) {
                    let i = choose|i: int| 0 <= i < now.len() && (#[trigger] now[i]).metric == m;
                    assert(was[i].metric == m);
                }
            }
            assert forall|i: int, j: int| 0 <= i < j < now.len() implies text_less(
                (#[trigger] now[i]).metric,
                (#[trigger] now[j]).metric,
            ) by {
                assert(text_less(was[i].metric, was[j].metric));
            }
            assert(has_metric(was, metric@));
            assert forall|i: int| 0 <= i < now.len() implies ({
                let one = #[trigger] now[i];
                if one.metric != metric@ {
                    was.contains(one)
                } else {
                    exists|k: int|
                        0 <= k < was.len() && (#[trigger] was[k]).metric == metric@ && one.medians
                            == was[k].medians.push(median)
                }
            }) by {
                if i != at {
                    assert(now[i] == was[i]);
                    if i < at {
                        assert(text_less(was[i].metric, was[at as int].metric));
                    } else {
                        assert(text_less(was[at as int].metric, was[i].metric));
                    }
                    lemma_less_irreflexive(metric@);
                } else {
                    assert(was[at as int].metric == metric@);
                }
            }
        }
    } else {
        let ghost new = PlacementModel { metric: metric@, medians: seq![median] };
        let medians: Vec<u64> = vec![median];
        assert(medians@ =~= seq![median]);
        proof {
            if at < was.len() {
                lemma_less_total(was[at as int].metric, metric@);
            }
            lemma_metric_inserted(was, at as int, new);
            assert forall|i: int| 0 <= i < was.len() implies (#[trigger] was[i]).metric
                != metric@ by {
                if i > at {
                    assert(text_less(was[at as int].metric, was[i].metric));
                    lemma_less_asymmetric(was[at as int].metric, was[i].metric);
                }
                lemma_less_irreflexive(metric@);
            }
        }
        list.insert(at, Placement { metric, medians });
        proof {
            let now = placement_models(list@);
            assert(now =~= was.insert(at as int, new));
            assert forall|i: int| 0 <= i < now.len() && (#[trigger] now[i]).metric
                != metric@ implies was.contains(now[i]) by {
                if i < at {
                    assert(was[i] == now[i]);
                } else {
                    assert(was[i - 1] == now[i]);
                }
            }
            assert forall|i: int| 0 <= i < now.len() && (#[trigger] now[i]).metric
                == metric@ implies now[i].medians == seq![median] by {
                if i < at {
                    assert(was[i].metric == metric@);
                } else if i > at {
                    assert(was[i - 1].metric == metric@);
                }
            }
        }
    }
}

/// The control's placements, found by the cell's own text among the rows.
pub fn control_placements(cells: &Vec<DocumentCell>, spec: &str) -> (list: Vec<Placement>)
    ensures
        are_placements(placement_models(list@), cells@, spec@, cells@.len() as int),
{
    let mut list: Vec<Placement> = Vec::new();
    let mut i: usize = 0;
    assert forall|metric: Seq<char>| #[trigger]
        has_metric(placement_models(list@), metric) <==> medians_of(
            cells@,
            spec@,
            metric,
            0,
        ).len() > 0 by {}
    while i < cells.len()
        invariant
            i <= cells@.len(),
            are_placements(placement_models(list@), cells@, spec@, i as int),
        decreases cells@.len() - i,
    {
        let cell: &DocumentCell = &cells[i];
        let ghost was = placement_models(list@);
        let ghost n = i as int;
        if same_text(cell.cell.as_str(), spec) {
            if let Some(summary) = cell.summary {
                let metric: String = concat3(cell.backend.as_str(), ".", cell.key.as_str());
                let ghost name = metric@;
                place(&mut list, metric, summary.median);
                proof {
                    lemma_placed(was, placement_models(list@), cells@, spec@, n, name, summary.median);
                }
            } else {
                proof {
                    lemma_passed(was, cells@, spec@, n);
                }
            }
        } else {
            proof {
                lemma_passed(was, cells@, spec@, n);
            }
        }
        i = i + 1;
    }
    list
}

/// A row that says nothing of the control changes nothing.
proof fn lemma_passed(
    list: Seq<PlacementModel>,
    cells: Seq<DocumentCell>,
    spec_text: Seq<char>,
    n: int,
)
    requires
        0 <= n < cells.len(),
        are_placements(list, cells, spec_text, n),
        control_row(cells[n], spec_text) is None,
    ensures
        are_placements(list, cells, spec_text, n + 1),
{
    assert forall|metric: Seq<char>| medians_of(cells, spec_text, metric, n + 1)
        == #[trigger] medians_of(cells, spec_text, metric, n) by {}
    assert forall|i: int| 0 <= i < list.len() implies (#[trigger] list[i]).medians == medians_of(
        cells,
        spec_text,
        list[i].metric,
        n + 1,
    ) by {
        assert(list[i].medians == medians_of(cells, spec_text, list[i].metric, n));
    }
    assert forall|metric: Seq<char>| #[trigger] has_metric(list, metric) <==> medians_of(
        cells,
        spec_text,
        metric,
        n + 1,
    ).len() > 0 by {
        assert(medians_of(cells, spec_text, metric, n + 1) == medians_of(
            cells,
            spec_text,
            metric,
            n,
        ));
    }
}

/// A row of the control adds its median to its metric alone.
proof fn lemma_placed(
    was: Seq<PlacementModel>,
    now: Seq<PlacementModel>,
    cells: Seq<DocumentCell>,
    spec_text: Seq<char>,
    n: int,
    name: Seq<char>,
    median: u64,
)
    requires
        0 <= n < cells.len(),
        are_placements(was, cells, spec_text, n),
        control_row(cells[n], spec_text) == Some((name, median)),
        metrics_ascend(now),
        forall|m: Seq<char>| #[trigger] has_metric(now, m) <==> has_metric(was, m) || m == name,
        forall|i: int|
            0 <= i < now.len() ==> ({
                let one = #[trigger] now[i];
                if one.metric != name {
                    was.contains(one)
                } else {
                    if has_metric(was, name) {
                        exists|k: int|
                            0 <= k < was.len() && (#[trigger] was[k]).metric == name && one.medians
                                == was[k].medians.push(median)
                    } else {
                        one.medians == seq![median]
                    }
                }
            }),
    ensures
        are_placements(now, cells, spec_text, n + 1),
{
    assert forall|i: int| 0 <= i < now.len() implies (#[trigger] now[i]).medians == medians_of(
        cells,
        spec_text,
        now[i].metric,
        n + 1,
    ) by {
        let one = now[i];
        if one.metric != name {
            let k = choose|k: int| 0 <= k < was.len() && was[k] == one;
            assert(was[k].medians == medians_of(cells, spec_text, was[k].metric, n));
        } else if has_metric(was, name) {
            let k = choose|k: int|
                0 <= k < was.len() && (#[trigger] was[k]).metric == name && one.medians
                    == was[k].medians.push(median);
            assert(was[k].medians == medians_of(cells, spec_text, name, n));
        } else {
            assert(medians_of(cells, spec_text, name, n).len() == 0);
            assert(medians_of(cells, spec_text, name, n + 1) =~= seq![median]);
        }
    }
    assert forall|metric: Seq<char>| #[trigger] has_metric(now, metric) <==> medians_of(
        cells,
        spec_text,
        metric,
        n + 1,
    ).len() > 0 by {
        assert(has_metric(was, metric) <==> medians_of(cells, spec_text, metric, n).len() > 0);
    }
}

/// The most medians that any of the first `n` metrics has.
pub open spec fn most_placements(list: Seq<PlacementModel>, n: int) -> nat
    decreases n,
{
    if n <= 0 {
        0
    } else if list[n - 1].medians.len() > most_placements(list, n - 1) {
        list[n - 1].medians.len()
    } else {
        most_placements(list, n - 1)
    }
}

/// The metrics among the first `n` that were placed `reps` times.
pub open spec fn full_ones(list: Seq<PlacementModel>, reps: nat, n: int) -> Seq<PlacementModel>
    decreases n,
{
    if n <= 0 {
        Seq::empty()
    } else if list[n - 1].medians.len() == reps {
        full_ones(list, reps, n - 1).push(list[n - 1])
    } else {
        full_ones(list, reps, n - 1)
    }
}

/// The metrics that a floor may be published for: those that were placed as
/// often as any, and how many were not.
#[derive(Debug)]
pub struct FloorPlan {
    pub reps: usize,
    pub metrics: Vec<Placement>,
    pub short: usize,
}

/// What may be published of some placements: none where the control was placed
/// too seldom. A metric that was placed less often than the others is dropped
/// and counted: a floor over fewer points is another statistic.
pub fn floor_plan(list: Vec<Placement>) -> (got: Option<FloorPlan>)
    ensures
        ({
            let all = placement_models(list@);
            let reps = most_placements(all, all.len() as int);
            &&& got is Some <==> reps >= MIN_REPLICATE_REPS
            &&& got is Some ==> got->0.reps == reps && placement_models(got->0.metrics@)
                == full_ones(all, reps, all.len() as int) && got->0.short + got->0.metrics@.len()
                == all.len()
        }),
{
    let ghost all = placement_models(list@);
    let mut reps: usize = 0;
    let mut i: usize = 0;
    while i < list.len()
        invariant
            i <= list@.len(),
            all == placement_models(list@),
            reps == most_placements(all, i as int),
        decreases list@.len() - i,
    {
        assert(all[i as int] == list@[i as int]@);
        if list[i].medians.len() > reps {
            reps = list[i].medians.len();
        }
        i = i + 1;
    }
    assert(all.len() == list@.len());
    if reps < MIN_REPLICATE_REPS {
        return None;
    }
    let mut metrics: Vec<Placement> = Vec::new();
    let mut short: usize = 0;
    let ghost mut n: int = 0;
    assert(placement_models(metrics@) =~= full_ones(all, reps as nat, 0));
    for one in it: list
        invariant
            placement_models(it.seq()) == all,
            it.seq().len() <= usize::MAX,
            n == it.index(),
            placement_models(metrics@) == full_ones(all, reps as nat, n),
            short + metrics@.len() == n,
    {
        let ghost before = metrics@;
        assert(all[n] == one@);
        if one.medians.len() == reps {
            metrics.push(one);
            assert(placement_models(metrics@) =~= placement_models(before).push(all[n]));
        } else {
            short = short + 1;
        }
        proof {
            n = n + 1;
        }
    }
    Some(FloorPlan { reps, metrics, short })
}

/// Every metric that may be published rests on the same number of placements,
/// and on enough of them.
pub proof fn law_floors_rest_on_one_count(list: Seq<PlacementModel>, reps: nat, n: int, i: int)
    requires
        0 <= n <= list.len(),
        0 <= i < full_ones(list, reps, n).len(),
    ensures
        full_ones(list, reps, n)[i].medians.len() == reps,
        list.contains(full_ones(list, reps, n)[i]),
    decreases n,
{
    if n > 0 {
        let before = full_ones(list, reps, n - 1);
        if i < before.len() {
            law_floors_rest_on_one_count(list, reps, n - 1, i);
        } else {
            assert(full_ones(list, reps, n)[i] == list[n - 1]);
        }
    }
}

/// What the placements of one metric say of the run's own noise, as the bits of
/// floats.
#[derive(Debug, Clone, Copy, PartialEq, Eq, Structural)]
pub struct Dispersion {
    pub floor_pct: u64,
    pub drift_pct: u64,
    pub residual_pct: u64,
}

/// The floor of one metric.
#[derive(Debug)]
pub struct Floor {
    pub metric: String,
    pub found: Dispersion,
}

/// A [`Floor`], as text.
pub open spec fn floor_models(v: Seq<Floor>) -> Seq<(Seq<char>, Dispersion)> {
    Seq::new(v.len(), |i: int| (v[i].metric@, v[i].found))
}

/// What a sweep publishes about its own noise floor.
#[derive(Debug)]
pub struct ReplicateBlock {
    pub cell: String,
    pub reps: usize,
    pub method: &'static str,
    /// The metrics that are not among the floors.
    pub dropped_metrics: usize,
    /// In ascending order of their metrics.
    pub floors: Vec<Floor>,
}

/// The floors of the first `n` metrics that have one.
pub open spec fn found_in(
    metrics: Seq<PlacementModel>,
    found: Seq<Option<Dispersion>>,
    n: int,
) -> Seq<(Seq<char>, Dispersion)>
    decreases n,
{
    if n <= 0 {
        Seq::empty()
    } else {
        match found[n - 1] {
            Some(d) => found_in(metrics, found, n - 1).push((metrics[n - 1].metric, d)),
            None => found_in(metrics, found, n - 1),
        }
    }
}

/// The block of a control, from the dispersion that each metric of its plan was
/// found to have. Without a single floor there is no block.
pub fn block_for_cell(spec: &str, plan: FloorPlan, found: &Vec<Option<Dispersion>>) -> (got: Option<
    ReplicateBlock,
>)
    requires
        found@.len() == plan.metrics@.len(),
        plan.short + plan.metrics@.len() <= usize::MAX,
    ensures
        ({
            let floors = found_in(placement_models(plan.metrics@), found@, found@.len() as int);
            &&& got is Some <==> floors.len() > 0
            &&& got is Some ==> got->0.cell@ == spec@ && got->0.reps == plan.reps
                && got->0.method@ == ESTIMATOR@ && floor_models(got->0.floors@) == floors
                && got->0.dropped_metrics + floors.len() == plan.short + plan.metrics@.len()
        }),
{
    let ghost metrics = placement_models(plan.metrics@);
    let mut floors: Vec<Floor> = Vec::new();
    let mut dropped: usize = plan.short;
    let mut i: usize = 0;
    assert(floor_models(floors@) =~= found_in(metrics, found@, 0));
    while i < found.len()
        invariant
            i <= found@.len(),
            found@.len() == plan.metrics@.len(),
            plan.short + plan.metrics@.len() <= usize::MAX,
            metrics == placement_models(plan.metrics@),
            floor_models(floors@) == found_in(metrics, found@, i as int),
            floors@.len() <= i,
            dropped + floors@.len() == plan.short + i,
        decreases found@.len() - i,
    {
        let ghost before = floors@;
        assert(metrics[i as int] == plan.metrics@[i as int]@);
        match found[i] {
            Some(d) => {
                floors.push(Floor { metric: plan.metrics[i].metric.clone(), found: d });
                assert(floor_models(floors@) =~= floor_models(before).push(
                    (metrics[i as int].metric, d),
                ));
            },
            None => {
                dropped = dropped + 1;
            },
        }
        i = i + 1;
    }
    assert(floor_models(floors@).len() == floors@.len());
    if floors.len() == 0 {
        return None;
    }
    Some(
        ReplicateBlock {
            cell: spec.to_owned(),
            reps: plan.reps,
            method: ESTIMATOR,
            dropped_metrics: dropped,
            floors,
        },
    )
}

/// One placement of the control: its metrics, each with its median.
pub type Measured = Vec<(String, u64)>;

/// Whether the metrics of a placement ascend, so that none occurs twice.
pub open spec fn is_ascending(m: Seq<(String, u64)>) -> bool {
    forall|a: int, b: int|
        0 <= a < b < m.len() ==> text_less((#[trigger] m[a]).0@, (#[trigger] m[b]).0@)
}

/// The place of a metric in a measurement, from `i` on, or the number of its
/// metrics.
pub open spec fn metric_at(m: Seq<(String, u64)>, metric: Seq<char>, i: int) -> int
    decreases m.len() - i,
{
    if 0 <= i < m.len() && m[i].0@ != metric {
        metric_at(m, metric, i + 1)
    } else {
        i
    }
}

/// The first measurement, from `i` on, that has another number of metrics than
/// the first one, or their number.
pub open spec fn odd_size(ms: Seq<Measured>, i: int) -> int
    decreases ms.len() - i,
{
    if 0 <= i < ms.len() && ms[i]@.len() == ms[0]@.len() {
        odd_size(ms, i + 1)
    } else {
        i
    }
}

/// The first measurement, from `i` on, that lacks a metric, or their number.
pub open spec fn lacks(ms: Seq<Measured>, metric: Seq<char>, i: int) -> int
    decreases ms.len() - i,
{
    if 0 <= i < ms.len() && metric_at(ms[i]@, metric, 0) < ms[i]@.len() {
        lacks(ms, metric, i + 1)
    } else {
        i
    }
}

/// What is wrong with some placements before a metric is looked at, if anything
/// is: there are too few, or they do not report the same number of metrics.
pub open spec fn placement_fault(cell: Cell, ms: Seq<Measured>) -> Option<Seq<char>> {
    if ms.len() < MIN_REPLICATE_REPS {
        Some(
            "the replicate cell "@ + cell_text(cell) + " was measured "@ + decimal(ms.len())
                + " times and a published floor needs at least 5: below that the control has no dispersion of its own, so the number it publishes cannot say whether it is the outlier"@,
        )
    } else if odd_size(ms, 0) < ms.len() {
        let i = odd_size(ms, 0);
        Some(
            "measurement 1 of "@ + cell_text(cell) + " reports "@ + decimal(ms[0]@.len())
                + " metrics and measurement "@ + decimal((i + 1) as nat) + " reports "@ + decimal(
                ms[i]@.len(),
            ) + ", so the placements are not the same measurement"@,
        )
    } else {
        None
    }
}

/// Which placement does not report a metric that the first one reports.
pub open spec fn lack_text(cell: Cell, ms: Seq<Measured>, metric: Seq<char>) -> Seq<char> {
    "measurement 1 of "@ + cell_text(cell) + " reports `"@ + metric + "` and measurement "@
        + decimal((lacks(ms, metric, 0) + 1) as nat)
        + " does not, so the placements are not the same measurement"@
}

/// Whether the placements of a control are measurements of one thing.
pub fn check_placements(cell: &Cell, ms: &Vec<Measured>) -> (got: Result<(), String>)
    ensures
        got is Ok <==> placement_fault(*cell, ms@) is None,
        got is Err ==> got->Err_0@ == placement_fault(*cell, ms@)->0,
{
    if ms.len() < MIN_REPLICATE_REPS {
        let mut text: String = concat3("the replicate cell ", cell.spec().as_str(), " was measured ");
        text.append(decimal_text(ms.len() as u128).as_str());
        text.append(
            " times and a published floor needs at least 5: below that the control has no dispersion of its own, so the number it publishes cannot say whether it is the outlier",
        );
        return Err(text);
    }
    let mut i: usize = 0;
    while i < ms.len()
        invariant
            i <= ms@.len(),
            ms@.len() >= MIN_REPLICATE_REPS,
            odd_size(ms@, 0) == odd_size(ms@, i as int),
        decreases ms@.len() - i,
    {
        if ms[i].len() != ms[0].len() {
            let mut text: String = concat3("measurement 1 of ", cell.spec().as_str(), " reports ");
            text.append(decimal_text(ms[0].len() as u128).as_str());
            text.append(" metrics and measurement ");
            text.append(decimal_text(i as u128 + 1).as_str());
            text.append(" reports ");
            text.append(decimal_text(ms[i].len() as u128).as_str());
            text.append(", so the placements are not the same measurement");
            return Err(text);
        }
        i = i + 1;
    }
    Ok(())
}

/// The medians of one metric over every placement, or the first placement that
/// does not report it.
pub fn values_of(cell: &Cell, ms: &Vec<Measured>, metric: &str) -> (got: Result<Vec<u64>, String>)
    ensures
        got is Ok <==> lacks(ms@, metric@, 0) >= ms@.len(),
        got is Ok ==> got->Ok_0@ == Seq::new(
            ms@.len(),
            |i: int| ms@[i]@[metric_at(ms@[i]@, metric@, 0)].1,
        ),
        got is Err ==> got->Err_0@ == lack_text(*cell, ms@, metric@),
{
    let mut out: Vec<u64> = Vec::new();
    let mut i: usize = 0;
    while i < ms.len()
        invariant
            i <= ms@.len(),
            lacks(ms@, metric@, 0) == lacks(ms@, metric@, i as int),
            out@.len() == i,
            forall|k: int|
                0 <= k < i ==> #[trigger] out@[k] == ms@[k]@[metric_at(ms@[k]@, metric@, 0)].1,
        decreases ms@.len() - i,
    {
        let m: &Measured = &ms[i];
        let mut at: usize = 0;
        while at < m.len() && !same_text(m[at].0.as_str(), metric)
            invariant
                at <= m@.len(),
                metric_at(m@, metric@, 0) == metric_at(m@, metric@, at as int),
            decreases m@.len() - at,
        {
            at = at + 1;
        }
        if at == m.len() {
            let mut text: String = concat3("measurement 1 of ", cell.spec().as_str(), " reports `");
            text.append(metric);
            text.append("` and measurement ");
            text.append(decimal_text(i as u128 + 1).as_str());
            text.append(" does not, so the placements are not the same measurement");
            return Err(text);
        }
        out.push(m[at].1);
        i = i + 1;
    }
    assert(out@ =~= Seq::new(ms@.len(), |i: int| ms@[i]@[metric_at(ms@[i]@, metric@, 0)].1));
    Ok(out)
}

/// What is wrong with the metric `i` of the first placement, if anything is:
/// another placement does not report it, or its values have no dispersion. What
/// was found of it is a dispersion, or its values in words.
pub open spec fn metric_fault(
    cell: Cell,
    ms: Seq<Measured>,
    found: Seq<Result<Dispersion, String>>,
    i: int,
) -> Option<Seq<char>> {
    let metric = ms[0]@[i].0@;
    if lacks(ms, metric, 0) < ms.len() {
        Some(lack_text(cell, ms, metric))
    } else {
        match found[i] {
            Ok(_) => None,
            Err(values) => Some(
                "`"@ + metric + "` on "@ + cell_text(cell)
                    + " has no dispersion as a percentage over "@ + values@,
            ),
        }
    }
}

/// The first metric of the first placement, from `i` on, that something is wrong
/// with, or their number.
pub open spec fn bad_metric(
    cell: Cell,
    ms: Seq<Measured>,
    found: Seq<Result<Dispersion, String>>,
    i: int,
) -> int
    decreases ms[0]@.len() - i,
{
    if 0 <= i < ms[0]@.len() && metric_fault(cell, ms, found, i) is None {
        bad_metric(cell, ms, found, i + 1)
    } else {
        i
    }
}

/// What is wrong with the placements of a control, if anything is, in the order
/// in which it is looked for.
pub open spec fn block_fault(
    cell: Cell,
    ms: Seq<Measured>,
    found: Seq<Result<Dispersion, String>>,
) -> Option<Seq<char>> {
    match placement_fault(cell, ms) {
        Some(fault) => Some(fault),
        None => {
            let i = bad_metric(cell, ms, found, 0);
            if i < ms[0]@.len() {
                metric_fault(cell, ms, found, i)
            } else {
                None
            }
        },
    }
}

/// The floor of every metric of a placement.
pub open spec fn floors_of(m: Seq<(String, u64)>, found: Seq<Result<Dispersion, String>>) -> Seq<
    (Seq<char>, Dispersion),
> {
    Seq::new(m.len(), |i: int| (m[i].0@, found[i]->Ok_0))
}

/// Build the block of a control from its placements, in sweep order, and from
/// what was found of each metric of the first one: its dispersion, or its values
/// in words where they have none. Unlike a block that is read out of a document,
/// this one drops no metric: it refuses.
pub fn block(cell: &Cell, ms: &Vec<Measured>, found: &Vec<Result<Dispersion, String>>) -> (got:
    Result<ReplicateBlock, String>)
    requires
        forall|i: int| 0 <= i < ms@.len() ==> is_ascending((#[trigger] ms@[i])@),
        placement_fault(*cell, ms@) is None ==> found@.len() == ms@[0]@.len(),
    ensures
        got is Ok <==> block_fault(*cell, ms@, found@) is None,
        got is Err ==> got->Err_0@ == block_fault(*cell, ms@, found@)->0,
        got matches Ok(b) ==> {
            &&& b.cell@ == cell_text(*cell)
            &&& b.reps == ms@.len()
            &&& b.method@ == ESTIMATOR@
            &&& b.dropped_metrics == 0
            &&& floor_models(b.floors@) == floors_of(ms@[0]@, found@)
        },
{
    if let Err(fault) = check_placements(cell, ms) {
        return Err(fault);
    }
    let first: &Measured = &ms[0];
    let mut floors: Vec<Floor> = Vec::new();
    let mut i: usize = 0;
    while i < first.len()
        invariant
            i <= first@.len(),
            *first == ms@[0],
            found@.len() == first@.len(),
            placement_fault(*cell, ms@) is None,
            bad_metric(*cell, ms@, found@, 0) == bad_metric(*cell, ms@, found@, i as int),
            floor_models(floors@) == floors_of(first@, found@).take(i as int),
        decreases first@.len() - i,
    {
        if let Err(fault) = values_of(cell, ms, first[i].0.as_str()) {
            return Err(fault);
        }
        match &found[i] {
            Err(values) => {
                let mut text: String = concat3("`", first[i].0.as_str(), "` on ");
                text.append(cell.spec().as_str());
                text.append(" has no dispersion as a percentage over ");
                text.append(values.as_str());
                return Err(text);
            },
            Ok(d) => {
                let ghost before = floors@;
                floors.push(Floor { metric: first[i].0.clone(), found: *d });
                assert(floor_models(floors@) =~= floor_models(before).push((first@[i as int].0@, *d)));
                assert(floors_of(first@, found@).take(i + 1) =~= floors_of(first@, found@).take(
                    i as int,
                ).push((first@[i as int].0@, *d)));
            },
        }
        i = i + 1;
    }
    assert(floors_of(first@, found@).take(i as int) =~= floors_of(first@, found@));
    Ok(
        ReplicateBlock {
            cell: cell.spec(),
            reps: ms.len(),
            method: ESTIMATOR,
            dropped_metrics: 0,
            floors,
        },
    )
}

/// The metrics of a placement.
spec fn names_of(m: Seq<(String, u64)>) -> Seq<Seq<char>> {
    Seq::new(m.len(), |i: int| m[i].0@)
}

/// Where no placement stands out, each reports as many metrics as the first.
proof fn lemma_even_sizes(ms: Seq<Measured>, i: int, j: int)
    requires
        0 <= i <= j < ms.len(),
        odd_size(ms, i) >= ms.len(),
    ensures
        ms[j]@.len() == ms[0]@.len(),
    decreases ms.len() - i,
{
    if i < j {
        lemma_even_sizes(ms, i + 1, j);
    }
}

/// Something is wrong with a metric that is bad.
proof fn lemma_bad_metric(
    cell: Cell,
    ms: Seq<Measured>,
    found: Seq<Result<Dispersion, String>>,
    i: int,
)
    requires
        0 <= i,
        bad_metric(cell, ms, found, i) < ms[0]@.len(),
    ensures
        metric_fault(cell, ms, found, bad_metric(cell, ms, found, i)) is Some,
    decreases ms[0]@.len() - i,
{
    if i < ms[0]@.len() && metric_fault(cell, ms, found, i) is None {
        lemma_bad_metric(cell, ms, found, i + 1);
    }
}

/// Where no metric is bad, nothing is wrong with any.
proof fn lemma_no_bad_metric(
    cell: Cell,
    ms: Seq<Measured>,
    found: Seq<Result<Dispersion, String>>,
    i: int,
    k: int,
)
    requires
        0 <= i <= k < ms[0]@.len(),
        bad_metric(cell, ms, found, i) >= ms[0]@.len(),
    ensures
        metric_fault(cell, ms, found, k) is None,
    decreases ms[0]@.len() - i,
{
    if i < k {
        lemma_no_bad_metric(cell, ms, found, i + 1, k);
    }
}

/// Where no placement lacks a metric, each has it.
proof fn lemma_none_lacks(ms: Seq<Measured>, metric: Seq<char>, i: int, j: int)
    requires
        0 <= i <= j < ms.len(),
        lacks(ms, metric, i) >= ms.len(),
    ensures
        metric_at(ms[j]@, metric, 0) < ms[j]@.len(),
    decreases ms.len() - i,
{
    if i < j {
        lemma_none_lacks(ms, metric, i + 1, j);
    }
}

/// The place of a metric holds it.
proof fn lemma_metric_at(m: Seq<(String, u64)>, metric: Seq<char>, i: int)
    requires
        0 <= i <= m.len(),
    ensures
        i <= metric_at(m, metric, i) <= m.len(),
        metric_at(m, metric, i) < m.len() ==> m[metric_at(m, metric, i)].0@ == metric,
    decreases m.len() - i,
{
    if i < m.len() && m[i].0@ != metric {
        lemma_metric_at(m, metric, i + 1);
    }
}

/// As many ascending texts, among which all of the others are, are the others.
proof fn lemma_same_names(a: Seq<Seq<char>>, b: Seq<Seq<char>>)
    requires
        climbs(a),
        climbs(b),
        a.len() == b.len(),
        forall|i: int| 0 <= i < a.len() ==> b.contains(#[trigger] a[i]),
    ensures
        a == b,
{
    lemma_climb_distinct(a);
    lemma_climb_distinct(b);
    a.unique_seq_to_set();
    b.unique_seq_to_set();
    assert forall|x: Seq<char>| a.to_set().contains(x) implies b.to_set().contains(x) by {
        let i = choose|i: int| 0 <= i < a.len() && a[i] == x;
        assert(b.contains(a[i]));
    }
    vstd::set_lib::lemma_subset_equality(a.to_set(), b.to_set());
    assert forall|x: Seq<char>| #![auto] a.contains(x) <==> b.contains(x) by {
        assert(a.to_set().contains(x) <==> b.to_set().contains(x));
    }
    lemma_climb_is_unique(a, b);
}

/// Ascending texts are all different.
proof fn lemma_climb_distinct(a: Seq<Seq<char>>)
    requires
        climbs(a),
    ensures
        a.no_duplicates(),
{
    assert forall|i: int, j: int| 0 <= i < a.len() && 0 <= j < a.len() && i != j implies a[i]
        != a[j] by {
        if i < j {
            assert(text_less(a[i], a[j]));
        } else {
            assert(text_less(a[j], a[i]));
        }
        lemma_less_irreflexive(a[i]);
    }
}

/// The placements of a block report the same metrics, every one of them: a
/// placement that grew a metric is refused as one that lost it is.
pub proof fn law_placements_of_a_block_agree(
    cell: Cell,
    ms: Seq<Measured>,
    found: Seq<Result<Dispersion, String>>,
    j: int,
    k: int,
)
    requires
        forall|i: int| 0 <= i < ms.len() ==> is_ascending((#[trigger] ms[i])@),
        block_fault(cell, ms, found) is None,
        0 <= j < ms.len(),
        0 <= k < ms[0]@.len(),
    ensures
        ms.len() >= MIN_REPLICATE_REPS,
        ms[j]@.len() == ms[0]@.len(),
        ms[j]@[k].0@ == ms[0]@[k].0@,
{
    lemma_even_sizes(ms, 0, j);
    if bad_metric(cell, ms, found, 0) < ms[0]@.len() {
        lemma_bad_metric(cell, ms, found, 0);
    }
    let (a, b) = (names_of(ms[0]@), names_of(ms[j]@));
    assert forall|i: int| 0 <= i < a.len() implies b.contains(#[trigger] a[i]) by {
        lemma_no_bad_metric(cell, ms, found, 0, i);
        lemma_none_lacks(ms, a[i], 0, j);
        let at = metric_at(ms[j]@, a[i], 0);
        lemma_metric_at(ms[j]@, a[i], 0);
        assert(b[at] == a[i]);
    }
    assert(is_ascending(ms[0]@) && is_ascending(ms[j]@));
    assert(climbs(a)) by {
        assert forall|x: int, y: int| 0 <= x < y < a.len() implies text_less(
            #[trigger] a[x],
            #[trigger] a[y],
        ) by {
            assert(text_less(ms[0]@[x].0@, ms[0]@[y].0@));
        }
    }
    assert(climbs(b)) by {
        assert forall|x: int, y: int| 0 <= x < y < b.len() implies text_less(
            #[trigger] b[x],
            #[trigger] b[y],
        ) by {
            assert(text_less(ms[j]@[x].0@, ms[j]@[y].0@));
        }
    }
    lemma_same_names(a, b);
    assert(a[k] == b[k]);
}

} // verus!
