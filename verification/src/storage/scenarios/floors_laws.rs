//! Which placements of the control a floor rests on.

use crate::storage::cells::Cell;
use crate::storage::document::DocumentCell;
use crate::storage::scenarios::floors::{
    bad_metric, block_fault, found_in, full_ones, lacks, medians_of, metric_at, metric_fault,
    most_placements, odd_size, Dispersion, Measured, PlacementModel,
};
use vstd::prelude::*;

verus! {

/// The medians of a metric are those of the control's own rows, in their order: a row
/// counts where it is of the control, has a summary, and its backend and key make the
/// metric's name.
pub proof fn law_median_counts_iff_the_row_is_the_controls(
    cells: Seq<DocumentCell>,
    spec_text: Seq<char>,
    metric: Seq<char>,
    n: int,
)
    requires
        0 <= n < cells.len(),
    ensures
        medians_of(cells, spec_text, metric, 0).len() == 0,
        cells[n].cell@ == spec_text && cells[n].summary is Some && cells[n].backend@ + "."@
            + cells[n].key@ == metric ==> medians_of(cells, spec_text, metric, n + 1) == medians_of(
            cells,
            spec_text,
            metric,
            n,
        ).push(cells[n].summary->0.median),
        !(cells[n].cell@ == spec_text && cells[n].summary is Some && cells[n].backend@ + "."@
            + cells[n].key@ == metric) ==> medians_of(cells, spec_text, metric, n + 1)
            == medians_of(cells, spec_text, metric, n),
{
}

/// The most placements of any metric is reached by one, and passed by none.
proof fn lemma_most(list: Seq<PlacementModel>, n: int, i: int)
    requires
        0 <= n <= list.len(),
    ensures
        0 <= i < n ==> list[i].medians.len() <= most_placements(list, n),
        most_placements(list, n) > 0 ==> exists|j: int|
            0 <= j < n && (#[trigger] list[j]).medians.len() == most_placements(list, n),
    decreases n,
{
    if n > 0 {
        lemma_most(list, n - 1, i);
        if list[n - 1].medians.len() > most_placements(list, n - 1) {
            assert(list[n - 1].medians.len() == most_placements(list, n));
        } else if most_placements(list, n - 1) > 0 {
            let j = choose|j: int|
                0 <= j < n - 1 && (#[trigger] list[j]).medians.len() == most_placements(
                    list,
                    n - 1,
                );
            assert(0 <= j < n && list[j].medians.len() == most_placements(list, n));
        }
    }
}

/// A metric with the full number of placements is kept.
proof fn lemma_full(list: Seq<PlacementModel>, reps: nat, n: int, i: int)
    requires
        0 <= n <= list.len(),
        0 <= i < n,
        list[i].medians.len() == reps,
    ensures
        full_ones(list, reps, n).contains(list[i]),
    decreases n,
{
    let all = full_ones(list, reps, n);
    if i == n - 1 {
        assert(all[all.len() - 1] == list[i]);
    } else {
        lemma_full(list, reps, n - 1, i);
        let before = full_ones(list, reps, n - 1);
        let k = choose|k: int| 0 <= k < before.len() && before[k] == list[i];
        assert(all[k] == list[i]);
    }
}

/// A floor rests on the metrics that were placed most often, on all of them and on no
/// other: none was placed more often, one was placed that often, and whichever was is
/// kept.
pub proof fn law_floor_rests_on_the_fullest_metrics(list: Seq<PlacementModel>, i: int)
    requires
        0 <= i < list.len(),
    ensures
        ({
            let most = most_placements(list, list.len() as int);
            &&& list[i].medians.len() <= most
            &&& most > 0 ==> exists|j: int|
                0 <= j < list.len() && (#[trigger] list[j]).medians.len() == most
            &&& list[i].medians.len() == most ==> full_ones(
                list,
                most,
                list.len() as int,
            ).contains(list[i])
        }),
{
    let n = list.len() as int;
    let most = most_placements(list, n);
    lemma_most(list, n, i);
    if list[i].medians.len() == most {
        lemma_full(list, most, n, i);
    }
}

/// A metric has a floor exactly where a dispersion was found for it, and has that one.
pub proof fn law_floor_is_the_dispersion_found(
    metrics: Seq<PlacementModel>,
    found: Seq<Option<Dispersion>>,
    n: int,
    i: int,
)
    requires
        0 <= n <= found.len(),
        found.len() == metrics.len(),
    ensures
        0 <= i < n && found[i] is Some ==> found_in(metrics, found, n).contains(
            (metrics[i].metric, found[i]->0),
        ),
        0 <= i < found_in(metrics, found, n).len() ==> exists|j: int|
            0 <= j < n && (#[trigger] found[j]) == Some(found_in(metrics, found, n)[i].1)
                && metrics[j].metric == found_in(metrics, found, n)[i].0,
    decreases n,
{
    if n > 0 {
        law_floor_is_the_dispersion_found(metrics, found, n - 1, i);
        let (before, all) = (found_in(metrics, found, n - 1), found_in(metrics, found, n));
        if 0 <= i < n - 1 && found[i] is Some {
            let one = (metrics[i].metric, found[i]->0);
            let k = choose|k: int| 0 <= k < before.len() && before[k] == one;
            assert(all[k] == one);
        } else if i == n - 1 && found[i] is Some {
            assert(all[all.len() - 1] == (metrics[i].metric, found[i]->0));
        }
        if 0 <= i < all.len() {
            if i < before.len() {
                let j = choose|j: int|
                    0 <= j < n - 1 && (#[trigger] found[j]) == Some(before[i].1)
                        && metrics[j].metric == before[i].0;
                assert(all[i] == before[i]);
                assert(found[j] == Some(all[i].1));
            } else {
                assert(found[n - 1] == Some(all[i].1));
            }
        }
    }
}

/// Whether a placement reports a metric.
pub open spec fn reports(m: Measured, metric: Seq<char>) -> bool {
    exists|t: int| 0 <= t < m@.len() && (#[trigger] m@[t]).0@ == metric
}

/// A metric is found exactly where the placement reports it.
proof fn lemma_found(m: Measured, metric: Seq<char>, i: int)
    requires
        0 <= i <= m@.len(),
    ensures
        metric_at(m@, metric, i) < m@.len() <==> exists|t: int|
            i <= t < m@.len() && (#[trigger] m@[t]).0@ == metric,
    decreases m@.len() - i,
{
    if i < m@.len() {
        lemma_found(m, metric, i + 1);
        if m@[i].0@ != metric {
            if metric_at(m@, metric, i) < m@.len() {
                let t = choose|t: int| i + 1 <= t < m@.len() && (#[trigger] m@[t]).0@ == metric;
                assert(i <= t && m@[t].0@ == metric);
            }
            if exists|t: int| i <= t < m@.len() && (#[trigger] m@[t]).0@ == metric {
                let t = choose|t: int| i <= t < m@.len() && (#[trigger] m@[t]).0@ == metric;
                assert(i + 1 <= t && m@[t].0@ == metric);
            }
        }
    }
}

/// No placement lacks a metric exactly where each reports it.
proof fn lemma_lacks(ms: Seq<Measured>, metric: Seq<char>, i: int)
    requires
        0 <= i <= ms.len(),
    ensures
        lacks(ms, metric, i) >= ms.len() <==> forall|j: int|
            i <= j < ms.len() ==> reports(#[trigger] ms[j], metric),
    decreases ms.len() - i,
{
    if i < ms.len() {
        lemma_lacks(ms, metric, i + 1);
        lemma_found(ms[i], metric, 0);
        assert(reports(ms[i], metric) <==> metric_at(ms[i]@, metric, 0) < ms[i]@.len());
    }
}

/// No placement has an odd size exactly where each has the first one's.
proof fn lemma_odd(ms: Seq<Measured>, i: int)
    requires
        0 <= i <= ms.len(),
    ensures
        odd_size(ms, i) >= ms.len() <==> forall|j: int|
            i <= j < ms.len() ==> (#[trigger] ms[j])@.len() == ms[0]@.len(),
    decreases ms.len() - i,
{
    if i < ms.len() {
        lemma_odd(ms, i + 1);
        if forall|j: int| i <= j < ms.len() ==> (#[trigger] ms[j])@.len() == ms[0]@.len() {
            assert(ms[i]@.len() == ms[0]@.len());
        }
    }
}

/// No metric is bad exactly where each is reported by every placement and has a
/// dispersion.
proof fn lemma_bad(cell: Cell, ms: Seq<Measured>, found: Seq<Result<Dispersion, String>>, i: int)
    requires
        0 <= i <= ms[0]@.len(),
        found.len() == ms[0]@.len(),
    ensures
        bad_metric(cell, ms, found, i) >= ms[0]@.len() <==> forall|k: int|
            i <= k < found.len() ==> (#[trigger] found[k]) is Ok && forall|j: int|
                0 <= j < ms.len() ==> reports(#[trigger] ms[j], ms[0]@[k].0@),
        bad_metric(cell, ms, found, i) < ms[0]@.len() ==> metric_fault(
            cell,
            ms,
            found,
            bad_metric(cell, ms, found, i),
        ) is Some,
    decreases ms[0]@.len() - i,
{
    if i < ms[0]@.len() {
        lemma_bad(cell, ms, found, i + 1);
        lemma_lacks(ms, ms[0]@[i].0@, 0);
        if forall|k: int|
            i <= k < found.len() ==> (#[trigger] found[k]) is Ok && forall|j: int|
                0 <= j < ms.len() ==> reports(#[trigger] ms[j], ms[0]@[k].0@) {
            assert(found[i] is Ok);
        }
    }
}

/// A floor is published exactly where the control was placed five times or more, every
/// placement reports as many metrics as the first, each metric of the first is reported
/// by all of them, and each has a dispersion.
pub proof fn law_floor_is_published_iff_the_placements_agree(
    cell: Cell,
    ms: Seq<Measured>,
    found: Seq<Result<Dispersion, String>>,
)
    requires
        ms.len() > 0 ==> found.len() == ms[0]@.len(),
    ensures
        block_fault(cell, ms, found) is None <==> {
            &&& ms.len() >= 5
            &&& forall|j: int| 0 <= j < ms.len() ==> (#[trigger] ms[j])@.len() == ms[0]@.len()
            &&& forall|k: int|
                0 <= k < found.len() ==> (#[trigger] found[k]) is Ok && forall|j: int|
                    0 <= j < ms.len() ==> reports(#[trigger] ms[j], ms[0]@[k].0@)
        },
{
    lemma_odd(ms, 0);
    if ms.len() > 0 {
        lemma_bad(cell, ms, found, 0);
    }
}

} // verus!
