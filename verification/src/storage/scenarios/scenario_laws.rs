//! What a scenario comes to: a run with one sample for each repetition, or the first
//! thing that went wrong.

use crate::storage::cells::Backend;
use crate::storage::document::DocumentCell;
use crate::storage::plan::{coords_of, PyramidPlan, TileCoord};
use crate::storage::scenarios::{concurrent_curve, Origin};
use crate::storage::scenarios::concurrent_curve::{arm_fault, is_rung_run, rung_skip, ArmFigures};
use crate::storage::scenarios::counting::{bytes_of, touching, Request};
use crate::storage::scenarios::facts::{
    digest_in, fact_of, is_written, Fact, RepFacts, RowOutcome, ScenarioRun, WriteFault,
};
use crate::storage::scenarios::floors::{are_placements, has_metric, medians_of, PlacementModel};
use crate::storage::scenarios::open::{
    is_seen, is_sound, lookup_fault, open_fault, phase_of, sample_total, OpenObservation, OpenRep,
    SplitSample,
};
use crate::storage::scenarios::reference::{
    are_orders, generate_fault, is_generate_run, is_read_run, law_orders_walk_the_same_tiles,
    pass_fault, read_skip, thrown_away, warmup_fault, Coordinates, GeneratedRep, PassFigures,
};
use crate::storage::scenarios::requests::{
    archive_counts, bytes_in, bytes_per_tile, counting_skip, requests_in, tree_counts,
    ArchiveRequests, CountModel, DeclaredWalk,
};
use crate::storage::scenarios::write_split::{
    highest_peak, is_phase_run, walk_fault, Phase, WalkedRep,
};
use crate::text::text_less;
use vstd::prelude::*;

verus! {

/// A generation comes about exactly where every repetition wrote its artefact, and the
/// first that did not says why.
pub proof fn law_first_unwritten_repetition_decides(
    reps: Seq<Result<GeneratedRep, WriteFault>>,
    halves: Seq<Result<WalkedRep, WriteFault>>,
    i: int,
    k: int,
)
    requires
        0 <= i,
    ensures
        i <= reps.len() ==> (generate_fault(reps, i) is None <==> forall|j: int|
            i <= j < reps.len() ==> (#[trigger] reps[j]) is Ok),
        i <= k < reps.len() && reps[k] is Err && (forall|j: int|
            i <= j < k ==> (#[trigger] reps[j]) is Ok) ==> generate_fault(reps, i) == Some(
            match reps[k]->Err_0 {
                WriteFault::NoScratch(e) => "no scratch directory: "@ + e@,
                WriteFault::NotWritten(e) => e@,
            },
        ),
        i <= halves.len() ==> (walk_fault(halves, i) is None <==> forall|j: int|
            i <= j < halves.len() ==> (#[trigger] halves[j]) is Ok),
        i <= k < halves.len() && halves[k] is Err && (forall|j: int|
            i <= j < k ==> (#[trigger] halves[j]) is Ok) ==> walk_fault(halves, i) == Some(
            match halves[k]->Err_0 {
                WriteFault::NoScratch(e) => "no scratch directory: "@ + e@,
                WriteFault::NotWritten(e) => e@,
            },
        ),
    decreases (if reps.len() > halves.len() {
        reps.len()
    } else {
        halves.len()
    }) - i,
{
    if i < reps.len() || i < halves.len() {
        law_first_unwritten_repetition_decides(reps, halves, i + 1, k);
        if i < reps.len() && reps[i] is Ok && generate_fault(reps, i + 1) is None {
            assert forall|j: int| i <= j < reps.len() implies (#[trigger] reps[j]) is Ok by {}
        }
        if i < reps.len() && (forall|j: int| i <= j < reps.len() ==> (#[trigger] reps[j]) is Ok) {
            assert(reps[i] is Ok);
        }
        if i < halves.len() && (forall|j: int|
            i <= j < halves.len() ==> (#[trigger] halves[j]) is Ok) {
            assert(halves[i] is Ok);
        }
        if i < k < reps.len() && (forall|j: int| i <= j < k ==> (#[trigger] reps[j]) is Ok) {
            assert(reps[i] is Ok);
        }
        if i < k < halves.len() && (forall|j: int| i <= j < k ==> (#[trigger] halves[j]) is Ok) {
            assert(halves[i] is Ok);
        }
    }
}

/// A generation has one wall time for each repetition, in their order, and a rate for
/// each exactly where every one has one; and the facts of each are those of what it
/// wrote.
pub proof fn law_generation_reports_every_repetition(
    run: ScenarioRun,
    reps: Seq<Result<GeneratedRep, WriteFault>>,
    i: int,
)
    requires
        is_generate_run(run, reps),
        0 <= i < reps.len(),
    ensures
        run.series@[0].metric.name@ == "wall"@,
        run.series@[0].samples@.len() == reps.len(),
        run.series@[0].samples@[i] == reps[i]->Ok_0.wall,
        run.series@.len() == 2 <==> forall|j: int|
            0 <= j < reps.len() ==> (#[trigger] reps[j])->Ok_0.rate is Some,
        run.series@.len() == 2 ==> run.series@[1].metric.name@ == "tiles_per_s"@
            && run.series@[1].samples@.len() == reps.len() && run.series@[1].samples@[i]
            == reps[i]->Ok_0.rate->0,
        run.reps@.len() == reps.len(),
        ({
            let (told, wrote) = (run.reps@[i].invariants, reps[i]->Ok_0.artefact);
            &&& told.tiles_produced == Some(wrote.tiles_produced)
            &&& told.artefact_digest == wrote.digest
            &&& wrote.occupancy matches Some(o) ==> told.output_bytes == Some(o.0)
                && told.filesystem_entries == Some(o.1) && told.directories == Some(o.2)
                && told.allocated_bytes == Some(o.3)
            &&& wrote.occupancy is None ==> told.output_bytes is None && told.filesystem_entries
                is None && told.directories is None && told.allocated_bytes is None
            &&& wrote.shape matches Some(s) ==> told.root_entries == Some(s.0) && told.leaves
                == Some(s.1)
            &&& wrote.shape is None ==> told.root_entries is None && told.leaves is None
            &&& told.requests is None && told.request_bytes is None
        }),
        run.discarded_warmup@.len() == 0,
{
    assert(is_written(run.reps@[i], reps[i]->Ok_0.artefact));
}

/// A half of a write has one wall time for each repetition, and the highest peak of
/// that half that any of them observed.
pub proof fn law_half_reports_every_repetition(
    run: ScenarioRun,
    p: Phase,
    reps: Seq<Result<WalkedRep, WriteFault>>,
    i: int,
)
    requires
        is_phase_run(run, p, reps),
        0 <= i < reps.len(),
    ensures
        run.series@.len() == 1,
        run.series@[0].samples@.len() == reps.len(),
        run.series@[0].samples@[i] == reps[i]->Ok_0.wall,
        p == Phase::Ingest && reps[i]->Ok_0.walk.ingest_peak_bytes is Some ==> run.heap_peak_bytes
            is Some && run.heap_peak_bytes->0 >= reps[i]->Ok_0.walk.ingest_peak_bytes->0,
        p == Phase::Finalize && reps[i]->Ok_0.walk.finalize_peak_bytes is Some
            ==> run.heap_peak_bytes is Some && run.heap_peak_bytes->0
            >= reps[i]->Ok_0.walk.finalize_peak_bytes->0,
        run.heap_peak_bytes matches Some(peak) ==> exists|j: int|
            0 <= j < reps.len() && (match p {
                Phase::Ingest => (#[trigger] reps[j])->Ok_0.walk.ingest_peak_bytes,
                Phase::Finalize => reps[j]->Ok_0.walk.finalize_peak_bytes,
            }) == Some(peak),
{
    lemma_highest(p, reps, reps.len() as int, i);
}

/// The highest peak is the highest, and one of them.
proof fn lemma_highest(p: Phase, reps: Seq<Result<WalkedRep, WriteFault>>, n: int, i: int)
    requires
        0 <= n <= reps.len(),
    ensures
        highest_peak(p, reps, n) matches Some(peak) ==> exists|j: int|
            0 <= j < n && (match p {
                Phase::Ingest => (#[trigger] reps[j])->Ok_0.walk.ingest_peak_bytes,
                Phase::Finalize => reps[j]->Ok_0.walk.finalize_peak_bytes,
            }) == Some(peak),
        0 <= i < n && p == Phase::Ingest && reps[i]->Ok_0.walk.ingest_peak_bytes is Some
            ==> highest_peak(p, reps, n) is Some && highest_peak(p, reps, n)->0
            >= reps[i]->Ok_0.walk.ingest_peak_bytes->0,
        0 <= i < n && p == Phase::Finalize && reps[i]->Ok_0.walk.finalize_peak_bytes is Some
            ==> highest_peak(p, reps, n) is Some && highest_peak(p, reps, n)->0
            >= reps[i]->Ok_0.walk.finalize_peak_bytes->0,
    decreases n,
{
    if n > 0 {
        lemma_highest(p, reps, n - 1, i);
        if let Some(peak) = highest_peak(p, reps, n) {
            if highest_peak(p, reps, n - 1) == Some(peak) {
                let j = choose|j: int|
                    0 <= j < n - 1 && (match p {
                        Phase::Ingest => (#[trigger] reps[j])->Ok_0.walk.ingest_peak_bytes,
                        Phase::Finalize => reps[j]->Ok_0.walk.finalize_peak_bytes,
                    }) == Some(peak);
                assert(0 <= j < n && reps[j] == reps[j]);
            } else {
                assert(reps[n - 1] == reps[n - 1]);
            }
        }
    }
}

/// Where no pass failed, none did, and a pass that failed first is the reason.
proof fn lemma_pass_faults(passes: Seq<Result<PassFigures, String>>, i: int, k: int)
    requires
        0 <= i <= passes.len(),
    ensures
        warmup_fault(passes, i) is None <==> forall|j: int|
            i <= j < passes.len() ==> (#[trigger] passes[j]) is Ok,
        pass_fault(passes, i) is None <==> forall|j: int|
            i <= j < passes.len() ==> (#[trigger] passes[j]) is Ok && passes[j]->Ok_0.p50 is Some
                && passes[j]->Ok_0.tail is Some,
        i <= k < passes.len() && passes[k] is Err && (forall|j: int|
            i <= j < k ==> (#[trigger] passes[j]) is Ok && passes[j]->Ok_0.p50 is Some
                && passes[j]->Ok_0.tail is Some) ==> pass_fault(passes, i) == Some(
            "a lookup failed: "@ + passes[k]->Err_0@,
        ),
        i <= k < passes.len() && passes[k] is Err && (forall|j: int|
            i <= j < k ==> (#[trigger] passes[j]) is Ok) ==> warmup_fault(passes, i) == Some(
            "a lookup failed: "@ + passes[k]->Err_0@,
        ),
    decreases passes.len() - i,
{
    if i < passes.len() {
        lemma_pass_faults(passes, i + 1, k);
        let first = passes[i];
        if forall|j: int| i <= j < passes.len() ==> (#[trigger] passes[j]) is Ok {
            assert(passes[i] is Ok);
        }
        if forall|j: int|
            i <= j < passes.len() ==> (#[trigger] passes[j]) is Ok && passes[j]->Ok_0.p50 is Some
                && passes[j]->Ok_0.tail is Some {
            assert(passes[i] is Ok);
        }
        if i < k < passes.len() {
            if forall|j: int| i <= j < k ==> (#[trigger] passes[j]) is Ok {
                assert(passes[i] is Ok);
            }
            if forall|j: int|
                i <= j < k ==> (#[trigger] passes[j]) is Ok && passes[j]->Ok_0.p50 is Some
                    && passes[j]->Ok_0.tail is Some {
                assert(passes[i] is Ok);
            }
        }
    }
}

/// A read pass comes about exactly where there is something to walk, the artefact
/// opened, no pass that is thrown away failed, and every timed pass looked up all its
/// tiles and timed some. With nothing to walk it is skipped; all else is a failure.
pub proof fn law_read_comes_about_iff_every_pass_did(
    empty: bool,
    opened: Result<(), String>,
    warmups: Seq<Result<PassFigures, String>>,
    passes: Seq<Result<PassFigures, String>>,
    k: int,
)
    ensures
        read_skip(empty, opened, warmups, passes) is None <==> {
            &&& !empty
            &&& opened is Ok
            &&& forall|j: int| 0 <= j < warmups.len() ==> (#[trigger] warmups[j]) is Ok
            &&& forall|j: int|
                0 <= j < passes.len() ==> (#[trigger] passes[j]) is Ok && passes[j]->Ok_0.p50
                    is Some && passes[j]->Ok_0.tail is Some
        },
        empty ==> (read_skip(empty, opened, warmups, passes)->0).0 == RowOutcome::Skipped,
        !empty && opened is Err ==> read_skip(empty, opened, warmups, passes) == Some(
            (RowOutcome::Failed, opened->Err_0@),
        ),
        !empty && read_skip(empty, opened, warmups, passes) is Some ==> (read_skip(
            empty,
            opened,
            warmups,
            passes,
        )->0).0 == RowOutcome::Failed,
        !empty && opened is Ok && warmups.len() == 0 && 0 <= k < passes.len() && passes[k] is Err
            && (forall|j: int|
            0 <= j < k ==> (#[trigger] passes[j]) is Ok && passes[j]->Ok_0.p50 is Some
                && passes[j]->Ok_0.tail is Some) ==> read_skip(empty, opened, warmups, passes)
            == Some((RowOutcome::Failed, "a lookup failed: "@ + passes[k]->Err_0@)),
{
    lemma_pass_faults(warmups, 0, k);
    lemma_pass_faults(passes, 0, k);
}

/// The medians of passes that are thrown away.
proof fn lemma_thrown(warmups: Seq<Result<PassFigures, String>>, n: int)
    requires
        0 <= n <= warmups.len(),
        forall|j: int| 0 <= j < n ==> (#[trigger] warmups[j])->Ok_0.p50 is Some,
    ensures
        thrown_away(warmups, n) == Seq::new(n as nat, |j: int| warmups[j]->Ok_0.p50->0),
    decreases n,
{
    if n > 0 {
        lemma_thrown(warmups, n - 1);
        assert(warmups[n - 1]->Ok_0.p50 is Some);
    }
    assert(thrown_away(warmups, n) =~= Seq::new(n as nat, |j: int| warmups[j]->Ok_0.p50->0));
}

/// A read pass has a median and a tail for each timed pass, in their order, and a rate
/// for each exactly where every one has one. A pass that is thrown away is in none of
/// them: its median stands apart.
pub proof fn law_thrown_away_pass_is_no_sample(
    run: ScenarioRun,
    lookups: nat,
    warmups: Seq<Result<PassFigures, String>>,
    passes: Seq<Result<PassFigures, String>>,
    i: int,
)
    requires
        is_read_run(run, lookups, warmups, passes),
        0 <= i < passes.len(),
    ensures
        run.series@[0].metric.name@ == "p50"@,
        run.series@[0].samples@.len() == passes.len(),
        run.series@[0].samples@[i] == passes[i]->Ok_0.p50->0,
        run.series@[1].samples@.len() == passes.len(),
        run.series@[1].samples@[i] == passes[i]->Ok_0.tail->0,
        run.series@.len() == 3 <==> forall|j: int|
            0 <= j < passes.len() ==> (#[trigger] passes[j])->Ok_0.rate is Some,
        run.series@.len() == 3 ==> run.series@[2].metric.name@ == "lookups_per_s"@
            && run.series@[2].samples@.len() == passes.len() && run.series@[2].samples@[i]
            == passes[i]->Ok_0.rate->0,
        run.reps@.len() == passes.len(),
        (forall|j: int| 0 <= j < warmups.len() ==> (#[trigger] warmups[j])->Ok_0.p50 is Some)
            ==> run.discarded_warmup@ == Seq::new(
            warmups.len(),
            |j: int| warmups[j]->Ok_0.p50->0,
        ),
{
    if forall|j: int| 0 <= j < warmups.len() ==> (#[trigger] warmups[j])->Ok_0.p50 is Some {
        lemma_thrown(warmups, warmups.len() as int);
    }
}

/// The coordinates of a cell's read passes are the first of its plan, as many as asked
/// for or all there are; the three orders hold the same tiles, each as often.
pub proof fn law_three_orders_are_one_set(
    sets: Coordinates,
    plan: PyramidPlan,
    n: int,
    seed: u64,
)
    requires
        are_orders(sets, plan, n, seed),
        0 <= n,
    ensures
        sets.plan_order@.len() == (if n < coords_of(plan.levels@).len() {
            n
        } else {
            coords_of(plan.levels@).len() as int
        }),
        forall|i: int|
            0 <= i < sets.plan_order@.len() ==> #[trigger] sets.plan_order@[i] == coords_of(
                plan.levels@,
            )[i],
        sets.random@.to_multiset() == sets.plan_order@.to_multiset(),
        sets.tileid_order@.to_multiset() == sets.plan_order@.to_multiset(),
        sets.root_addressed is Some <==> sets.plan_order@.len() > 0,
        sets.root_addressed is Some ==> sets.root_addressed == Some(sets.plan_order@[0]),
{
    law_orders_walk_the_same_tiles(sets.plan_order@, seed);
}

/// Of some requests, those that touch a section: they start before its end and end
/// behind its start. None is lost and none is added, and each stands as often.
pub proof fn law_touching_requests_are_those_that_overlap(
    requests: Seq<Request>,
    start: u64,
    length: u64,
    n: int,
)
    requires
        0 <= n < requests.len(),
    ensures
        touching(requests, start, length, 0).len() == 0,
        requests[n].offset < start + length && requests[n].offset + requests[n].len > start
            ==> touching(requests, start, length, n + 1) == touching(requests, start, length, n).push(
            requests[n],
        ),
        !(requests[n].offset < start + length && requests[n].offset + requests[n].len > start)
            ==> touching(requests, start, length, n + 1) == touching(requests, start, length, n),
        bytes_of(requests, 0) == 0,
        bytes_of(requests, n + 1) == bytes_of(requests, n) + requests[n].len,
{
}

/// No request touches a section exactly where each of them lies before it or behind
/// it.
proof fn lemma_none_touches(requests: Seq<Request>, start: u64, length: u64, n: int)
    requires
        0 <= n <= requests.len(),
    ensures
        touching(requests, start, length, n).len() == 0 <==> forall|i: int|
            0 <= i < n ==> (#[trigger] requests[i]).offset >= start + length || requests[i].offset
                + requests[i].len <= start,
    decreases n,
{
    if n > 0 {
        lemma_none_touches(requests, start, length, n - 1);
        if forall|i: int|
            0 <= i < n ==> (#[trigger] requests[i]).offset >= start + length || requests[i].offset
                + requests[i].len <= start {
            assert(requests[n - 1].offset >= start + length || requests[n - 1].offset
                + requests[n - 1].len <= start);
        }
    }
}

/// An open comes about exactly where every repetition opened and none of those that
/// were seen fetched a range from the tile data; a first lookup exactly where every
/// repetition found its way.
pub proof fn law_open_reads_the_index_alone(reps: Seq<Result<OpenRep, String>>, i: int)
    requires
        0 <= i <= reps.len(),
    ensures
        open_fault(reps, i) is None <==> forall|j: int|
            i <= j < reps.len() ==> {
                &&& (#[trigger] reps[j]) is Ok
                &&& reps[j]->Ok_0.seen matches Some(seen) ==> forall|k: int|
                    0 <= k < seen.requests@.len() ==> (#[trigger] seen.requests@[k]).offset
                        >= seen.tile_data_offset + seen.tile_data_length || seen.requests@[k].offset
                        + seen.requests@[k].len <= seen.tile_data_offset
            },
    decreases reps.len() - i,
{
    if i < reps.len() {
        law_open_reads_the_index_alone(reps, i + 1);
        if let Ok(rep) = reps[i] {
            if let Some(seen) = rep.seen {
                lemma_none_touches(
                    seen.requests@,
                    seen.tile_data_offset,
                    seen.tile_data_length,
                    seen.requests@.len() as int,
                );
            }
        }
        if forall|j: int|
            i <= j < reps.len() ==> {
                &&& (#[trigger] reps[j]) is Ok
                &&& reps[j]->Ok_0.seen matches Some(seen) ==> forall|k: int|
                    0 <= k < seen.requests@.len() ==> (#[trigger] seen.requests@[k]).offset
                        >= seen.tile_data_offset + seen.tile_data_length || seen.requests@[k].offset
                        + seen.requests@[k].len <= seen.tile_data_offset
            } {
            assert(reps[i] is Ok);
        }
    }
}

/// A first lookup comes about exactly where every repetition did.
pub proof fn law_first_failed_lookup_decides(reps: Seq<Result<u64, String>>, i: int, k: int)
    requires
        0 <= i <= reps.len(),
    ensures
        lookup_fault(reps, i) is None <==> forall|j: int|
            i <= j < reps.len() ==> (#[trigger] reps[j]) is Ok,
        i <= k < reps.len() && reps[k] is Err && (forall|j: int|
            i <= j < k ==> (#[trigger] reps[j]) is Ok) ==> lookup_fault(reps, i) == Some(
            reps[k]->Err_0@,
        ),
    decreases reps.len() - i,
{
    if i < reps.len() {
        law_first_failed_lookup_decides(reps, i + 1, k);
        if forall|j: int| i <= j < reps.len() ==> (#[trigger] reps[j]) is Ok {
            assert(reps[i] is Ok);
        }
        if i < k < reps.len() && (forall|j: int| i <= j < k ==> (#[trigger] reps[j]) is Ok) {
            assert(reps[i] is Ok);
        }
    }
}

/// Of an archive every operation is counted as it was observed, and nothing is declared;
/// of a tree everything is declared, and nothing observed. The totals are the sums.
pub proof fn law_archive_is_counted_and_tree_declared(
    r: ArchiveRequests,
    tiles: u64,
    per_tile: u64,
    walk: u64,
    leaves: bool,
    i: int,
)
    ensures
        archive_counts(r).len() == (if r.leaf_lookups is Some {
            5int
        } else {
            3
        }),
        archive_counts(r)[0].requests == r.open@.len() && archive_counts(r)[0].bytes == bytes_of(
            r.open@,
            r.open@.len() as int,
        ),
        archive_counts(r)[1].requests == r.root_lookup@.len() && archive_counts(r)[1].bytes
            == bytes_of(r.root_lookup@, r.root_lookup@.len() as int),
        archive_counts(r).last().requests == r.random_walk@.len() && archive_counts(r).last().bytes
            == bytes_of(r.random_walk@, r.random_walk@.len() as int),
        r.leaf_lookups matches Some((cold, warm)) ==> archive_counts(r)[2].requests == cold@.len()
            && archive_counts(r)[3].requests == warm@.len(),
        0 <= i < archive_counts(r).len() ==> archive_counts(r)[i].origin == Origin::Observed,
        0 <= i < tree_counts(tiles, per_tile, walk, leaves).len() ==> tree_counts(
            tiles,
            per_tile,
            walk,
            leaves,
        )[i].origin == Origin::Declared,
        tree_counts(tiles, per_tile, walk, leaves)[0].requests == 0 && tree_counts(
            tiles,
            per_tile,
            walk,
            leaves,
        )[0].bytes == 0,
        tree_counts(tiles, per_tile, walk, leaves)[1].requests == 1 && tree_counts(
            tiles,
            per_tile,
            walk,
            leaves,
        )[1].bytes == per_tile,
        tree_counts(tiles, per_tile, walk, leaves).last().requests == (if walk <= tiles {
            walk
        } else {
            tiles
        }),
        tree_counts(tiles, per_tile, walk, leaves).last().bytes == (if walk <= tiles {
            walk
        } else {
            tiles
        }) * per_tile,
        tree_counts(tiles, per_tile, walk, leaves).len() == (if leaves {
            5int
        } else {
            3
        }),
{
    assert(1 * per_tile as nat == per_tile as nat);
    let counts = archive_counts(r);
    let n = counts.len() as int;
    assert(counts.last() == counts[n - 1]);
    let tree = tree_counts(tiles, per_tile, walk, leaves);
    assert(tree.last() == tree[tree.len() - 1]);
}

/// The totals of some counts are the sums over all of them.
pub proof fn law_totals_add_every_count(counts: Seq<CountModel>, n: int)
    requires
        0 <= n < counts.len(),
    ensures
        requests_in(counts, 0) == 0 && bytes_in(counts, 0) == 0,
        requests_in(counts, n + 1) == requests_in(counts, n) + counts[n].requests,
        bytes_in(counts, n + 1) == bytes_in(counts, n) + counts[n].bytes,
{
}

/// Requests are counted exactly where there is a coordinate to look up and, of an
/// archive, it was opened and read.
pub proof fn law_counting_needs_a_coordinate_and_an_archive(
    backend: Backend,
    root: Option<TileCoord>,
    archive: Option<Result<ArchiveRequests, String>>,
)
    ensures
        counting_skip(backend, root, archive) is None <==> root is Some && (backend
            == Backend::PmTiles ==> (archive matches Some(Ok(_)))),
        root is None ==> (counting_skip(backend, root, archive)->0).0 == RowOutcome::Skipped,
        root is Some && counting_skip(backend, root, archive) is Some ==> (counting_skip(
            backend,
            root,
            archive,
        )->0).0 == RowOutcome::Failed,
        root is Some && backend == Backend::PmTiles ==> (archive matches Some(Err(e))
            ==> counting_skip(backend, root, archive) == Some((RowOutcome::Failed, e@))),
{
}

/// Where no pass of a rung failed, none did.
proof fn lemma_arm_faults(passes: Seq<Result<ArmFigures, String>>, i: int)
    requires
        0 <= i <= passes.len(),
    ensures
        concurrent_curve::warmup_fault(passes, i) is None <==> forall|j: int|
            i <= j < passes.len() ==> (#[trigger] passes[j]) is Ok,
        arm_fault(passes, i) is None <==> forall|j: int|
            i <= j < passes.len() ==> (#[trigger] passes[j]) is Ok && passes[j]->Ok_0.rate is Some
                && passes[j]->Ok_0.p50 is Some,
    decreases passes.len() - i,
{
    if i < passes.len() {
        lemma_arm_faults(passes, i + 1);
        if forall|j: int| i <= j < passes.len() ==> (#[trigger] passes[j]) is Ok {
            assert(passes[i] is Ok);
        }
        if forall|j: int|
            i <= j < passes.len() ==> (#[trigger] passes[j]) is Ok && passes[j]->Ok_0.rate is Some
                && passes[j]->Ok_0.p50 is Some {
            assert(passes[i] is Ok);
        }
    }
}

/// A rung comes about exactly where it is not one that the host has no cores for, there
/// is something to walk, the artefact opened, and every pass was walked and timed. What
/// the host has no cores for is skipped, whatever else went wrong.
pub proof fn law_rung_comes_about_iff_the_host_can(
    threads: usize,
    ncpu: usize,
    empty: bool,
    opened: Result<(), String>,
    warmups: Seq<Result<ArmFigures, String>>,
    passes: Seq<Result<ArmFigures, String>>,
)
    requires
        threads == 1 || threads == 2 || threads == 4 || threads == 8,
    ensures
        rung_skip(threads, ncpu, empty, opened, warmups, passes) is None <==> {
            &&& threads <= ncpu
            &&& !empty
            &&& opened is Ok
            &&& forall|j: int| 0 <= j < warmups.len() ==> (#[trigger] warmups[j]) is Ok
            &&& forall|j: int|
                0 <= j < passes.len() ==> (#[trigger] passes[j]) is Ok && passes[j]->Ok_0.rate
                    is Some && passes[j]->Ok_0.p50 is Some
        },
        threads > ncpu || empty ==> (rung_skip(threads, ncpu, empty, opened, warmups, passes)->0).0
            == RowOutcome::Skipped,
        threads <= ncpu && !empty && rung_skip(threads, ncpu, empty, opened, warmups, passes)
            is Some ==> (rung_skip(threads, ncpu, empty, opened, warmups, passes)->0).0
            == RowOutcome::Failed,
{
    let l = concurrent_curve::thread_ladder();
    assert(l[0] == 1 && l[1] == 2 && l[2] == 4 && l[3] == 8);
    assert(l.contains(threads));
    lemma_arm_faults(warmups, 0);
    lemma_arm_faults(passes, 0);
}

/// A rung has a rate and a median for each timed pass, in their order.
pub proof fn law_rung_reports_every_pass(
    run: ScenarioRun,
    warmups: Seq<Result<ArmFigures, String>>,
    passes: Seq<Result<ArmFigures, String>>,
    i: int,
)
    requires
        is_rung_run(run, warmups, passes),
        0 <= i < passes.len(),
    ensures
        run.series@.len() == 2,
        run.series@[0].metric.name@ == "lookups_per_s"@,
        run.series@[0].samples@.len() == passes.len(),
        run.series@[0].samples@[i] == passes[i]->Ok_0.rate->0,
        run.series@[1].metric.name@ == "p50"@,
        run.series@[1].samples@.len() == passes.len(),
        run.series@[1].samples@[i] == passes[i]->Ok_0.p50->0,
        run.reps@.len() == passes.len(),
{
}

/// What an open fetched is counted as it was: every range, and all their bytes; of one
/// that nobody watched nothing is counted.
pub proof fn law_open_counts_what_it_fetched(facts: RepFacts, seen: Option<OpenObservation>)
    requires
        is_seen(facts, seen),
        seen matches Some(o) ==> is_sound(o),
        seen matches Some(o) ==> o.requests@.len() <= u64::MAX,
    ensures
        seen matches Some(o) ==> {
            &&& facts.invariants.requests is Some && facts.invariants.requests->0
                == o.requests@.len()
            &&& facts.invariants.request_bytes is Some && facts.invariants.request_bytes->0
                == bytes_of(o.requests@, o.requests@.len() as int)
            &&& facts.invariants.root_entries == Some(o.root_entries)
        },
        seen is None ==> facts.invariants.requests is None && facts.invariants.request_bytes is None
            && facts.invariants.root_entries is None,
        facts.invariants.output_bytes is None && facts.invariants.tiles_produced is None
            && facts.invariants.artefact_digest is None,
{
    let i = facts.invariants;
    if seen is None {
        assert(fact_of(i, Fact::Requests) is None && fact_of(i, Fact::RequestBytes) is None);
        assert(fact_of(i, Fact::RootEntries) is None && fact_of(i, Fact::OutputBytes) is None);
        assert(fact_of(i, Fact::TilesProduced) is None && digest_in(i) is None);
    }
}

/// The total of an iteration is all of its phases, and a phase has the sample of each
/// iteration in its order.
pub proof fn law_total_is_all_six_phases(samples: Seq<SplitSample>, phase: int, i: int)
    requires
        0 <= i < samples.len(),
        0 <= phase < 6,
    ensures
        sample_total(samples[i]) >= samples[i].phases@[phase],
        sample_total(samples[i]) == samples[i].phases@[0] + samples[i].phases@[1]
            + samples[i].phases@[2] + samples[i].phases@[3] + samples[i].phases@[4]
            + samples[i].phases@[5],
        phase_of(samples, phase).len() == samples.len(),
        phase_of(samples, phase)[i] == samples[i].phases@[phase],
{
}

/// A tile of a tree is declared to be an even share of its bytes, rounded down, and
/// nothing where the tree has no tiles or could not be walked.
pub proof fn law_tile_is_an_even_share(d: DeclaredWalk)
    ensures
        d.total_bytes matches Some(total) ==> d.tiles > 0 ==> bytes_per_tile(d) * d.tiles <= total
            < (bytes_per_tile(d) + 1) * d.tiles,
        d.total_bytes is None || d.tiles == 0 ==> bytes_per_tile(d) == 0,
{
    if let Some(total) = d.total_bytes {
        if d.tiles > 0 {
            let (t, n) = (total as int, d.tiles as int);
            let q = t / n;
            assert(q * n <= t < (q + 1) * n) by (nonlinear_arith)
                requires
                    n > 0,
                    q == t / n,
            ;
            assert(0 <= q <= t) by (nonlinear_arith)
                requires
                    n > 0,
                    t >= 0,
                    q == t / n,
            ;
        }
    }
}

/// The control's placements come metric by metric, in ascending order and none twice;
/// each has the medians of its own rows, and none is missing that has any.
pub proof fn law_placements_come_metric_by_metric(
    list: Seq<PlacementModel>,
    cells: Seq<DocumentCell>,
    spec_text: Seq<char>,
    n: int,
    i: int,
    j: int,
    metric: Seq<char>,
)
    requires
        are_placements(list, cells, spec_text, n),
        0 <= i < list.len(),
    ensures
        i < j < list.len() ==> text_less(list[i].metric, list[j].metric),
        list[i].medians == medians_of(cells, spec_text, list[i].metric, n),
        list[i].medians.len() > 0,
        medians_of(cells, spec_text, metric, n).len() > 0 ==> exists|k: int|
            0 <= k < list.len() && (#[trigger] list[k]).metric == metric,
{
    assert(has_metric(list, list[i].metric));
    if medians_of(cells, spec_text, metric, n).len() > 0 {
        assert(has_metric(list, metric));
    }
}

} // verus!
