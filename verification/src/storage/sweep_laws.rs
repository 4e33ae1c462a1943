//! What a sweep makes of what its children measured, and which children it starts.

use crate::storage::archive::{run_id_of, value_at};
use crate::storage::attest::Attestation;
use crate::storage::cells::{Backend, Cell, Profile};
use crate::storage::document::{CellReport, Document, DocumentCell, MachineLoad};
use crate::storage::json::Json;
use crate::storage::scenarios::facts::{lemma_published, InfoModel, Isolation, RepKind, RowOutcome};
use crate::storage::sweep::{
    attested_as, can_run, cell_steps_of, flag_place, is_finished, is_row, leading_order, marked,
    reps_of, round_steps, rounds_of, rounds_steps, says_dirty, scenario_steps, stamped, step_of,
    walked_of, Step,
};
use crate::storage::wire::{law_measured_iff_every_repetition_agrees, RunModel, SeriesModel};
use vstd::prelude::*;

verus! {

/// A row is about its backend, cell, scenario and metric, and has the samples of its
/// series. It comes out as measured exactly where the run says `ok` and every two
/// repetitions agree; each count that it publishes is the one that all of them
/// observed. It has to have as many samples as its kind of scenario takes
/// repetitions, and it is marked where it ran more threads than the host has cores.
pub proof fn law_row_says_what_its_run_did(
    row: CellReport,
    backend: Backend,
    cell: Cell,
    scenario: InfoModel,
    profile: Profile,
    wire: RunModel,
    load: MachineLoad,
    ncpu: usize,
    series: SeriesModel,
)
    requires
        is_row(row, backend, cell, scenario, profile, wire, load, ncpu, series),
    ensures
        ({
            let agree = forall|i: int, j: int|
                0 <= i < wire.reps.len() && 0 <= j < wire.reps.len() ==> {
                    let (a, b) = (
                        (#[trigger] wire.reps[i]).invariants,
                        (#[trigger] wire.reps[j]).invariants,
                    );
                    &&& a.output_bytes == b.output_bytes
                    &&& a.allocated_bytes == b.allocated_bytes
                    &&& a.filesystem_entries == b.filesystem_entries
                    &&& a.directories == b.directories
                    &&& a.tiles_produced == b.tiles_produced
                    &&& a.root_entries == b.root_entries
                    &&& a.leaves == b.leaves
                    &&& a.requests == b.requests
                    &&& a.request_bytes == b.request_bytes
                    &&& (match (a.artefact_digest, b.artefact_digest) {
                        (Some(x), Some(y)) => x@ == y@,
                        (None, None) => true,
                        _ => false,
                    })
                };
            &&& row.backend == backend
            &&& row.cell == cell
            &&& row.scenario@ == scenario.name
            &&& row.metric@ == series.metric
            &&& row.samples@ == series.samples
            &&& row.discarded_warmup@ == wire.discarded_warmup
            &&& row.isolation == scenario.isolation
            &&& row.warmup is Some <==> scenario.warmup is Some
            &&& row.warmup matches Some(w) ==> scenario.warmup->0 == (w.policy@, w.passes)
            &&& row.machine_load == load
            &&& row.oversubscribed <==> scenario.threads > ncpu
            &&& row.invariants.peak_rss_bytes == wire.peak_rss_bytes
            &&& row.invariants.heap_peak_bytes == wire.heap_peak_bytes
            &&& row.reps_declared == row.min_reps
            &&& row.min_reps == (match scenario.rep_kind {
                RepKind::Once => 1int,
                RepKind::Generate => if profile == Profile::Ci {
                    3
                } else {
                    7
                },
                RepKind::Read => if profile == Profile::Ci {
                    3
                } else {
                    20
                },
            })
            &&& row.outcome == RowOutcome::Passed <==> wire.outcome == "ok"@ && agree
            &&& row.outcome == RowOutcome::Refused <==> wire.outcome == "ok"@ && !agree
            &&& row.outcome == RowOutcome::Skipped <==> wire.outcome == "skipped"@
            &&& wire.reason matches Some(r) ==> row.reason is Some && row.reason->0@ == r
            &&& wire.reason is None ==> (row.reason is None <==> agree)
            &&& row.invariants.invariants.output_bytes is Some <==> wire.reps.len() > 0
                && wire.reps[0].invariants.output_bytes is Some && forall|i: int|
                0 <= i < wire.reps.len() ==> (#[trigger] wire.reps[i]).invariants.output_bytes
                    == wire.reps[0].invariants.output_bytes
            &&& row.invariants.invariants.output_bytes is Some ==> row.invariants.invariants.output_bytes
                == wire.reps[0].invariants.output_bytes
            &&& row.invariants.invariants.allocated_bytes is Some <==> wire.reps.len() > 0
                && wire.reps[0].invariants.allocated_bytes is Some && forall|i: int|
                0 <= i < wire.reps.len() ==> (#[trigger] wire.reps[i]).invariants.allocated_bytes
                    == wire.reps[0].invariants.allocated_bytes
            &&& row.invariants.invariants.allocated_bytes is Some ==> row.invariants.invariants.allocated_bytes
                == wire.reps[0].invariants.allocated_bytes
            &&& row.invariants.invariants.filesystem_entries is Some <==> wire.reps.len() > 0
                && wire.reps[0].invariants.filesystem_entries is Some && forall|i: int|
                0 <= i < wire.reps.len() ==> (#[trigger] wire.reps[i]).invariants.filesystem_entries
                    == wire.reps[0].invariants.filesystem_entries
            &&& row.invariants.invariants.filesystem_entries is Some ==> row.invariants.invariants.filesystem_entries
                == wire.reps[0].invariants.filesystem_entries
            &&& row.invariants.invariants.directories is Some <==> wire.reps.len() > 0
                && wire.reps[0].invariants.directories is Some && forall|i: int|
                0 <= i < wire.reps.len() ==> (#[trigger] wire.reps[i]).invariants.directories
                    == wire.reps[0].invariants.directories
            &&& row.invariants.invariants.directories is Some ==> row.invariants.invariants.directories
                == wire.reps[0].invariants.directories
            &&& row.invariants.invariants.tiles_produced is Some <==> wire.reps.len() > 0
                && wire.reps[0].invariants.tiles_produced is Some && forall|i: int|
                0 <= i < wire.reps.len() ==> (#[trigger] wire.reps[i]).invariants.tiles_produced
                    == wire.reps[0].invariants.tiles_produced
            &&& row.invariants.invariants.tiles_produced is Some ==> row.invariants.invariants.tiles_produced
                == wire.reps[0].invariants.tiles_produced
            &&& row.invariants.invariants.root_entries is Some <==> wire.reps.len() > 0
                && wire.reps[0].invariants.root_entries is Some && forall|i: int|
                0 <= i < wire.reps.len() ==> (#[trigger] wire.reps[i]).invariants.root_entries
                    == wire.reps[0].invariants.root_entries
            &&& row.invariants.invariants.root_entries is Some ==> row.invariants.invariants.root_entries
                == wire.reps[0].invariants.root_entries
            &&& row.invariants.invariants.leaves is Some <==> wire.reps.len() > 0
                && wire.reps[0].invariants.leaves is Some && forall|i: int|
                0 <= i < wire.reps.len() ==> (#[trigger] wire.reps[i]).invariants.leaves
                    == wire.reps[0].invariants.leaves
            &&& row.invariants.invariants.leaves is Some ==> row.invariants.invariants.leaves
                == wire.reps[0].invariants.leaves
            &&& row.invariants.invariants.requests is Some <==> wire.reps.len() > 0
                && wire.reps[0].invariants.requests is Some && forall|i: int|
                0 <= i < wire.reps.len() ==> (#[trigger] wire.reps[i]).invariants.requests
                    == wire.reps[0].invariants.requests
            &&& row.invariants.invariants.requests is Some ==> row.invariants.invariants.requests
                == wire.reps[0].invariants.requests
            &&& row.invariants.invariants.request_bytes is Some <==> wire.reps.len() > 0
                && wire.reps[0].invariants.request_bytes is Some && forall|i: int|
                0 <= i < wire.reps.len() ==> (#[trigger] wire.reps[i]).invariants.request_bytes
                    == wire.reps[0].invariants.request_bytes
            &&& row.invariants.invariants.request_bytes is Some ==> row.invariants.invariants.request_bytes
                == wire.reps[0].invariants.request_bytes
        }),
{
    law_measured_iff_every_repetition_agrees(wire);
    lemma_published(wire.reps, row.invariants.invariants);
}

/// What a sweep that ended writes: every row as it was filed, with the mark of dirt on
/// each exactly where the provenance says that one of the two trees was dirty; the end
/// and the provenance; and the id that the start and the provenance give, where they
/// give one.
pub proof fn law_finished_sweep_marks_every_row(
    doc: Document,
    swept: Document,
    finished_at: Seq<char>,
    provenance: Json,
    i: int,
)
    requires
        is_finished(doc, swept, finished_at, provenance),
    ensures
        doc.cells@.len() == swept.cells@.len(),
        0 <= i < doc.cells@.len() ==> {
            let dirty = value_at(provenance, "dirty"@) == Some(Json::Bool(true)) || value_at(
                provenance,
                "library.dirty"@,
            ) == Some(Json::Bool(true));
            &&& dirty ==> doc.cells@[i].dirty == Some(true)
            &&& !dirty ==> doc.cells@[i].dirty == swept.cells@[i].dirty
            &&& doc.cells@[i].samples == swept.cells@[i].samples
            &&& doc.cells@[i].summary == swept.cells@[i].summary
            &&& doc.cells@[i].outcome == swept.cells@[i].outcome
            &&& doc.cells@[i].reason == swept.cells@[i].reason
            &&& doc.cells@[i].attested == swept.cells@[i].attested
            &&& doc.cells@[i].confidence == swept.cells@[i].confidence
            &&& doc.cells@[i].invariants == swept.cells@[i].invariants
            &&& doc.cells@[i].backend == swept.cells@[i].backend
            &&& doc.cells@[i].key == swept.cells@[i].key
        },
        doc.finished_at is Some && doc.finished_at->0@ == finished_at,
        doc.provenance is Some && doc.provenance->0@ == provenance,
        doc.starting_load == swept.starting_load,
        doc.started_at == swept.started_at,
        ({
            let evidence = Json::Object(
                seq![("startedAt"@, Json::Str(swept.started_at@)), ("provenance"@, provenance)],
            );
            &&& run_id_of(evidence) matches Ok(id) ==> doc.run_id is Some && doc.run_id->0@ == id
            &&& run_id_of(evidence) is Err ==> (doc.run_id is Some <==> swept.run_id is Some) && (
            doc.run_id is Some ==> doc.run_id->0@ == swept.run_id->0@)
        }),
        doc.schema_version == swept.schema_version && doc.family == swept.family && doc.runner
            == swept.runner && doc.profile == swept.profile && doc.reps == swept.reps,
{
    if 0 <= i < doc.cells@.len() {
        assert(doc.cells@[i] == marked(swept.cells@[i], says_dirty(provenance)));
    }
}

/// A row is filed with the verdict on its artefact, and with nothing else changed.
pub proof fn law_filing_stamps_the_verdict_alone(row: DocumentCell, attested: Option<bool>)
    ensures
        stamped(row, attested).attested == attested,
        stamped(row, attested).samples == row.samples,
        stamped(row, attested).summary == row.summary,
        stamped(row, attested).outcome == row.outcome,
        stamped(row, attested).reason == row.reason,
        stamped(row, attested).confidence == row.confidence,
        stamped(row, attested).low_confidence_reasons == row.low_confidence_reasons,
        stamped(row, attested).invariants == row.invariants,
        stamped(row, attested).backend == row.backend,
        stamped(row, attested).cell == row.cell,
        stamped(row, attested).scenario == row.scenario,
        stamped(row, attested).metric == row.metric,
        stamped(row, attested).key == row.key,
        stamped(row, attested).dirty == row.dirty,
        stamped(row, attested).machine_load == row.machine_load,
{
}

/// Which steps the first rounds of a scenario have.
proof fn lemma_rounds_hold(
    index: int,
    info: InfoModel,
    profile: Profile,
    have: Seq<Backend>,
    r: int,
    step: Step,
)
    requires
        0 <= r <= rounds_of(info, profile),
    ensures
        rounds_steps(index, info, profile, have, r).contains(step) <==> exists|q: int|
            0 <= q < r && (!info.needs_artefact || have.contains(step.backend)) && step
                == #[trigger] step_of(index, info, profile, step.backend, q),
    decreases r,
{
    if r > 0 {
        lemma_rounds_hold(index, info, profile, have, r - 1, step);
        let before = rounds_steps(index, info, profile, have, r - 1);
        let last = round_steps(index, info, profile, have, r - 1);
        let all = rounds_steps(index, info, profile, have, r);
        let order = leading_order(index);
        assert(order[0] == Backend::PmTiles && order[1] == Backend::Directory || order[0]
            == Backend::Directory && order[1] == Backend::PmTiles);
        if all.contains(step) {
            let k = choose|k: int| 0 <= k < all.len() && all[k] == step;
            if k < before.len() {
                assert(before[k] == step);
                assert(before.contains(step));
                let q = choose|q: int|
                    0 <= q < r - 1 && (!info.needs_artefact || have.contains(step.backend)) && step
                        == #[trigger] step_of(index, info, profile, step.backend, q);
                assert(0 <= q < r && step == step_of(index, info, profile, step.backend, q));
            } else {
                assert(last[k - before.len()] == step);
                assert(step == step_of(index, info, profile, step.backend, r - 1));
            }
        }
        if exists|q: int|
            0 <= q < r && (!info.needs_artefact || have.contains(step.backend)) && step
                == #[trigger] step_of(index, info, profile, step.backend, q) {
            let q = choose|q: int|
                0 <= q < r && (!info.needs_artefact || have.contains(step.backend)) && step
                    == #[trigger] step_of(index, info, profile, step.backend, q);
            if q < r - 1 {
                assert(0 <= q < r - 1 && step == step_of(index, info, profile, step.backend, q));
                assert(before.contains(step));
                let k = choose|k: int| 0 <= k < before.len() && before[k] == step;
                assert(all[k] == step);
            } else {
                let k: int = if order[0] == step.backend {
                    0
                } else if can_run(info, have, order[0]) {
                    1
                } else {
                    0
                };
                assert(last[k] == step);
                assert(all[before.len() + k] == step);
            }
        }
    }
}

/// A cell has a step for a scenario on a backend in a round exactly where the scenario
/// takes that round and can run there: it needs no artefact, or the backend has one.
pub proof fn law_every_scenario_runs_where_it_can(
    infos: Seq<InfoModel>,
    profile: Profile,
    have: Seq<Backend>,
    n: int,
    index: int,
    backend: Backend,
    round: int,
)
    requires
        0 <= n <= infos.len() <= usize::MAX,
        0 <= index < n,
        0 <= round <= u32::MAX,
        rounds_of(infos[index], profile) <= u32::MAX,
    ensures
        (exists|k: int|
            0 <= k < cell_steps_of(infos, profile, have, n).len() && (#[trigger] cell_steps_of(
                infos,
                profile,
                have,
                n,
            )[k]).scenario == index && cell_steps_of(infos, profile, have, n)[k].backend == backend
                && cell_steps_of(infos, profile, have, n)[k].round == round) <==> (
        !infos[index].needs_artefact || have.contains(backend)) && round < (match infos[index].isolation {
            Isolation::ProcessPerScenario => 1int,
            Isolation::ProcessPerRep => reps_of(infos[index].rep_kind, profile) as int,
        }),
    decreases n,
{
    let all = cell_steps_of(infos, profile, have, n);
    let before = cell_steps_of(infos, profile, have, n - 1);
    let info = infos[n - 1];
    let last = scenario_steps(n - 1, info, profile, have);
    let r = rounds_of(info, profile) as int;
    if exists|k: int| 0 <= k < all.len() && (#[trigger] all[k]).scenario == index && all[k].backend
        == backend && all[k].round == round {
        let k = choose|k: int|
            0 <= k < all.len() && (#[trigger] all[k]).scenario == index && all[k].backend == backend
                && all[k].round == round;
        if k < before.len() {
            assert(before[k] == all[k]);
            lemma_earlier(infos, profile, have, n - 1, k);
            assert(index < n - 1);
            law_every_scenario_runs_where_it_can(infos, profile, have, n - 1, index, backend, round);
        } else {
            let step = last[k - before.len()];
            assert(step == all[k]);
            assert(last.contains(step));
            lemma_rounds_hold(n - 1, info, profile, have, r, step);
        }
    }
    if (!infos[index].needs_artefact || have.contains(backend)) && round < (match infos[index].isolation {
        Isolation::ProcessPerScenario => 1int,
        Isolation::ProcessPerRep => reps_of(infos[index].rep_kind, profile) as int,
    }) {
        if index < n - 1 {
            law_every_scenario_runs_where_it_can(infos, profile, have, n - 1, index, backend, round);
            let k = choose|k: int|
                0 <= k < before.len() && (#[trigger] before[k]).scenario == index
                    && before[k].backend == backend && before[k].round == round;
            assert(all[k] == before[k]);
        } else {
            let step = step_of(n - 1, info, profile, backend, round);
            assert(round < r);
            lemma_rounds_hold(n - 1, info, profile, have, r, step);
            assert(step == step_of(n - 1, info, profile, step.backend, round));
            assert(last.contains(step));
            let k = choose|k: int| 0 <= k < last.len() && last[k] == step;
            assert(all[before.len() + k] == step);
        }
    }
}

/// The steps of earlier scenarios are of earlier scenarios.
proof fn lemma_earlier(
    infos: Seq<InfoModel>,
    profile: Profile,
    have: Seq<Backend>,
    n: int,
    k: int,
)
    requires
        0 <= n <= infos.len() <= usize::MAX,
        0 <= k < cell_steps_of(infos, profile, have, n).len(),
    ensures
        cell_steps_of(infos, profile, have, n)[k].scenario < n,
    decreases n,
{
    let before = cell_steps_of(infos, profile, have, n - 1);
    if k < before.len() {
        lemma_earlier(infos, profile, have, n - 1, k);
    } else {
        let info = infos[n - 1];
        let last = scenario_steps(n - 1, info, profile, have);
        let step = last[k - before.len()];
        assert(last.contains(step));
        lemma_rounds_hold(n - 1, info, profile, have, rounds_of(info, profile) as int, step);
    }
}

/// A profile walks exactly the scenarios of the registry that it names, in the
/// registry's order.
pub proof fn law_named_scenarios_are_walked(
    infos: Seq<InfoModel>,
    names: Seq<Seq<char>>,
    n: int,
    info: InfoModel,
)
    requires
        0 <= n <= infos.len(),
    ensures
        walked_of(infos, names, n).contains(info) <==> names.contains(info.name) && exists|i: int|
            0 <= i < n && #[trigger] infos[i] == info,
    decreases n,
{
    if n > 0 {
        law_named_scenarios_are_walked(infos, names, n - 1, info);
        let before = walked_of(infos, names, n - 1);
        let all = walked_of(infos, names, n);
        if before.contains(info) {
            let k = choose|k: int| 0 <= k < before.len() && before[k] == info;
            assert(all[k] == info);
            let i = choose|i: int| 0 <= i < n - 1 && #[trigger] infos[i] == info;
            assert(0 <= i < n && infos[i] == info);
        }
        if all.contains(info) {
            let k = choose|k: int| 0 <= k < all.len() && all[k] == info;
            if k < before.len() {
                assert(before[k] == info);
            } else {
                assert(infos[n - 1] == info);
            }
        }
        if names.contains(infos[n - 1].name) && infos[n - 1] == info {
            assert(all[all.len() - 1] == info);
        }
        if exists|i: int| 0 <= i < n && #[trigger] infos[i] == info {
            let i = choose|i: int| 0 <= i < n && #[trigger] infos[i] == info;
            if i < n - 1 {
                assert(0 <= i < n - 1 && infos[i] == info);
            }
        }
    }
}

/// What is said of a row's artefact is the first verdict on its backend: that it is
/// attested or that it is not, and nothing where there is none.
pub proof fn law_verdict_is_that_of_the_backend(
    verdicts: Seq<(Backend, Attestation)>,
    backend: Backend,
    i: int,
    k: int,
)
    requires
        0 <= i <= k < verdicts.len(),
        verdicts[k].0 == backend,
        forall|j: int| i <= j < k ==> (#[trigger] verdicts[j]).0 != backend,
    ensures
        attested_as(verdicts, backend, i) == Some(verdicts[k].1 is Attested),
    decreases k - i,
{
    if i < k {
        assert(verdicts[i].0 != backend);
        law_verdict_is_that_of_the_backend(verdicts, backend, i + 1, k);
    }
}

/// Without a verdict on a backend nothing is said.
pub proof fn law_without_a_verdict_nothing_is_said(
    verdicts: Seq<(Backend, Attestation)>,
    backend: Backend,
    i: int,
)
    requires
        0 <= i,
        forall|j: int| i <= j < verdicts.len() ==> (#[trigger] verdicts[j]).0 != backend,
    ensures
        attested_as(verdicts, backend, i) is None,
    decreases verdicts.len() - i,
{
    if i < verdicts.len() {
        assert(verdicts[i].0 != backend);
        law_without_a_verdict_nothing_is_said(verdicts, backend, i + 1);
    }
}

/// A run is dirty exactly where it or its library says so.
pub proof fn law_run_is_dirty_iff_it_says_so(provenance: Json)
    ensures
        says_dirty(provenance) <==> value_at(provenance, "dirty"@) == Some(Json::Bool(true))
            || value_at(provenance, "library.dirty"@) == Some(Json::Bool(true)),
{
}

/// The task of a child stands behind the first flag that says it has one.
pub proof fn law_task_stands_behind_its_flag(argv: Seq<Seq<char>>, i: int, k: int)
    requires
        0 <= i <= k <= argv.len(),
        k < argv.len() ==> argv[k] == "--storage-single"@,
        forall|j: int| i <= j < k ==> (#[trigger] argv[j]) != "--storage-single"@,
    ensures
        flag_place(argv, i) == k,
    decreases k - i,
{
    if i < k {
        assert(argv[i] != "--storage-single"@);
        law_task_stands_behind_its_flag(argv, i + 1, k);
    }
}

/// A scenario whose repetitions each have a process starts one for each, of one
/// repetition; another starts one process for all of them.
pub proof fn law_child_is_asked_for_its_repetitions(
    index: int,
    info: InfoModel,
    profile: Profile,
    backend: Backend,
    round: int,
)
    requires
        0 <= index <= usize::MAX,
        0 <= round <= u32::MAX,
    ensures
        ({
            let step = step_of(index, info, profile, backend, round);
            let reps: int = match info.rep_kind {
                RepKind::Once => 1,
                RepKind::Generate => if profile == Profile::Ci {
                    3
                } else {
                    7
                },
                RepKind::Read => if profile == Profile::Ci {
                    3
                } else {
                    20
                },
            };
            &&& step.scenario == index && step.backend == backend && step.round == round
            &&& info.isolation == Isolation::ProcessPerRep ==> step.rounds == reps && step.reps == 1
            &&& info.isolation == Isolation::ProcessPerScenario ==> step.rounds == 1 && step.reps
                == reps
        }),
{
}

} // verus!
