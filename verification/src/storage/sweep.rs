//! What a sweep walks and what it decides on the way.

use crate::storage::archive::{bool_of, flag_at, run_id, run_id_of, value_at};
use crate::storage::attest::{
    attest, attest_reasons, law_attested_iff_observed, verdict_reasons, ArchiveModel, Attestation,
    EquivalenceSample, ObservedArchive, RootEntry, MIN_EQUIVALENCE_SAMPLE,
};
use crate::storage::brink::ROOT_ONLY_MAX_ENTRIES;
use crate::storage::cells::{
    backend_name, cell_text, cell_tiles, declared, law_cell_reads_back, parsed_cell, scenarios_of,
    Backend, Cell, Profile, Regime, SEED,
};
use crate::storage::document::{
    entry_models, generate_reps, read_reps, same_head, table_of, CellReport, Document, DocumentCell,
    InvariantBlock, MachineLoad,
};
use crate::storage::json::{Json, RawJson};
use crate::storage::plan::{
    coords_of, has_plan, planned_count, LevelPlan, PyramidPlan, TileCoord,
};
use crate::storage::scenarios;
use crate::storage::scenarios::facts::{
    agreed, agreed_digest, agreed_fact, digest_in, direction_of, disagreements_of, fact_of,
    info_models, parse_direction, parse_unit, unit_of, Direction, Fact, InfoModel, Isolation,
    RepKind, ScenarioInfo, Unit,
};
use crate::storage::scenarios::plan_order::first_coords;
use crate::storage::scenarios::reference::{coordinate_sets, generate_model};
use crate::storage::scenarios::{more_models, read_model};
use crate::storage::splitmix::{law_shuffle_keeps_items, shuffled};
use crate::storage::wire::{
    law_merge_keeps_what_went_wrong, merge, merged, row_outcome_of, row_reason_of, row_verdict,
    text_view, RunModel, SeriesModel, WireRun,
};
use crate::text::{
    concat2, debug_str, debug_str_text, decimal, decimal_text, lists, same_text, strings,
};
use crate::words::{bounded_value, lemma_decimal_reads_back};
use vstd::prelude::*;

pub use crate::storage::artefacts::DOCUMENT_NAME;

verus! {

/// The flag a parent uses to re-invoke itself as one scenario.
pub const SINGLE_FLAG: &'static str = "--storage-single";

/// What every scenario declares, in the order that a sweep walks them.
pub open spec fn registry_models() -> Seq<InfoModel> {
    seq![generate_model(), read_model("read_plan_order"@), read_model("read_random"@)]
        + more_models()
}

/// Every scenario a sweep can walk, in order. Which of them a given sweep walks
/// is the profile's to say.
pub fn registry() -> (out: Vec<ScenarioInfo>)
    ensures
        info_models(out@) == registry_models(),
{
    let mut out: Vec<ScenarioInfo> = scenarios::reference::all();
    let mut more: Vec<ScenarioInfo> = scenarios::all();
    let ghost first = info_models(out@);
    let ghost second = info_models(more@);
    let ghost (a, b) = (out@, more@);
    out.append(&mut more);
    assert(info_models(out@) =~= first + second);
    out
}

/// The index of the first scenario of a name from `i` on, or their number.
pub open spec fn named_index(infos: Seq<InfoModel>, name: Seq<char>, i: int) -> int
    decreases infos.len() - i,
{
    if 0 <= i < infos.len() && infos[i].name != name {
        named_index(infos, name, i + 1)
    } else {
        i
    }
}

/// Look a scenario up by the name it publishes.
pub fn scenario_named(name: &str) -> (got: Option<ScenarioInfo>)
    ensures
        ({
            let i = named_index(registry_models(), name@, 0);
            &&& got is Some <==> i < registry_models().len()
            &&& got is Some ==> got->0@ == registry_models()[i]
        }),
{
    let mut all: Vec<ScenarioInfo> = registry();
    let ghost models = registry_models();
    let mut i: usize = 0;
    while i < all.len()
        invariant
            i <= all@.len(),
            info_models(all@) == models,
            models == registry_models(),
            named_index(models, name@, 0) == named_index(models, name@, i as int),
        decreases all@.len() - i,
    {
        assert(all@[i as int]@ == models[i as int]);
        if same_text(all[i].name.as_str(), name) {
            return Some(all.swap_remove(i));
        }
        i = i + 1;
    }
    assert(info_models(all@).len() == all@.len());
    None
}

/// How many repetitions a kind takes on a profile.
pub open spec fn reps_of(kind: RepKind, profile: Profile) -> nat {
    match kind {
        RepKind::Generate => if profile == Profile::Ci {
            3
        } else {
            7
        },
        RepKind::Read => if profile == Profile::Ci {
            3
        } else {
            20
        },
        RepKind::Once => 1,
    }
}

impl ScenarioInfo {
    /// How many repetitions the scenario takes on a profile.
    pub fn reps(&self, profile: Profile) -> (n: u32)
        ensures
            n == reps_of(self@.rep_kind, profile),
    {
        match self.rep_kind {
            RepKind::Generate => generate_reps(profile),
            RepKind::Read => read_reps(profile),
            RepKind::Once => 1,
        }
    }
}

impl ScenarioInfo {
    /// How many rounds the scenario takes on a profile.
    pub fn rounds(&self, profile: Profile) -> (n: u32)
        ensures
            n == rounds_of(self@, profile),
    {
        match self.isolation {
            Isolation::ProcessPerScenario => 1,
            Isolation::ProcessPerRep => {
                let reps: u32 = self.reps(profile);
                if reps == 0 {
                    1
                } else {
                    reps
                }
            },
        }
    }
}

/// The backends in the order that the scenario `index` of a cell walks them:
/// which one leads alternates.
pub open spec fn leading_order(index: int) -> Seq<Backend> {
    if index % 2 == 0 {
        seq![Backend::PmTiles, Backend::Directory]
    } else {
        seq![Backend::Directory, Backend::PmTiles]
    }
}

/// The backends in the order that the scenario `index` of a cell walks them.
pub fn backend_order(index: usize) -> (out: Vec<Backend>)
    ensures
        out@ == leading_order(index as int),
{
    if index % 2 == 0 {
        vec![Backend::PmTiles, Backend::Directory]
    } else {
        vec![Backend::Directory, Backend::PmTiles]
    }
}

/// One child: a scenario on a backend, in one of the rounds that the scenario
/// takes.
#[derive(Debug, Clone, Copy, PartialEq, Eq, Structural)]
pub struct Step {
    /// Which of the scenarios that the sweep walks.
    pub scenario: usize,
    pub backend: Backend,
    /// Which round, of how many. The last one of a backend closes its run.
    pub round: u32,
    pub rounds: u32,
    /// How many repetitions the child takes.
    pub reps: u32,
}

/// How many rounds a scenario takes: one for each repetition where each has a
/// process of its own, else one for all of them.
pub open spec fn rounds_of(info: InfoModel, profile: Profile) -> nat {
    match info.isolation {
        Isolation::ProcessPerScenario => 1,
        Isolation::ProcessPerRep => if reps_of(info.rep_kind, profile) == 0 {
            1
        } else {
            reps_of(info.rep_kind, profile)
        },
    }
}

/// The step of a scenario on a backend in a round.
pub open spec fn step_of(
    index: int,
    info: InfoModel,
    profile: Profile,
    backend: Backend,
    round: int,
) -> Step {
    Step {
        scenario: index as usize,
        backend,
        round: round as u32,
        rounds: rounds_of(info, profile) as u32,
        reps: (match info.isolation {
            Isolation::ProcessPerScenario => reps_of(info.rep_kind, profile),
            Isolation::ProcessPerRep => 1,
        }) as u32,
    }
}

/// Whether a scenario can run on a backend: it needs no artefact, or there is
/// one.
pub open spec fn can_run(info: InfoModel, have: Seq<Backend>, backend: Backend) -> bool {
    !info.needs_artefact || have.contains(backend)
}

/// The steps of one round: the backends in turn, where the scenario can run
/// there.
pub open spec fn round_steps(
    index: int,
    info: InfoModel,
    profile: Profile,
    have: Seq<Backend>,
    round: int,
) -> Seq<Step> {
    let order = leading_order(index);
    (if can_run(info, have, order[0]) {
        seq![step_of(index, info, profile, order[0], round)]
    } else {
        Seq::empty()
    }) + (if can_run(info, have, order[1]) {
        seq![step_of(index, info, profile, order[1], round)]
    } else {
        Seq::empty()
    })
}

/// The steps of the first `r` rounds of a scenario.
pub open spec fn rounds_steps(
    index: int,
    info: InfoModel,
    profile: Profile,
    have: Seq<Backend>,
    r: int,
) -> Seq<Step>
    decreases r,
{
    if r <= 0 {
        Seq::empty()
    } else {
        rounds_steps(index, info, profile, have, r - 1) + round_steps(
            index,
            info,
            profile,
            have,
            r - 1,
        )
    }
}

/// The steps of one scenario.
pub open spec fn scenario_steps(
    index: int,
    info: InfoModel,
    profile: Profile,
    have: Seq<Backend>,
) -> Seq<Step> {
    rounds_steps(index, info, profile, have, rounds_of(info, profile) as int)
}

/// The steps of the first `n` scenarios of a cell.
pub open spec fn cell_steps_of(
    infos: Seq<InfoModel>,
    profile: Profile,
    have: Seq<Backend>,
    n: int,
) -> Seq<Step>
    decreases n,
{
    if n <= 0 {
        Seq::empty()
    } else {
        cell_steps_of(infos, profile, have, n - 1) + scenario_steps(
            n - 1,
            infos[n - 1],
            profile,
            have,
        )
    }
}

/// Whether a backend is in a list.
fn has_backend(have: &Vec<Backend>, backend: Backend) -> (yes: bool)
    ensures
        yes == have@.contains(backend),
{
    let mut i: usize = 0;
    while i < have.len()
        invariant
            i <= have@.len(),
            forall|k: int| 0 <= k < i ==> #[trigger] have@[k] != backend,
        decreases have@.len() - i,
    {
        if have[i] == backend {
            assert(have@[i as int] == backend);
            return true;
        }
        i = i + 1;
    }
    false
}

/// The step of a scenario on a backend in a round, where it can run there.
fn push_step(
    index: usize,
    info: &ScenarioInfo,
    profile: Profile,
    have: &Vec<Backend>,
    backend: Backend,
    round: u32,
    out: &mut Vec<Step>,
)
    ensures
        final(out)@ == old(out)@ + (if can_run(info@, have@, backend) {
            seq![step_of(index as int, info@, profile, backend, round as int)]
        } else {
            Seq::empty()
        }),
{
    let ghost before = out@;
    if !info.needs_artefact || has_backend(have, backend) {
        let reps: u32 = match info.isolation {
            Isolation::ProcessPerScenario => info.reps(profile),
            Isolation::ProcessPerRep => 1,
        };
        let rounds: u32 = info.rounds(profile);
        out.push(Step { scenario: index, backend, round, rounds, reps });
        assert(out@ =~= before + seq![step_of(index as int, info@, profile, backend, round as int)]);
    } else {
        assert(out@ =~= before + Seq::<Step>::empty());
    }
}

/// The steps of one scenario, behind the others.
fn push_scenario(
    index: usize,
    info: &ScenarioInfo,
    profile: Profile,
    have: &Vec<Backend>,
    out: &mut Vec<Step>,
)
    ensures
        final(out)@ == old(out)@ + scenario_steps(index as int, info@, profile, have@),
{
    let ghost before = out@;
    let order: Vec<Backend> = backend_order(index);
    let rounds: u32 = info.rounds(profile);
    let mut r: u32 = 0;
    assert(out@ =~= before + rounds_steps(index as int, info@, profile, have@, 0));
    while r < rounds
        invariant
            r <= rounds,
            rounds == rounds_of(info@, profile),
            order@ == leading_order(index as int),
            before == old(out)@,
            out@ == before + rounds_steps(index as int, info@, profile, have@, r as int),
        decreases rounds - r,
    {
        let ghost was = out@;
        push_step(index, info, profile, have, order[0], r, out);
        push_step(index, info, profile, have, order[1], r, out);
        assert(out@ =~= was + round_steps(index as int, info@, profile, have@, r as int));
        assert(out@ =~= before + rounds_steps(index as int, info@, profile, have@, r + 1));
        r = r + 1;
    }
}

/// What a sweep does with one cell, given the backends whose artefacts were
/// written: every scenario on both backends, where it can run there.
pub fn cell_steps(
    walked: &Vec<ScenarioInfo>,
    profile: Profile,
    have: &Vec<Backend>,
) -> (out: Vec<Step>)
    ensures
        out@ == cell_steps_of(info_models(walked@), profile, have@, walked@.len() as int),
{
    let ghost models = info_models(walked@);
    let mut out: Vec<Step> = Vec::new();
    let mut i: usize = 0;
    while i < walked.len()
        invariant
            i <= walked@.len(),
            models == info_models(walked@),
            out@ == cell_steps_of(models, profile, have@, i as int),
        decreases walked@.len() - i,
    {
        assert(models[i as int] == walked@[i as int]@);
        push_scenario(i, &walked[i], profile, have, &mut out);
        i = i + 1;
    }
    out
}

/// With both artefacts written, every child is followed by one on the other
/// backend: the backends alternate within a scenario, repetition by repetition
/// where each has a process of its own, and which of them leads alternates from
/// one scenario to the next.
pub proof fn law_backends_alternate(index: int, info: InfoModel, profile: Profile, r: int, j: int)
    requires
        0 <= r <= rounds_of(info, profile),
        0 <= index,
    ensures
        ({
            let have = seq![Backend::PmTiles, Backend::Directory];
            let steps = rounds_steps(index, info, profile, have, r);
            &&& steps.len() == 2 * r
            &&& 0 <= j < steps.len() ==> steps[j] == step_of(
                index,
                info,
                profile,
                leading_order(index)[j % 2],
                j / 2,
            )
            &&& 0 < j < steps.len() ==> steps[j].backend != steps[j - 1].backend
        }),
        info.isolation == Isolation::ProcessPerRep ==> rounds_of(info, profile) >= reps_of(
            info.rep_kind,
            profile,
        ),
        leading_order(index)[0] != leading_order(index + 1)[0],
    decreases r,
{
    let have = seq![Backend::PmTiles, Backend::Directory];
    assert(have[0] == Backend::PmTiles && have[1] == Backend::Directory);
    assert(have.contains(Backend::PmTiles) && have.contains(Backend::Directory));
    if r > 0 {
        law_backends_alternate(index, info, profile, r - 1, j);
        law_backends_alternate(index, info, profile, r - 1, j - 1);
        let before = rounds_steps(index, info, profile, have, r - 1);
        let last = round_steps(index, info, profile, have, r - 1);
        let steps = rounds_steps(index, info, profile, have, r);
        assert(last.len() == 2);
        assert(before.len() == 2 * (r - 1));
        if 0 <= j < steps.len() {
            if j >= before.len() {
                assert(steps[j] == last[j - before.len()]);
            }
            if j > 0 && j - 1 >= before.len() {
                assert(steps[j - 1] == last[j - 1 - before.len()]);
            }
        }
    }
}

/// The scenarios of a registry whose name is in a list, in the registry's order.
pub open spec fn walked_of(infos: Seq<InfoModel>, names: Seq<Seq<char>>, n: int) -> Seq<InfoModel>
    decreases n,
{
    if n <= 0 {
        Seq::empty()
    } else if names.contains(infos[n - 1].name) {
        walked_of(infos, names, n - 1).push(infos[n - 1])
    } else {
        walked_of(infos, names, n - 1)
    }
}

/// The scenarios that a profile walks, in the registry's order.
pub fn walked(profile: Profile) -> (out: Vec<ScenarioInfo>)
    ensures
        info_models(out@) == walked_of(
            registry_models(),
            scenarios_of(profile),
            registry_models().len() as int,
        ),
{
    let names: Vec<String> = profile.scenario_names();
    let all: Vec<ScenarioInfo> = registry();
    let ghost models = registry_models();
    let ghost wanted = scenarios_of(profile);
    let mut out: Vec<ScenarioInfo> = Vec::new();
    let ghost mut n: int = 0;
    assert(info_models(out@) =~= walked_of(models, wanted, 0));
    for info in it: all
        invariant
            info_models(it.seq()) == models,
            models == registry_models(),
            wanted == scenarios_of(profile),
            strings(names@) == wanted,
            n == it.index(),
            info_models(out@) == walked_of(models, wanted, n),
    {
        let ghost before = out@;
        assert(it.seq()[n]@ == models[n]);
        if lists(&names, info.name.as_str()) {
            out.push(info);
            assert(info_models(out@) =~= info_models(before).push(models[n]));
        }
        proof {
            n = n + 1;
        }
    }
    assert(info_models(all@).len() == all@.len());
    out
}

/// The children of one scenario, folded into one run: those that produced one,
/// in their order.
pub open spec fn folded(children: Seq<Option<RunModel>>, n: int) -> Option<RunModel>
    decreases n,
{
    if n <= 0 {
        None
    } else {
        match (folded(children, n - 1), children[n - 1]) {
            (None, one) => one,
            (Some(acc), None) => Some(acc),
            (Some(acc), Some(one)) => Some(merged(acc, one)),
        }
    }
}

/// The children of a scenario make a run exactly where one of them does, and the
/// run says `ok` exactly where every child that made one said so. Otherwise it says
/// what the last of those said that did not, and that child's reason. No repetition
/// is lost.
pub proof fn law_one_bad_child_spoils_the_run(children: Seq<Option<RunModel>>, n: int)
    requires
        0 <= n <= children.len(),
    ensures
        folded(children, n) is Some <==> exists|i: int|
            0 <= i < n && (#[trigger] children[i]) is Some,
        folded(children, n) is Some ==> (folded(children, n)->0.outcome == "ok"@ <==> forall|i: int|
            0 <= i < n && (#[trigger] children[i]) is Some ==> children[i]->0.outcome == "ok"@),
        forall|i: int|
            0 <= i < n && (#[trigger] children[i]) is Some && children[i]->0.outcome != "ok"@ && (
            forall|k: int|
                i < k < n && (#[trigger] children[k]) is Some ==> children[k]->0.outcome == "ok"@)
                ==> folded(children, n)->0.outcome == children[i]->0.outcome,
        n > 0 && children[n - 1] is Some && children[n - 1]->0.outcome != "ok"@ ==> folded(
            children,
            n,
        )->0.reason == children[n - 1]->0.reason,
        forall|i: int|
            0 <= i < n && (#[trigger] children[i]) is Some ==> children[i]->0.reps.len() <= folded(
                children,
                n,
            )->0.reps.len(),
        forall|i: int, k: int|
            0 <= i < n && (#[trigger] children[i]) is Some && 0 <= k < children[i]->0.reps.len()
                ==> folded(children, n)->0.reps.contains(#[trigger] children[i]->0.reps[k]),
    decreases n,
{
    if n > 0 {
        law_one_bad_child_spoils_the_run(children, n - 1);
        let last = children[n - 1];
        let before = folded(children, n - 1);
        let now = folded(children, n);
        if before is Some && last is Some {
            law_merge_keeps_what_went_wrong(before->0, last->0);
        }
        assert forall|i: int, k: int|
            0 <= i < n && (#[trigger] children[i]) is Some && 0 <= k < children[i]->0.reps.len()
            implies now->0.reps.contains(#[trigger] children[i]->0.reps[k]) by {
            let rep = children[i]->0.reps[k];
            if i < n - 1 {
                assert(before is Some);
                assert(before->0.reps.contains(rep));
                let m = choose|m: int| 0 <= m < before->0.reps.len() && before->0.reps[m] == rep;
                assert(now->0.reps[m] == rep);
            } else if before is Some {
                assert(now->0.reps[before->0.reps.len() + k] == rep);
            }
        }
        if last is Some {
            assert(children[n - 1] is Some);
        }
    }
}

/// A run that may be there.
pub open spec fn run_view(r: Option<WireRun>) -> Option<RunModel> {
    match r {
        Some(w) => Some(w@),
        None => None,
    }
}

/// Fold the children of one scenario into one run. `Err` where no child produced
/// one.
pub fn fold_children(children: Vec<Option<WireRun>>) -> (got: Result<WireRun, String>)
    ensures
        ({
            let all = Seq::new(children@.len(), |i: int| run_view(children@[i]));
            let run = folded(all, all.len() as int);
            &&& got is Ok <==> run is Some
            &&& got is Ok ==> got->Ok_0@ == run->0
            &&& got is Err ==> got->Err_0@ == "no repetition produced a sample"@
        }),
        got is Ok <==> exists|i: int| 0 <= i < children@.len() && (#[trigger] children@[i]) is Some,
        got is Ok ==> (got->Ok_0.outcome@ == "ok"@ <==> forall|i: int|
            0 <= i < children@.len() && (#[trigger] children@[i]) is Some
                ==> children@[i]->0.outcome@ == "ok"@),
{
    let ghost all = Seq::new(children@.len(), |i: int| run_view(children@[i]));
    proof {
        law_one_bad_child_spoils_the_run(all, all.len() as int);
        assert forall|i: int| 0 <= i < children@.len() implies (#[trigger] children@[i]) is Some
            <==> all[i] is Some by {}
        if exists|i: int| 0 <= i < all.len() && (#[trigger] all[i]) is Some {
            let i = choose|i: int| 0 <= i < all.len() && (#[trigger] all[i]) is Some;
            assert(children@[i] is Some);
        }
        if exists|i: int| 0 <= i < children@.len() && (#[trigger] children@[i]) is Some {
            let i = choose|i: int| 0 <= i < children@.len() && (#[trigger] children@[i]) is Some;
            assert(all[i] is Some);
        }
        if forall|i: int|
            0 <= i < children@.len() && (#[trigger] children@[i]) is Some
                ==> children@[i]->0.outcome@ == "ok"@ {
            assert forall|i: int| 0 <= i < all.len() && (#[trigger] all[i]) is Some implies all[i]->0.outcome
                == "ok"@ by {
                assert(children@[i] is Some);
            }
        }
        if forall|i: int|
            0 <= i < all.len() && (#[trigger] all[i]) is Some ==> all[i]->0.outcome == "ok"@ {
            assert forall|i: int|
                0 <= i < children@.len() && (#[trigger] children@[i]) is Some implies
                children@[i]->0.outcome@ == "ok"@ by {
                assert(all[i] is Some);
            }
        }
    }
    let mut acc: Option<WireRun> = None;
    let ghost mut n: int = 0;
    for child in it: children
        invariant
            it.seq().len() == all.len(),
            forall|k: int| 0 <= k < all.len() ==> all[k] == run_view(#[trigger] it.seq()[k]),
            n == it.index(),
            run_view(acc) == folded(all, n),
    {
        assert(all[n] == run_view(it.seq()[n]));
        match child {
            Some(one) => {
                acc = Some(merge(acc, one));
            },
            None => {},
        }
        proof {
            n = n + 1;
        }
    }
    match acc {
        Some(run) => Ok(run),
        None => Err("no repetition produced a sample".to_owned()),
    }
}

/// The regime a cell is expected to come out as: the writer spills into leaves
/// from the cutoff on.
pub open spec fn predicted(tiles: nat) -> Regime {
    if tiles < ROOT_ONLY_MAX_ENTRIES {
        Regime::Root
    } else {
        Regime::Leaves
    }
}

/// The tiles that a cell plans, none where it plans no pyramid.
pub open spec fn tiles_or_none(cell: Cell) -> nat {
    match cell_tiles(cell) {
        Some(n) => n,
        None => 0,
    }
}

/// The root entries of an archive, from how many there are and how many of them
/// point at a leaf.
pub open spec fn classified(root_entries: u64, leaves: u64) -> Seq<RootEntry> {
    Seq::new(
        root_entries as nat,
        |i: int|
            if i < leaves {
                RootEntry::LeafPointer
            } else {
                RootEntry::Tile
            },
    )
}

/// The root entries of an archive.
fn classify(root_entries: u64, leaves: u64) -> (out: Vec<RootEntry>)
    ensures
        out@ == classified(root_entries, leaves),
{
    let mut out: Vec<RootEntry> = Vec::new();
    let mut i: u64 = 0;
    while i < root_entries
        invariant
            i <= root_entries,
            out@.len() == i,
            forall|k: int|
                0 <= k < i ==> #[trigger] out@[k] == (if k < leaves {
                    RootEntry::LeafPointer
                } else {
                    RootEntry::Tile
                }),
        decreases root_entries - i,
    {
        if i < leaves {
            out.push(RootEntry::LeafPointer);
        } else {
            out.push(RootEntry::Tile);
        }
        i = i + 1;
    }
    assert(out@ =~= classified(root_entries, leaves));
    out
}

/// What is observed of an artefact: of an archive the shape that it was opened
/// with, or nothing where it did not open. A tree has no root directory of that
/// kind, so its shape agrees with the prediction and its bytes alone decide.
pub open spec fn observed(backend: Backend, shape: Option<(u64, u64)>, tiles: nat) -> ArchiveModel {
    match (backend, shape) {
        (Backend::PmTiles, Some((root_entries, leaves))) => ArchiveModel {
            backend: backend_name(backend),
            root_entries: classified(root_entries, leaves),
            leaf_directories: leaves,
            tiles: tiles as u64,
        },
        (Backend::PmTiles, None) => ArchiveModel {
            backend: backend_name(backend),
            root_entries: Seq::empty(),
            leaf_directories: 0,
            tiles: 0,
        },
        (Backend::Directory, _) => match predicted(tiles) {
            Regime::Root => ArchiveModel {
                backend: backend_name(backend),
                root_entries: seq![RootEntry::Tile],
                leaf_directories: 0,
                tiles: tiles as u64,
            },
            Regime::Leaves => ArchiveModel {
                backend: backend_name(backend),
                root_entries: seq![RootEntry::LeafPointer],
                leaf_directories: 1,
                tiles: tiles as u64,
            },
        },
    }
}

/// What was observed of an artefact, from the shape that its archive was opened
/// with.
pub fn observe_artefact(cell: &Cell, backend: Backend, shape: Option<(u64, u64)>) -> (got:
    ObservedArchive)
    ensures
        got@ == observed(backend, shape, tiles_or_none(*cell)),
{
    let tiles: u64 = match cell.planned_tiles() {
        Some(n) => n as u64,
        None => 0,
    };
    let name: String = backend.as_str().to_owned();
    match backend {
        Backend::PmTiles => match shape {
            Some((root_entries, leaves)) => ObservedArchive {
                backend: name,
                root_entries: classify(root_entries, leaves),
                leaf_directories: leaves,
                tiles,
            },
            None => ObservedArchive {
                backend: name,
                root_entries: Vec::new(),
                leaf_directories: 0,
                tiles: 0,
            },
        },
        Backend::Directory => if tiles < ROOT_ONLY_MAX_ENTRIES {
            let root_entries: Vec<RootEntry> = vec![RootEntry::Tile];
            assert(root_entries@ =~= seq![RootEntry::Tile]);
            ObservedArchive {
                backend: name,
                root_entries,
                leaf_directories: 0,
                tiles,
            }
        } else {
            let root_entries: Vec<RootEntry> = vec![RootEntry::LeafPointer];
            assert(root_entries@ =~= seq![RootEntry::LeafPointer]);
            ObservedArchive {
                backend: name,
                root_entries,
                leaf_directories: 1,
                tiles,
            }
        },
    }
}

/// Whether a verdict is the one on an artefact of a cell, against the regime
/// that the cell's plan predicts.
pub open spec fn is_verdict(
    verdict: Attestation,
    cell: Cell,
    backend: Backend,
    shape: Option<(u64, u64)>,
    e: EquivalenceSample,
) -> bool {
    let tiles = tiles_or_none(cell);
    let reasons = attest_reasons(predicted(tiles), observed(backend, shape, tiles), e);
    &&& verdict is Attested <==> reasons.len() == 0
    &&& verdict is Attested ==> verdict == (Attestation::Attested {
        observed_regime: predicted(tiles),
        equivalence: e,
    })
    &&& verdict_reasons(verdict) == reasons
}

/// An archive is attested exactly where it opened, its root directory has entries,
/// some of them point at leaves exactly where the cell plans as many tiles as the
/// writer spills at, and at least 64 coordinates were compared and all agreed. Of a
/// tree the bytes alone decide. What is refused has a reason.
pub proof fn law_archive_is_attested_iff_its_shape_was_predicted(
    verdict: Attestation,
    cell: Cell,
    backend: Backend,
    shape: Option<(u64, u64)>,
    e: EquivalenceSample,
)
    requires
        is_verdict(verdict, cell, backend, shape, e),
    ensures
        verdict is Attested <==> e.sampled >= 64 && e.matched == e.sampled && (backend
            == Backend::PmTiles ==> (shape matches Some((entries, leaves)) && entries > 0 && (leaves
            == 0 <==> tiles_or_none(cell) < 16_384))),
        verdict matches Attestation::Refused { reasons } ==> reasons@.len() > 0,
{
    let tiles = tiles_or_none(cell);
    let seen = observed(backend, shape, tiles);
    law_attested_iff_observed(predicted(tiles), seen, e);
    if let Some((entries, leaves)) = shape {
        let all = classified(entries, leaves);
        if entries > 0 && leaves > 0 {
            assert(all[0] == RootEntry::LeafPointer);
        }
    }
    if backend == Backend::Directory {
        assert(seen.root_entries[0] == RootEntry::Tile || seen.root_entries[0]
            == RootEntry::LeafPointer);
    }
    if verdict is Refused {
        assert(verdict_reasons(verdict).len() > 0);
        assert(strings(verdict->reasons@).len() == verdict->reasons@.len());
    }
}

/// Attest one backend's artefact of a cell against the regime that its plan
/// predicts.
pub fn attest_artefact(
    cell: &Cell,
    backend: Backend,
    shape: Option<(u64, u64)>,
    equivalence: &EquivalenceSample,
) -> (verdict: Attestation)
    requires
        equivalence.matched <= equivalence.sampled,
    ensures
        is_verdict(verdict, *cell, backend, shape, *equivalence),
        verdict is Attested <==> equivalence.sampled >= 64 && equivalence.matched
            == equivalence.sampled && (backend == Backend::PmTiles ==> (shape matches Some(
            (entries, leaves),
        ) && entries > 0 && (leaves == 0 <==> tiles_or_none(*cell) < 16_384))),
        verdict matches Attestation::Refused { reasons } ==> reasons@.len() > 0,
{
    let seen: ObservedArchive = observe_artefact(cell, backend, shape);
    let tiles: u64 = match cell.planned_tiles() {
        Some(n) => n as u64,
        None => 0,
    };
    let expected: Regime = if tiles < ROOT_ONLY_MAX_ENTRIES {
        Regime::Root
    } else {
        Regime::Leaves
    };
    let verdict: Attestation = attest(expected, &seen, equivalence);
    proof {
        law_attested_iff_observed(expected, seen@, *equivalence);
        let reasons = attest_reasons(expected, seen@, *equivalence);
        if reasons.len() == 0 {
            assert(reasons =~= Seq::<Seq<char>>::empty());
        }
        law_archive_is_attested_iff_its_shape_was_predicted(
            verdict,
            *cell,
            backend,
            shape,
            *equivalence,
        );
    }
    verdict
}

/// An artefact that was written: its backend and, of an archive that opened, its
/// root entries and its leaves.
#[derive(Debug, Clone, Copy)]
pub struct WrittenShape {
    pub backend: Backend,
    pub shape: Option<(u64, u64)>,
}

/// Attest every artefact of a cell, in order, against one comparison of their
/// bytes.
pub fn attest_artefacts(
    cell: &Cell,
    artefacts: &Vec<WrittenShape>,
    equivalence: &EquivalenceSample,
) -> (out: Vec<(Backend, Attestation)>)
    requires
        equivalence.matched <= equivalence.sampled,
    ensures
        out@.len() == artefacts@.len(),
        forall|i: int|
            0 <= i < out@.len() ==> (#[trigger] out@[i]).0 == artefacts@[i].backend && is_verdict(
                out@[i].1,
                *cell,
                artefacts@[i].backend,
                artefacts@[i].shape,
                *equivalence,
            ),
{
    let mut out: Vec<(Backend, Attestation)> = Vec::new();
    let mut i: usize = 0;
    while i < artefacts.len()
        invariant
            i <= artefacts@.len(),
            equivalence.matched <= equivalence.sampled,
            out@.len() == i,
            forall|k: int|
                0 <= k < i ==> (#[trigger] out@[k]).0 == artefacts@[k].backend && is_verdict(
                    out@[k].1,
                    *cell,
                    artefacts@[k].backend,
                    artefacts@[k].shape,
                    *equivalence,
                ),
        decreases artefacts@.len() - i,
    {
        let a: WrittenShape = artefacts[i];
        out.push((a.backend, attest_artefact(cell, a.backend, a.shape, equivalence)));
        i = i + 1;
    }
    out
}

/// What a row of a backend is attested as: the first verdict on an artefact of
/// that backend, if there is one.
pub open spec fn attested_as(verdicts: Seq<(Backend, Attestation)>, backend: Backend, i: int) -> Option<
    bool,
>
    decreases verdicts.len() - i,
{
    if 0 <= i < verdicts.len() {
        if verdicts[i].0 == backend {
            Some(verdicts[i].1 is Attested)
        } else {
            attested_as(verdicts, backend, i + 1)
        }
    } else {
        None
    }
}

/// What a row of a backend is attested as.
pub fn verdict_for(verdicts: &Vec<(Backend, Attestation)>, backend: Backend) -> (got: Option<bool>)
    ensures
        got == attested_as(verdicts@, backend, 0),
        got is Some <==> exists|i: int| 0 <= i < verdicts@.len() && (#[trigger] verdicts@[i]).0
            == backend,
        forall|i: int|
            0 <= i < verdicts@.len() && (#[trigger] verdicts@[i]).0 == backend && (forall|k: int|
                0 <= k < i ==> (#[trigger] verdicts@[k]).0 != backend) ==> got == Some(
                verdicts@[i].1 is Attested,
            ),
{
    let mut i: usize = 0;
    while i < verdicts.len()
        invariant
            i <= verdicts@.len(),
            attested_as(verdicts@, backend, 0) == attested_as(verdicts@, backend, i as int),
            forall|k: int| 0 <= k < i ==> (#[trigger] verdicts@[k]).0 != backend,
        decreases verdicts@.len() - i,
    {
        if verdicts[i].0 == backend {
            return Some(verdicts[i].1.is_attested());
        }
        i = i + 1;
    }
    None
}

/// A row that says what its artefact was observed to be.
pub open spec fn stamped(row: DocumentCell, attested: Option<bool>) -> DocumentCell {
    DocumentCell { attested, ..row }
}

/// File the rows of one step: each carries the verdict on the artefact it was
/// read from, never what the cell says of itself.
pub fn file_rows(doc: &mut Document, rows: Vec<DocumentCell>, attested: Option<bool>)
    ensures
        final(doc).cells@ == old(doc).cells@ + Seq::new(
            rows@.len(),
            |i: int| stamped(rows@[i], attested),
        ),
        same_head(*final(doc), *old(doc)),
        final(doc).invariants == old(doc).invariants,
        final(doc).cells@.len() == old(doc).cells@.len() + rows@.len(),
        forall|i: int|
            0 <= i < old(doc).cells@.len() ==> #[trigger] final(doc).cells@[i]
                == old(doc).cells@[i],
        forall|i: int|
            old(doc).cells@.len() <= i < final(doc).cells@.len() ==> (#[trigger] final(doc).cells@[i])
                .attested == attested,
{
    let ghost before = *doc;
    let ghost all = rows@;
    let ghost mut n: int = 0;
    for row in it: rows
        invariant
            it.seq() == all,
            n == it.index(),
            doc.cells@ == before.cells@ + Seq::new(n as nat, |i: int| stamped(all[i], attested)),
            same_head(*doc, before),
            doc.invariants == before.invariants,
            before == *old(doc),
    {
        let ghost filed = doc.cells@;
        let mut row = row;
        row.attested = attested;
        doc.push(row);
        assert(doc.cells@ =~= before.cells@ + Seq::new(
            (n + 1) as nat,
            |i: int| stamped(all[i], attested),
        ));
        proof {
            n = n + 1;
        }
    }
}

/// What the readers of one coordinate gave back, reader by reader; `None` where
/// a read failed.
pub type CoordReads = Option<Vec<Option<Vec<u8>>>>;

/// The bytes of a tile that may be there.
pub open spec fn tile_view(t: Option<Vec<u8>>) -> Option<Seq<u8>> {
    match t {
        Some(bytes) => Some(bytes@),
        None => None,
    }
}

/// Whether a reader and the next gave back the same bytes.
pub open spec fn neighbours_match(got: Seq<Option<Vec<u8>>>, i: int) -> bool {
    tile_view(got[i]) == tile_view(got[i + 1])
}

/// Whether every reader gave back the same bytes.
pub open spec fn reads_match(reads: CoordReads, readers: int) -> bool {
    reads matches Some(got) && got@.len() == readers && forall|i: int|
        0 <= i < got@.len() - 1 ==> #[trigger] neighbours_match(got@, i)
}

/// How many of the first `n` coordinates gave the same bytes from every reader.
pub open spec fn matches_in(reads: Seq<CoordReads>, readers: int, n: int) -> nat
    decreases n,
{
    if n <= 0 {
        0
    } else {
        matches_in(reads, readers, n - 1) + (if reads_match(reads[n - 1], readers) {
            1nat
        } else {
            0
        })
    }
}

/// Whether two byte strings are the same.
fn same_bytes(a: &Vec<u8>, b: &Vec<u8>) -> (same: bool)
    ensures
        same == (a@ == b@),
{
    if a.len() != b.len() {
        return false;
    }
    let mut i: usize = 0;
    while i < a.len()
        invariant
            i <= a@.len(),
            a@.len() == b@.len(),
            forall|k: int| 0 <= k < i ==> #[trigger] a@[k] == b@[k],
        decreases a@.len() - i,
    {
        if a[i] != b[i] {
            return false;
        }
        i = i + 1;
    }
    assert(a@ =~= b@);
    true
}

/// Whether two readers gave back the same bytes, or both none.
fn same_tile(a: &Option<Vec<u8>>, b: &Option<Vec<u8>>) -> (same: bool)
    ensures
        same == (tile_view(*a) == tile_view(*b)),
{
    match (a, b) {
        (Some(x), Some(y)) => same_bytes(x, y),
        (None, None) => true,
        _ => false,
    }
}

/// Whether every reader gave back the same bytes.
fn match_reads(reads: &CoordReads, readers: usize) -> (yes: bool)
    ensures
        yes == reads_match(*reads, readers as int),
{
    match reads {
        None => false,
        Some(got) => {
            if got.len() != readers {
                return false;
            }
            let mut i: usize = 1;
            while i < got.len()
                invariant
                    *reads == Some(*got),
                    got@.len() == readers,
                    1 <= i,
                    i <= got@.len() || i == 1,
                    forall|k: int| 0 <= k < i - 1 ==> #[trigger] neighbours_match(got@, k),
                decreases got@.len() - i,
            {
                if !same_tile(&got[i - 1], &got[i]) {
                    assert(!neighbours_match(got@, i - 1));
                    return false;
                }
                i = i + 1;
            }
            true
        },
    }
}

/// Readers that match their neighbours match one another.
proof fn lemma_readers_match(got: Seq<Option<Vec<u8>>>, i: int, j: int)
    requires
        0 <= i <= j < got.len(),
        forall|k: int| 0 <= k < got.len() - 1 ==> #[trigger] neighbours_match(got, k),
    ensures
        tile_view(got[i]) == tile_view(got[j]),
    decreases j - i,
{
    if i < j {
        lemma_readers_match(got, i, j - 1);
        assert(neighbours_match(got, j - 1));
    }
}

/// A coordinate counts as matched exactly where it was read from every backend
/// and each two of them gave back the same: no tile, or tiles of one length that
/// agree in every byte.
pub proof fn law_matched_coordinate_agrees_in_every_byte(reads: Seq<CoordReads>, readers: int, n: int)
    requires
        0 <= n < reads.len(),
        readers >= 1,
    ensures
        matches_in(reads, readers, 0) == 0,
        matches_in(reads, readers, n + 1) == matches_in(reads, readers, n) + (if {
            &&& reads[n] is Some
            &&& reads[n]->0@.len() == readers
            &&& forall|i: int, j: int|
                0 <= i < readers && 0 <= j < readers ==> (match (
                    #[trigger] reads[n]->0@[i],
                    #[trigger] reads[n]->0@[j],
                ) {
                    (Some(a), Some(b)) => a@.len() == b@.len() && forall|k: int|
                        0 <= k < a@.len() ==> #[trigger] a@[k] == b@[k],
                    (None, None) => true,
                    _ => false,
                })
        } {
            1nat
        } else {
            0
        }),
{
    if let Some(tiles) = reads[n] {
        let got = tiles@;
        if got.len() == readers {
            if reads_match(reads[n], readers) {
                assert forall|i: int, j: int| 0 <= i < readers && 0 <= j < readers implies (match (
                    #[trigger] reads[n]->0@[i],
                    #[trigger] reads[n]->0@[j],
                ) {
                    (Some(a), Some(b)) => a@.len() == b@.len() && forall|k: int|
                        0 <= k < a@.len() ==> #[trigger] a@[k] == b@[k],
                    (None, None) => true,
                    _ => false,
                }) by {
                    if i <= j {
                        lemma_readers_match(got, i, j);
                    } else {
                        lemma_readers_match(got, j, i);
                    }
                }
            } else {
                let k = choose|k: int| 0 <= k < got.len() - 1 && !#[trigger] neighbours_match(got, k);
                let (a, b) = (reads[n]->0@[k], reads[n]->0@[k + 1]);
                if a is Some && b is Some && a->0@.len() == b->0@.len() && (forall|m: int|
                    0 <= m < a->0@.len() ==> #[trigger] a->0@[m] == b->0@[m]) {
                    assert(a->0@ =~= b->0@);
                }
            }
        }
    }
}

/// Every coordinate counts exactly where each of them agrees in every byte.
proof fn lemma_all_match(reads: Seq<CoordReads>, readers: int, n: int)
    requires
        0 <= n <= reads.len(),
        readers >= 1,
    ensures
        matches_in(reads, readers, n) <= n,
        matches_in(reads, readers, n) == n <==> forall|c: int|
            0 <= c < n ==> {
                &&& (#[trigger] reads[c]) is Some
                &&& reads[c]->0@.len() == readers
                &&& forall|i: int, j: int|
                    0 <= i < readers && 0 <= j < readers ==> (match (
                        #[trigger] reads[c]->0@[i],
                        #[trigger] reads[c]->0@[j],
                    ) {
                        (Some(a), Some(b)) => a@.len() == b@.len() && forall|k: int|
                            0 <= k < a@.len() ==> #[trigger] a@[k] == b@[k],
                        (None, None) => true,
                        _ => false,
                    })
            },
    decreases n,
{
    if n > 0 {
        lemma_all_match(reads, readers, n - 1);
        law_matched_coordinate_agrees_in_every_byte(reads, readers, n - 1);
        let last = reads[n - 1];
    }
}

/// Compare what the backends gave back for the sampled coordinates. One backend
/// cannot disagree with itself, so with fewer than two readers nothing was
/// sampled.
pub fn byte_equivalence(readers: usize, reads: &Vec<CoordReads>) -> (sample: EquivalenceSample)
    requires
        reads@.len() <= u32::MAX,
    ensures
        sample.seed == SEED,
        readers < 2 ==> sample.sampled == 0 && sample.matched == 0,
        readers >= 2 ==> sample.sampled == reads@.len() && sample.matched == matches_in(
            reads@,
            readers as int,
            reads@.len() as int,
        ),
        sample.matched <= sample.sampled,
        readers >= 2 ==> (sample.matched == sample.sampled <==> forall|c: int|
            0 <= c < reads@.len() ==> {
                &&& (#[trigger] reads@[c]) is Some
                &&& reads@[c]->0@.len() == readers
                &&& forall|i: int, j: int|
                    0 <= i < readers && 0 <= j < readers ==> (match (
                        #[trigger] reads@[c]->0@[i],
                        #[trigger] reads@[c]->0@[j],
                    ) {
                        (Some(a), Some(b)) => a@.len() == b@.len() && forall|k: int|
                            0 <= k < a@.len() ==> #[trigger] a@[k] == b@[k],
                        (None, None) => true,
                        _ => false,
                    })
            }),
{
    proof {
        if readers >= 2 {
            lemma_all_match(reads@, readers as int, reads@.len() as int);
        }
    }
    if readers < 2 {
        return EquivalenceSample { seed: SEED, sampled: 0, matched: 0 };
    }
    let mut matched: u32 = 0;
    let mut i: usize = 0;
    while i < reads.len()
        invariant
            i <= reads@.len() <= u32::MAX,
            matched <= i,
            matched == matches_in(reads@, readers as int, i as int),
        decreases reads@.len() - i,
    {
        if match_reads(&reads[i], readers) {
            matched = matched + 1;
        }
        i = i + 1;
    }
    EquivalenceSample { seed: SEED, sampled: reads.len() as u32, matched }
}

/// What one child should run.
#[derive(Debug)]
pub struct ChildTask {
    pub backend: Backend,
    pub cell: Cell,
    pub scenario: ScenarioInfo,
    pub reps: u32,
    pub artefact: Option<String>,
}

/// What the arguments of a child say, or why they cannot be read.
pub open spec fn child_task(args: Seq<Seq<char>>) -> Result<
    (Backend, Cell, InfoModel, nat, Option<Seq<char>>),
    Seq<char>,
> {
    if args.len() < 4 {
        Err("--storage-single <backend> <cell> <scenario> <reps> [artefact]"@)
    } else if args[0] != "pmtiles"@ && args[0] != "directory"@ {
        Err("unknown backend "@ + debug_str_text(args[0]))
    } else {
        match parsed_cell(args[1]) {
            None => Err("unparseable cell "@ + debug_str_text(args[1])),
            Some(cell) => {
                let i = named_index(registry_models(), args[2], 0);
                if i >= registry_models().len() {
                    Err("unknown scenario "@ + debug_str_text(args[2]))
                } else {
                    Ok(
                        (
                            if args[0] == "pmtiles"@ {
                                Backend::PmTiles
                            } else {
                                Backend::Directory
                            },
                            cell,
                            registry_models()[i],
                            match bounded_value(args[3], u32::MAX as nat) {
                                Some(n) => n,
                                None => 1,
                            },
                            if args.len() > 4 {
                                Some(args[4])
                            } else {
                                None
                            },
                        ),
                    )
                }
            },
        }
    }
}

/// Read the arguments of a child: `<backend> <cell> <scenario> <reps>` and then
/// an optional artefact path. A count of repetitions that is no number is one.
pub fn parse_child_args(args: &Vec<String>) -> (got: Result<ChildTask, String>)
    ensures
        match got {
            Ok(task) => child_task(strings(args@)) == Ok::<
                (Backend, Cell, InfoModel, nat, Option<Seq<char>>),
                Seq<char>,
            >(
                (
                    task.backend,
                    task.cell,
                    task.scenario@,
                    task.reps as nat,
                    text_view(task.artefact),
                ),
            ),
            Err(e) => child_task(strings(args@)) == Err::<
                (Backend, Cell, InfoModel, nat, Option<Seq<char>>),
                Seq<char>,
            >(e@),
        },
{
    let ghost model = strings(args@);
    assert(model.len() == args@.len());
    if args.len() < 4 {
        return Err(
            "--storage-single <backend> <cell> <scenario> <reps> [artefact]".to_owned(),
        );
    }
    assert(model[0] == args@[0]@ && model[1] == args@[1]@ && model[2] == args@[2]@ && model[3]
        == args@[3]@);
    let backend: Backend = match Backend::parse(args[0].as_str()) {
        Some(b) => {
            proof {
                reveal_strlit("pmtiles");
                reveal_strlit("directory");
                assert("pmtiles"@.len() != "directory"@.len());
                assert(model[0] == backend_name(b));
            }
            b
        },
        None => {
            proof {
                assert(model[0] != backend_name(Backend::PmTiles));
                assert(model[0] != backend_name(Backend::Directory));
            }
            return Err(concat2("unknown backend ", debug_str(args[0].as_str()).as_str()));
        },
    };
    let cell: Cell = match Cell::parse(args[1].as_str()) {
        Some(c) => c,
        None => {
            return Err(concat2("unparseable cell ", debug_str(args[1].as_str()).as_str()));
        },
    };
    let scenario: ScenarioInfo = match scenario_named(args[2].as_str()) {
        Some(s) => s,
        None => {
            return Err(concat2("unknown scenario ", debug_str(args[2].as_str()).as_str()));
        },
    };
    let digits: Vec<char> = crate::text::chars_of(args[3].as_str());
    let reps: u32 = match crate::words::parse_u32(digits.as_slice()) {
        Some(n) => n,
        None => 1,
    };
    let artefact: Option<String> = if args.len() > 4 {
        assert(model[4] == args@[4]@);
        Some(args[4].clone())
    } else {
        None
    };
    Ok(ChildTask { backend, cell, scenario, reps, artefact })
}

/// Turn one child's run into the rows it earned, before their samples are
/// summarised: one row per series, or one without samples, under the scenario's
/// own metric, where there is no series.
pub fn rows_from_wire(
    backend: Backend,
    cell: Cell,
    scenario: &ScenarioInfo,
    profile: Profile,
    wire: &WireRun,
    load: MachineLoad,
    ncpu: usize,
) -> (rows: Vec<CellReport>)
    ensures
        wire.series@.len() == 0 ==> rows@.len() == 1 && is_row(
            rows@[0],
            backend,
            cell,
            scenario@,
            profile,
            wire@,
            load,
            ncpu,
            SeriesModel {
                metric: scenario@.metric,
                unit: crate::storage::scenarios::facts::unit_name(scenario@.unit),
                direction: crate::storage::scenarios::facts::direction_name(scenario@.direction),
                samples: Seq::empty(),
            },
        ),
        wire.series@.len() > 0 ==> rows@.len() == wire.series@.len(),
        wire.series@.len() > 0 ==> forall|i: int|
            0 <= i < rows@.len() ==> is_row(
                #[trigger] rows@[i],
                backend,
                cell,
                scenario@,
                profile,
                wire@,
                load,
                ncpu,
                wire@.series[i],
            ),
{
    let mut rows: Vec<CellReport> = Vec::new();
    if wire.series.len() == 0 {
        proof {
            crate::storage::scenarios::facts::law_unit_reads_back(scenario@.unit);
            crate::storage::scenarios::facts::law_direction_reads_back(scenario@.direction);
        }
        rows.push(
            row(
                backend,
                cell,
                scenario,
                profile,
                wire,
                load,
                ncpu,
                scenario.primary.name.to_owned(),
                scenario.primary.unit,
                scenario.primary.direction,
                Vec::new(),
            ),
        );
        return rows;
    }
    let mut i: usize = 0;
    while i < wire.series.len()
        invariant
            i <= wire.series@.len(),
            rows@.len() == i,
            forall|k: int|
                0 <= k < i ==> is_row(
                    #[trigger] rows@[k],
                    backend,
                    cell,
                    scenario@,
                    profile,
                    wire@,
                    load,
                    ncpu,
                    wire@.series[k],
                ),
        decreases wire.series@.len() - i,
    {
        let series: &crate::storage::wire::WireSeries = &wire.series[i];
        assert(wire@.series[i as int] == series@);
        let mut samples: Vec<u64> = Vec::new();
        let mut k: usize = 0;
        while k < series.samples.len()
            invariant
                k <= series.samples@.len(),
                samples@ == series.samples@.take(k as int),
            decreases series.samples@.len() - k,
        {
            samples.push(series.samples[k]);
            k = k + 1;
            assert(samples@ =~= series.samples@.take(k as int));
        }
        assert(samples@ =~= series.samples@);
        rows.push(
            row(
                backend,
                cell,
                scenario,
                profile,
                wire,
                load,
                ncpu,
                series.metric.clone(),
                parse_unit(series.unit.as_str()),
                parse_direction(series.direction.as_str()),
                samples,
            ),
        );
        i = i + 1;
    }
    rows
}

/// Whether a report is the row of a series of a run.
pub open spec fn is_row(
    row: CellReport,
    backend: Backend,
    cell: Cell,
    scenario: InfoModel,
    profile: Profile,
    wire: RunModel,
    load: MachineLoad,
    ncpu: usize,
    series: SeriesModel,
) -> bool {
    &&& row.backend == backend
    &&& row.cell == cell
    &&& row.scenario@ == scenario.name
    &&& row.metric@ == series.metric
    &&& row.unit == unit_of(series.unit)
    &&& row.direction == direction_of(series.direction)
    &&& row.isolation == scenario.isolation
    &&& (match row.warmup {
        Some(w) => Some((w.policy@, w.passes)),
        None => None,
    }) == scenario.warmup
    &&& row.discarded_warmup@ == wire.discarded_warmup
    &&& row.reps_declared == reps_of(scenario.rep_kind, profile)
    &&& row.min_reps == reps_of(scenario.rep_kind, profile)
    &&& row.samples@ == series.samples
    &&& row.outcome == row_outcome_of(wire.outcome, disagreements_of(wire.reps))
    &&& text_view(row.reason) == row_reason_of(wire.reason, disagreements_of(wire.reps))
    &&& forall|f: Fact|
        #[trigger] fact_of(row.invariants.invariants, f) == agreed_fact(wire.reps, f)
    &&& digest_in(row.invariants.invariants) == agreed_digest(wire.reps)
    &&& row.invariants.peak_rss_bytes == wire.peak_rss_bytes
    &&& row.invariants.heap_peak_bytes == wire.heap_peak_bytes
    &&& row.machine_load == load
    &&& row.oversubscribed == (scenario.threads > ncpu)
}

/// The row of a series of a run.
fn row(
    backend: Backend,
    cell: Cell,
    scenario: &ScenarioInfo,
    profile: Profile,
    wire: &WireRun,
    load: MachineLoad,
    ncpu: usize,
    metric: String,
    unit: Unit,
    direction: Direction,
    samples: Vec<u64>,
) -> (out: CellReport)
    ensures
        forall|series: SeriesModel|
            series.metric == metric@ && unit_of(series.unit) == unit && direction_of(
                series.direction,
            ) == direction && series.samples == samples@ ==> #[trigger] is_row(
                out,
                backend,
                cell,
                scenario@,
                profile,
                wire@,
                load,
                ncpu,
                series,
            ),
{
    let (invariants, disagreements) = agreed(wire.reps.as_slice());
    let (outcome, reason) = row_verdict(wire, &disagreements);
    let mut discarded: Vec<u64> = Vec::new();
    let mut k: usize = 0;
    while k < wire.discarded_warmup.len()
        invariant
            k <= wire.discarded_warmup@.len(),
            discarded@ == wire.discarded_warmup@.take(k as int),
        decreases wire.discarded_warmup@.len() - k,
    {
        discarded.push(wire.discarded_warmup[k]);
        k = k + 1;
        assert(discarded@ =~= wire.discarded_warmup@.take(k as int));
    }
    assert(discarded@ =~= wire.discarded_warmup@);
    let reps: u32 = scenario.reps(profile);
    CellReport {
        backend,
        cell,
        scenario: scenario.name.clone(),
        metric,
        unit,
        direction,
        isolation: scenario.isolation,
        warmup: scenario.warmup,
        discarded_warmup: discarded,
        reps_declared: reps,
        min_reps: reps,
        samples,
        outcome,
        reason,
        invariants: InvariantBlock {
            invariants,
            peak_rss_bytes: wire.peak_rss_bytes,
            heap_peak_bytes: wire.heap_peak_bytes,
        },
        machine_load: load,
        oversubscribed: scenario.threads > ncpu,
    }
}

/// The arguments that a parent hands a child, behind the flag.
pub open spec fn child_args_of(
    backend: Backend,
    cell: Cell,
    scenario: Seq<char>,
    reps: nat,
    artefact: Option<Seq<char>>,
) -> Seq<Seq<char>> {
    seq![backend_name(backend), cell_text(cell), scenario, decimal(reps)] + (match artefact {
        Some(path) => seq![path],
        None => Seq::empty(),
    })
}

/// The arguments that a parent hands a child, behind the flag.
pub fn child_args(
    backend: Backend,
    cell: &Cell,
    scenario: &str,
    reps: u32,
    artefact: Option<&str>,
) -> (out: Vec<String>)
    ensures
        strings(out@) == child_args_of(
            backend,
            *cell,
            scenario@,
            reps as nat,
            match artefact {
                Some(path) => Some(path@),
                None => None,
            },
        ),
{
    let mut out: Vec<String> = Vec::new();
    out.push(backend.as_str().to_owned());
    out.push(cell.spec());
    out.push(scenario.to_owned());
    out.push(decimal_text(reps as u128));
    if let Some(path) = artefact {
        out.push(path.to_owned());
    }
    assert(strings(out@) =~= child_args_of(
        backend,
        *cell,
        scenario@,
        reps as nat,
        match artefact {
            Some(path) => Some(path@),
            None => None,
        },
    ));
    out
}

/// No two scenarios publish under one name.
pub proof fn law_scenario_names_are_distinct(i: int, j: int)
    requires
        0 <= i < j < registry_models().len(),
    ensures
        registry_models()[i].name != registry_models()[j].name,
{
    let m = registry_models();
    reveal_strlit("generate");
    reveal_strlit("read_plan_order");
    reveal_strlit("read_random");
    reveal_strlit("open");
    reveal_strlit("first_lookup");
    reveal_strlit("decode_root");
    reveal_strlit("read_tileid_order");
    reveal_strlit("requests");
    reveal_strlit("generate_ingest");
    reveal_strlit("generate_finalize");
    reveal_strlit("read_concurrent@");
    reveal_with_fuel(decimal, 2);
    assert(m[0].name.len() == 8 && m[0].name[0] == 'g');
    assert(m[1].name.len() == 15 && m[1].name[0] == 'r');
    assert(m[2].name.len() == 11 && m[2].name[0] == 'r');
    assert(m[3].name.len() == 4 && m[3].name[0] == 'o');
    assert(m[4].name.len() == 12 && m[4].name[0] == 'f');
    assert(m[5].name.len() == 11 && m[5].name[0] == 'd');
    assert(m[6].name.len() == 17 && m[6].name[0] == 'r' && m[6].name[5] == 't');
    assert(m[7].name.len() == 17 && m[7].name[0] == 'r' && m[7].name[5] == 'c' && m[7].name[16] == '1');
    assert(m[8].name.len() == 17 && m[8].name[0] == 'r' && m[8].name[5] == 'c' && m[8].name[16] == '2');
    assert(m[9].name.len() == 17 && m[9].name[0] == 'r' && m[9].name[5] == 'c' && m[9].name[16] == '4');
    assert(m[10].name.len() == 17 && m[10].name[0] == 'r' && m[10].name[5] == 'c' && m[10].name[16] == '8');
    assert(m[11].name.len() == 8 && m[11].name[0] == 'r');
    assert(m[12].name.len() == 15 && m[12].name[0] == 'g');
    assert(m[13].name.len() == 17 && m[13].name[0] == 'g' && m[13].name[5] == 'a');
}

/// A scenario is found under its own name.
proof fn lemma_found_by_name(index: int, i: int)
    requires
        0 <= i <= index < registry_models().len(),
    ensures
        named_index(registry_models(), registry_models()[index].name, i) == index,
    decreases index - i,
{
    if i < index {
        law_scenario_names_are_distinct(i, index);
        lemma_found_by_name(index, i + 1);
    }
}

/// A child reads the task that its parent wrote: the backend, the cell as its
/// plan declares it, the scenario, the repetitions and the artefact.
pub proof fn law_child_reads_its_task(
    backend: Backend,
    cell: Cell,
    index: int,
    reps: u32,
    artefact: Option<Seq<char>>,
)
    requires
        has_plan(cell.width, cell.height, cell.tile_px),
        0 <= index < registry_models().len(),
    ensures
        child_task(
            child_args_of(backend, cell, registry_models()[index].name, reps as nat, artefact),
        ) == Ok::<(Backend, Cell, InfoModel, nat, Option<Seq<char>>), Seq<char>>(
            (
                backend,
                Cell {
                    declared_tiles: declared(
                        planned_count(cell.width as nat, cell.height as nat, cell.tile_px as nat),
                    ),
                    ..cell
                },
                registry_models()[index],
                reps as nat,
                artefact,
            ),
        ),
{
    let args = child_args_of(backend, cell, registry_models()[index].name, reps as nat, artefact);
    lemma_found_by_name(index, 0);
    law_cell_reads_back(cell);
    lemma_decimal_reads_back(reps as nat);
    reveal_strlit("pmtiles");
    reveal_strlit("directory");
    assert("pmtiles"@.len() != "directory"@.len());
    assert(args[0] == backend_name(backend));
    assert(args[1] == cell_text(cell));
    assert(args[2] == registry_models()[index].name);
    assert(args[3] == decimal(reps as nat));
    if artefact is Some {
        assert(args[4] == artefact->0);
    }
}

/// The place of the flag in an argument vector, or its length.
pub open spec fn flag_place(argv: Seq<Seq<char>>, i: int) -> int
    decreases argv.len() - i,
{
    if 0 <= i < argv.len() && argv[i] != SINGLE_FLAG@ {
        flag_place(argv, i + 1)
    } else {
        i
    }
}

/// What stands behind the flag, where the process was started as a child.
pub fn after_flag(argv: &Vec<String>) -> (got: Option<Vec<String>>)
    ensures
        ({
            let at = flag_place(strings(argv@), 0);
            &&& got is Some <==> at < argv@.len()
            &&& got is Some ==> strings(got->0@) == strings(argv@).skip(at + 1)
        }),
        got is Some <==> exists|i: int| 0 <= i < argv@.len() && (#[trigger] argv@[i])@
            == "--storage-single"@,
{
    let ghost model = strings(argv@);
    let mut at: usize = 0;
    while at < argv.len() && !same_text(argv[at].as_str(), SINGLE_FLAG)
        invariant
            at <= argv@.len(),
            forall|k: int| 0 <= k < at ==> (#[trigger] argv@[k])@ != "--storage-single"@,
            model == strings(argv@),
            flag_place(model, 0) == flag_place(model, at as int),
        decreases argv@.len() - at,
    {
        at = at + 1;
    }
    if at == argv.len() {
        return None;
    }
    let mut out: Vec<String> = Vec::new();
    let mut i: usize = at + 1;
    while i < argv.len()
        invariant
            at < i <= argv@.len(),
            model == strings(argv@),
            out@.len() == i - at - 1,
            forall|k: int| 0 <= k < out@.len() ==> (#[trigger] out@[k])@ == model[at + 1 + k],
        decreases argv@.len() - i,
    {
        out.push(argv[i].clone());
        i = i + 1;
    }
    assert(strings(out@) =~= model.skip(at + 1));
    Some(out)
}

/// A run with the peak that the kernel reported for its child, where it
/// reported one.
pub fn with_peak(wire: WireRun, rss: Option<u64>) -> (out: WireRun)
    ensures
        out@ == (RunModel {
            peak_rss_bytes: match rss {
                Some(bytes) if bytes > 0 => Some(bytes),
                _ => wire@.peak_rss_bytes,
            },
            ..wire@
        }),
{
    let mut out = wire;
    if let Some(bytes) = rss {
        if bytes > 0 {
            out.peak_rss_bytes = Some(bytes);
        }
    }
    out
}

/// The coordinates whose bytes are compared: as many as the profile reads, in
/// the seeded order.
pub fn equivalence_coords(plan: &PyramidPlan, profile: Profile) -> (out: Vec<TileCoord>)
    ensures
        out@ == shuffled(
            first_coords(
                plan.levels@,
                if profile == Profile::Ci {
                    512
                } else {
                    20_000
                },
            ),
            SEED,
        ),
{
    coordinate_sets(plan, profile, SEED).random
}

/// A thin profile cannot weaken the comparison: it is as many coordinates as the
/// profile reads, which is never under the floor, or the whole plan.
pub proof fn law_comparison_is_not_thinned(levels: Seq<LevelPlan>, profile: Profile)
    ensures
        ({
            let reads: int = if profile == Profile::Ci {
                512
            } else {
                20_000
            };
            let compared = shuffled(first_coords(levels, reads), SEED);
            &&& reads >= MIN_EQUIVALENCE_SAMPLE
            &&& compared.len() == (if reads < coords_of(levels).len() {
                reads
            } else {
                coords_of(levels).len() as int
            })
            &&& compared.to_multiset() == first_coords(levels, reads).to_multiset()
        }),
{
    broadcast use vstd::seq_lib::group_to_multiset_ensures;

    let reads: int = if profile == Profile::Ci {
        512
    } else {
        20_000
    };
    let coords = first_coords(levels, reads);
    law_shuffle_keeps_items(coords, SEED);
    assert(shuffled(coords, SEED).to_multiset().len() == coords.to_multiset().len());
}

/// Whether some cell plans exactly this many tiles.
pub open spec fn is_scale(cells: Seq<Cell>, n: u64) -> bool {
    exists|i: int| 0 <= i < cells.len() && #[trigger] cell_tiles(cells[i]) == Some(n as nat)
}

/// The tile counts of some cells, each once, in ascending order. A cell that
/// plans no pyramid has none.
pub fn scales(cells: &Vec<Cell>) -> (out: Vec<u64>)
    ensures
        forall|i: int, j: int| 0 <= i < j < out@.len() ==> out@[i] < out@[j],
        forall|n: u64| #[trigger] out@.contains(n) <==> is_scale(cells@, n),
{
    let mut out: Vec<u64> = Vec::new();
    let mut i: usize = 0;
    while i < cells.len()
        invariant
            i <= cells@.len(),
            forall|a: int, b: int| 0 <= a < b < out@.len() ==> out@[a] < out@[b],
            forall|n: u64| #[trigger]
                out@.contains(n) <==> exists|k: int|
                    0 <= k < i && #[trigger] cell_tiles(cells@[k]) == Some(n as nat),
        decreases cells@.len() - i,
    {
        if let Some(tiles) = cells[i].planned_tiles() {
            let n: u64 = tiles as u64;
            let mut at: usize = 0;
            while at < out.len() && out[at] < n
                invariant
                    at <= out@.len(),
                    forall|k: int| 0 <= k < at ==> out@[k] < n,
                decreases out@.len() - at,
            {
                at = at + 1;
            }
            let ghost before = out@;
            if at == out.len() || out[at] != n {
                out.insert(at, n);
                proof {
                    assert(out@ =~= before.take(at as int).push(n) + before.skip(at as int));
                    assert(out@[at as int] == n);
                    assert forall|x: u64| #[trigger] out@.contains(x) <==> before.contains(x) || x
                        == n by {
                        if before.contains(x) {
                            let k = choose|k: int| 0 <= k < before.len() && before[k] == x;
                            if k < at {
                                assert(out@[k] == x);
                            } else {
                                assert(out@[k + 1] == x);
                            }
                        }
                        if out@.contains(x) && x != n {
                            let k = choose|k: int| 0 <= k < out@.len() && out@[k] == x;
                            if k < at {
                                assert(before[k] == x);
                            } else {
                                assert(before[k - 1] == x);
                            }
                        }
                    }
                }
            } else {
                assert(out@[at as int] == n);
            }
            assert forall|x: u64| #[trigger] out@.contains(x) <==> exists|k: int|
                0 <= k < i + 1 && #[trigger] cell_tiles(cells@[k]) == Some(x as nat) by {
                if out@.contains(x) {
                    if x == n {
                        assert(cell_tiles(cells@[i as int]) == Some(x as nat));
                    }
                }
            }
        }
        i = i + 1;
    }
    out
}

/// Now, as a document writes it.
pub fn now_iso() -> (out: String)
    ensures
        crate::storage::archive::is_utc_millis(out@),
{
    crate::storage::archive::now_iso()
}

/// Whether the provenance of a run says that one of its source trees was dirty.
pub open spec fn says_dirty(provenance: Json) -> bool {
    bool_of(value_at(provenance, "dirty"@)) == Some(true) || bool_of(
        value_at(provenance, "library.dirty"@),
    ) == Some(true)
}

/// What a run id is derived from: when the run started, and its provenance.
pub open spec fn id_evidence(started_at: Seq<char>, provenance: Json) -> Json {
    Json::Object(seq![("startedAt"@, Json::Str(started_at)), ("provenance"@, provenance)])
}

/// A row that carries the dirt of its run.
pub open spec fn marked(row: DocumentCell, dirty: bool) -> DocumentCell {
    DocumentCell {
        dirty: if dirty {
            Some(true)
        } else {
            row.dirty
        },
        ..row
    }
}

/// The rows, each with the dirt of the run.
fn mark_rows(rows: Vec<DocumentCell>, dirty: bool) -> (out: Vec<DocumentCell>)
    ensures
        out@ == Seq::new(rows@.len(), |i: int| marked(rows@[i], dirty)),
{
    let ghost all = rows@;
    let mut out: Vec<DocumentCell> = Vec::new();
    let ghost mut n: int = 0;
    for row in it: rows
        invariant
            it.seq() == all,
            n == it.index(),
            out@ == Seq::new(n as nat, |i: int| marked(all[i], dirty)),
    {
        let mut row = row;
        if dirty {
            row.dirty = Some(true);
        }
        out.push(row);
        proof {
            n = n + 1;
        }
        assert(out@ =~= Seq::new(n as nat, |i: int| marked(all[i], dirty)));
    }
    assert(out@ =~= Seq::new(all.len(), |i: int| marked(all[i], dirty)));
    out
}

/// Whether a document is what a sweep that ended writes: the table is built from
/// the rows, the end and the provenance are noted, every row carries the run's
/// dirt, and the run is named by its own evidence where that names it.
pub open spec fn is_finished(
    doc: Document,
    swept: Document,
    finished_at: Seq<char>,
    provenance: Json,
) -> bool {
    &&& doc.cells@ == Seq::new(
        swept.cells@.len(),
        |i: int| marked(swept.cells@[i], says_dirty(provenance)),
    )
    &&& entry_models(doc.invariants@) == table_of(swept.cells@, swept.cells@.len() as int)
    &&& text_view(doc.finished_at) == Some(finished_at)
    &&& doc.provenance matches Some(p) && p@ == provenance
    &&& text_view(doc.run_id) == (match run_id_of(id_evidence(swept.started_at@, provenance)) {
        Ok(id) => Some(id),
        Err(_) => text_view(swept.run_id),
    })
    &&& doc.schema_version == swept.schema_version
    &&& doc.family == swept.family
    &&& doc.runner == swept.runner
    &&& doc.profile == swept.profile
    &&& doc.started_at == swept.started_at
    &&& doc.reps == swept.reps
    &&& doc.starting_load == swept.starting_load
}

/// What is left to do when every cell was walked.
pub fn finish(swept: Document, finished_at: String, provenance: RawJson) -> (doc: Document)
    ensures
        is_finished(doc, swept, finished_at@, provenance@),
{
    let mut doc: Document = swept;
    doc.rebuild_invariant_table();
    let dirty = flag_at(&provenance, "dirty") || flag_at(&provenance, "library.dirty");
    let cells: Vec<DocumentCell> = doc.cells;
    doc.cells = mark_rows(cells, dirty);
    doc.finished_at = Some(finished_at);
    let mut entries: Vec<(String, RawJson)> = Vec::new();
    let started: RawJson = RawJson::Str(doc.started_at.clone());
    assert(started@ == Json::Str(doc.started_at@));
    entries.push(("startedAt".to_owned(), started));
    entries.push(("provenance".to_owned(), provenance));
    let evidence: RawJson = RawJson::Object(entries);
    let ghost e = evidence@->Object_0;
    assert(e.len() == 2);
    assert(e[0] == (entries@[0].0@, entries@[0].1@));
    assert(e[1] == (entries@[1].0@, entries@[1].1@));
    assert(e =~= seq![
        ("startedAt"@, Json::Str(doc.started_at@)),
        ("provenance"@, provenance@),
    ]);
    if let Ok(id) = run_id(&evidence) {
        doc.run_id = Some(id);
    }
    if let RawJson::Object(mut entries) = evidence {
        if let Some(last) = entries.pop() {
            doc.provenance = Some(last.1);
        }
    }
    doc
}

} // verus!
