//! A sweep as a state that is walked: cell by cell, step by step.
//!
//! What writes artefacts, opens them and starts children asks here what comes
//! next, and hands back what came of it.

use crate::storage::attest::{Attestation, EquivalenceSample};
use crate::storage::cells::{control_cell, measured, scenarios_of, Backend, Cell, Profile};
use crate::storage::document::{
    is_new, same_head, CellReport, Document, DocumentCell, MachineLoad,
};
use crate::storage::json::RawJson;
use crate::storage::plan::{has_plan, planned_levels, PyramidPlan};
use crate::storage::scenarios::facts::{
    direction_name, info_models, unit_name, InfoModel, Isolation, ScenarioInfo,
};
use crate::storage::scenarios::replicate::scheduled;
use crate::storage::sweep::{
    attest_artefacts, attested_as, cell_steps, cell_steps_of, file_rows, finish, fold_children,
    folded, is_finished, is_row, is_verdict, law_backends_alternate, leading_order, registry_models,
    round_steps, rounds_of, rounds_steps, rows_from_wire, run_view, scenario_steps, stamped,
    step_of, verdict_for, walked, walked_of, Step, WrittenShape,
};
use crate::storage::wire::{RunModel, SeriesModel, WireRun};
use vstd::prelude::*;

verus! {

/// The cells that a profile walks.
pub open spec fn cells_of(profile: Profile) -> Seq<Cell> {
    match profile {
        Profile::Ci => seq![control_cell()],
        _ => scheduled(control_cell(), measured(profile)),
    }
}

/// What the scenarios that a profile walks declare.
pub open spec fn walked_models(profile: Profile) -> Seq<InfoModel> {
    walked_of(registry_models(), scenarios_of(profile), registry_models().len() as int)
}

/// What one child came to: its run, or why there is none.
#[derive(Debug)]
pub struct Child {
    pub scenario: usize,
    pub backend: Backend,
    pub run: Result<WireRun, String>,
}

/// Whether a child is one of those that a step goes on with.
pub open spec fn is_beside(child: Child, step: Step) -> bool {
    child.scenario == step.scenario && child.backend == step.backend
}

/// What the first `n` children came to, of those that a step goes on with.
pub open spec fn runs_beside(
    children: Seq<Child>,
    step: Step,
    n: int,
) -> Seq<Result<WireRun, String>>
    decreases n,
{
    if n <= 0 {
        Seq::empty()
    } else if is_beside(children[n - 1], step) {
        runs_beside(children, step, n - 1).push(children[n - 1].run)
    } else {
        runs_beside(children, step, n - 1)
    }
}

/// The first `n` children but for those that a step goes on with.
pub open spec fn children_apart(children: Seq<Child>, step: Step, n: int) -> Seq<Child>
    decreases n,
{
    if n <= 0 {
        Seq::empty()
    } else if is_beside(children[n - 1], step) {
        children_apart(children, step, n - 1)
    } else {
        children_apart(children, step, n - 1).push(children[n - 1])
    }
}

/// Whether a step is the last of its scenario on its backend.
pub open spec fn is_last_round(step: Step) -> bool {
    step.round + 1 >= step.rounds
}

/// A sweep, somewhere on its way.
#[derive(Debug)]
pub struct Sweep {
    pub profile: Profile,
    pub cells: Vec<Cell>,
    pub walked: Vec<ScenarioInfo>,
    /// The cell that comes next.
    pub next: usize,
    /// The verdicts on the artefacts of the current cell.
    pub verdicts: Vec<(Backend, Attestation)>,
    /// The steps of the current cell, and the one that comes next.
    pub steps: Vec<Step>,
    pub next_step: usize,
    /// The children of the current cell whose backend is not through with its
    /// scenario.
    pub children: Vec<Child>,
    pub doc: Document,
}

/// The first cell from `i` on that plans a pyramid, or the number of cells.
pub open spec fn next_planned(cells: Seq<Cell>, i: int) -> int
    decreases cells.len() - i,
{
    if 0 <= i < cells.len() && !has_plan(cells[i].width, cells[i].height, cells[i].tile_px) {
        next_planned(cells, i + 1)
    } else {
        i
    }
}

/// No cell that plans a pyramid is passed over, and the one that comes next plans
/// one.
pub proof fn law_every_planned_cell_is_walked(cells: Seq<Cell>, i: int, k: int)
    requires
        0 <= i <= cells.len(),
    ensures
        i <= next_planned(cells, i) <= cells.len(),
        i <= k < next_planned(cells, i) ==> !has_plan(
            cells[k].width,
            cells[k].height,
            cells[k].tile_px,
        ),
        next_planned(cells, i) < cells.len() ==> ({
            let c = cells[next_planned(cells, i)];
            has_plan(c.width, c.height, c.tile_px)
        }),
    decreases cells.len() - i,
{
    if i < cells.len() && !has_plan(cells[i].width, cells[i].height, cells[i].tile_px) {
        law_every_planned_cell_is_walked(cells, i + 1, k);
    }
}

/// Every step of a scenario is of that scenario.
proof fn lemma_steps_of_scenario(
    index: int,
    info: InfoModel,
    profile: Profile,
    have: Seq<Backend>,
    r: int,
)
    requires
        0 <= index <= usize::MAX,
    ensures
        forall|k: int|
            0 <= k < rounds_steps(index, info, profile, have, r).len() ==> (
            #[trigger] rounds_steps(index, info, profile, have, r)[k]).scenario == index,
    decreases r,
{
    if r > 0 {
        lemma_steps_of_scenario(index, info, profile, have, r - 1);
        let before = rounds_steps(index, info, profile, have, r - 1);
        let last = round_steps(index, info, profile, have, r - 1);
        let all = rounds_steps(index, info, profile, have, r);
        assert forall|k: int| 0 <= k < all.len() implies (#[trigger] all[k]).scenario == index by {
            if k < before.len() {
                assert(all[k] == before[k]);
            } else {
                assert(all[k] == last[k - before.len()]);
            }
        }
    }
}

/// Every step of a cell is of a scenario that the sweep walks.
proof fn lemma_steps_are_walked(
    infos: Seq<InfoModel>,
    profile: Profile,
    have: Seq<Backend>,
    n: int,
)
    requires
        0 <= n <= infos.len() <= usize::MAX,
    ensures
        forall|k: int|
            0 <= k < cell_steps_of(infos, profile, have, n).len() ==> (#[trigger] cell_steps_of(
                infos,
                profile,
                have,
                n,
            )[k]).scenario < n,
    decreases n,
{
    if n > 0 {
        lemma_steps_are_walked(infos, profile, have, n - 1);
        let before = cell_steps_of(infos, profile, have, n - 1);
        let last = scenario_steps(n - 1, infos[n - 1], profile, have);
        lemma_steps_of_scenario(
            n - 1,
            infos[n - 1],
            profile,
            have,
            rounds_of(infos[n - 1], profile) as int,
        );
        let all = cell_steps_of(infos, profile, have, n);
        assert forall|k: int| 0 <= k < all.len() implies (#[trigger] all[k]).scenario < n by {
            if k < before.len() {
                assert(all[k] == before[k]);
            } else {
                assert(all[k] == last[k - before.len()]);
            }
        }
    }
}

/// The backends of some artefacts.
pub open spec fn backends_of(artefacts: Seq<WrittenShape>) -> Seq<Backend> {
    Seq::new(artefacts.len(), |i: int| artefacts[i].backend)
}

/// What the children came to that a step goes on with, and the other children.
fn parted(children: Vec<Child>, step: Step) -> (both: (Vec<Result<WireRun, String>>, Vec<Child>))
    ensures
        both.0@ == runs_beside(children@, step, children@.len() as int),
        both.1@ == children_apart(children@, step, children@.len() as int),
{
    let ghost all = children@;
    let mut runs: Vec<Result<WireRun, String>> = Vec::new();
    let mut apart: Vec<Child> = Vec::new();
    let ghost mut n: int = 0;
    for child in it: children
        invariant
            it.seq() == all,
            n == it.index(),
            runs@ == runs_beside(all, step, n),
            apart@ == children_apart(all, step, n),
    {
        if child.scenario == step.scenario && child.backend == step.backend {
            runs.push(child.run);
        } else {
            apart.push(child);
        }
        proof {
            n = n + 1;
        }
    }
    (runs, apart)
}

impl Sweep {
    /// The sweep walks the cells and the scenarios of its profile, and every
    /// step it has is of one of them.
    pub open spec fn wf(self) -> bool {
        &&& self.cells@ == cells_of(self.profile)
        &&& info_models(self.walked@) == walked_models(self.profile)
        &&& self.next <= self.cells@.len()
        &&& self.next_step <= self.steps@.len()
        &&& forall|k: int|
            0 <= k < self.steps@.len() ==> (#[trigger] self.steps@[k]).scenario
                < self.walked@.len()
    }

    /// Begin a sweep on a profile: no cell was walked, and the document is empty
    /// but for what the machine carries before the sweep has done anything.
    pub fn begin(profile: Profile, started_at: String, load: MachineLoad) -> (sweep: Sweep)
        ensures
            sweep.wf(),
            sweep.profile == profile,
            sweep.next == 0,
            sweep.verdicts@.len() == 0,
            sweep.steps@.len() == 0,
            sweep.next_step == 0,
            sweep.children@.len() == 0,
            is_new(sweep.doc, profile, started_at@),
            sweep.doc.starting_load == Some(load),
    {
        let mut doc: Document = Document::new(profile, started_at);
        doc.starting_load = Some(load);
        Sweep {
            profile,
            cells: profile.cells(),
            walked: walked(profile),
            next: 0,
            verdicts: Vec::new(),
            steps: Vec::new(),
            next_step: 0,
            children: Vec::new(),
            doc,
        }
    }

    /// Go on to the next cell that plans a pyramid. Nothing of the cell before
    /// is left: neither its verdicts, nor its steps, nor its children.
    pub fn next_cell(&mut self) -> (got: Option<(Cell, PyramidPlan)>)
        requires
            old(self).wf(),
        ensures
            final(self).wf(),
            ({
                let at = next_planned(old(self).cells@, old(self).next as int);
                &&& got is Some <==> at < old(self).cells@.len()
                &&& got is Some ==> {
                    let cell = old(self).cells@[at];
                    &&& (got->0).0 == cell
                    &&& (got->0).1.levels@ == planned_levels(
                        cell.width as nat,
                        cell.height as nat,
                        cell.tile_px as nat,
                    )
                    &&& final(self).next == at + 1
                }
                &&& got is None ==> final(self).next == old(self).cells@.len()
            }),
            final(self).verdicts@.len() == 0,
            final(self).steps@.len() == 0,
            final(self).next_step == 0,
            final(self).children@.len() == 0,
            final(self).doc == old(self).doc,
            final(self).profile == old(self).profile,
            final(self).cells == old(self).cells,
            final(self).walked == old(self).walked,
    {
        self.verdicts = Vec::new();
        self.steps = Vec::new();
        self.next_step = 0;
        self.children = Vec::new();
        let start: usize = self.next;
        while self.next < self.cells.len()
            invariant
                start == old(self).next,
                self.wf(),
                self.cells == old(self).cells,
                self.walked == old(self).walked,
                self.profile == old(self).profile,
                self.doc == old(self).doc,
                self.verdicts@.len() == 0,
                self.steps@.len() == 0,
                self.next_step == 0,
                self.children@.len() == 0,
                next_planned(self.cells@, start as int) == next_planned(
                    self.cells@,
                    self.next as int,
                ),
            decreases self.cells@.len() - self.next,
        {
            let cell: Cell = self.cells[self.next];
            match cell.plan() {
                Some(plan) => {
                    self.next = self.next + 1;
                    return Some((cell, plan));
                },
                None => {
                    self.next = self.next + 1;
                },
            }
        }
        None
    }

    /// The artefacts of a cell were written and looked at: each has its verdict,
    /// and the cell has its steps.
    pub fn written(
        &mut self,
        cell: &Cell,
        artefacts: &Vec<WrittenShape>,
        equivalence: &EquivalenceSample,
    )
        requires
            old(self).wf(),
            equivalence.matched <= equivalence.sampled,
        ensures
            final(self).wf(),
            final(self).verdicts@.len() == artefacts@.len(),
            forall|i: int|
                0 <= i < artefacts@.len() ==> (#[trigger] final(self).verdicts@[i]).0
                    == artefacts@[i].backend && is_verdict(
                    final(self).verdicts@[i].1,
                    *cell,
                    artefacts@[i].backend,
                    artefacts@[i].shape,
                    *equivalence,
                ),
            final(self).steps@ == cell_steps_of(
                walked_models(old(self).profile),
                old(self).profile,
                backends_of(artefacts@),
                walked_models(old(self).profile).len() as int,
            ),
            final(self).next_step == 0,
            final(self).children@.len() == 0,
            final(self).next == old(self).next,
            final(self).doc == old(self).doc,
            final(self).profile == old(self).profile,
            final(self).cells == old(self).cells,
            final(self).walked == old(self).walked,
    {
        let mut have: Vec<Backend> = Vec::new();
        let mut i: usize = 0;
        while i < artefacts.len()
            invariant
                i <= artefacts@.len(),
                have@ == backends_of(artefacts@).take(i as int),
            decreases artefacts@.len() - i,
        {
            have.push(artefacts[i].backend);
            i = i + 1;
            assert(have@ =~= backends_of(artefacts@).take(i as int));
        }
        assert(have@ =~= backends_of(artefacts@));
        let count: usize = self.walked.len();
        assert(info_models(self.walked@).len() == count);
        proof {
            lemma_steps_are_walked(
                walked_models(self.profile),
                self.profile,
                have@,
                count as int,
            );
        }
        self.verdicts = attest_artefacts(cell, artefacts, equivalence);
        self.steps = cell_steps(&self.walked, self.profile, &have);
        self.next_step = 0;
        self.children = Vec::new();
    }

    /// The step that comes next in the current cell, if there is one.
    pub fn next_step(&mut self) -> (got: Option<Step>)
        requires
            old(self).wf(),
        ensures
            final(self).wf(),
            got is Some <==> old(self).next_step < old(self).steps@.len(),
            got is Some ==> got->0 == old(self).steps@[old(self).next_step as int]
                && final(self).next_step == old(self).next_step + 1 && got->0.scenario
                < final(self).walked@.len(),
            got is None ==> final(self).next_step == old(self).next_step,
            final(self).steps == old(self).steps,
            final(self).verdicts == old(self).verdicts,
            final(self).children == old(self).children,
            final(self).next == old(self).next,
            final(self).doc == old(self).doc,
            final(self).profile == old(self).profile,
            final(self).cells == old(self).cells,
            final(self).walked == old(self).walked,
    {
        if self.next_step < self.steps.len() {
            let step: Step = self.steps[self.next_step];
            self.next_step = self.next_step + 1;
            Some(step)
        } else {
            None
        }
    }

    /// What the child of a step came to. Where that was the last round of the
    /// scenario on the backend, all its children are handed back, in the order of
    /// their rounds; until then they are kept.
    pub fn came(&mut self, step: Step, run: Result<WireRun, String>) -> (got: Option<
        Vec<Result<WireRun, String>>,
    >)
        requires
            old(self).wf(),
        ensures
            final(self).wf(),
            got is Some <==> is_last_round(step),
            got is None ==> final(self).children@ == old(self).children@.push(
                (Child { scenario: step.scenario, backend: step.backend, run }),
            ),
            got is Some ==> got->0@ == runs_beside(
                old(self).children@,
                step,
                old(self).children@.len() as int,
            ).push(run) && final(self).children@ == children_apart(
                old(self).children@,
                step,
                old(self).children@.len() as int,
            ),
            final(self).steps == old(self).steps,
            final(self).next_step == old(self).next_step,
            final(self).verdicts == old(self).verdicts,
            final(self).next == old(self).next,
            final(self).doc == old(self).doc,
            final(self).profile == old(self).profile,
            final(self).cells == old(self).cells,
            final(self).walked == old(self).walked,
    {
        if step.rounds > 0 && step.round < step.rounds - 1 {
            self.children.push(Child { scenario: step.scenario, backend: step.backend, run });
            return None;
        }
        let mut kept: Vec<Child> = Vec::new();
        std::mem::swap(&mut kept, &mut self.children);
        let (mut runs, apart) = parted(kept, step);
        runs.push(run);
        self.children = apart;
        Some(runs)
    }

    /// The rows that a step earned, before their samples are summarised.
    pub fn earned(
        &self,
        cell: Cell,
        step: Step,
        wire: &WireRun,
        load: MachineLoad,
        ncpu: usize,
    ) -> (rows: Vec<CellReport>)
        requires
            self.wf(),
            step.scenario < self.walked@.len(),
        ensures
            ({
                let info = self.walked@[step.scenario as int]@;
                let n = wire.series@.len();
                &&& n == 0 ==> rows@.len() == 1 && is_row(
                    rows@[0],
                    step.backend,
                    cell,
                    info,
                    self.profile,
                    wire@,
                    load,
                    ncpu,
                    SeriesModel {
                        metric: info.metric,
                        unit: unit_name(info.unit),
                        direction: direction_name(info.direction),
                        samples: Seq::empty(),
                    },
                )
                &&& n > 0 ==> rows@.len() == n
                &&& n > 0 ==> forall|i: int|
                    0 <= i < n ==> is_row(
                        #[trigger] rows@[i],
                        step.backend,
                        cell,
                        info,
                        self.profile,
                        wire@,
                        load,
                        ncpu,
                        wire@.series[i],
                    )
            }),
    {
        rows_from_wire(
            step.backend,
            cell,
            &self.walked[step.scenario],
            self.profile,
            wire,
            load,
            ncpu,
        )
    }

    /// File the rows of a step in the document, under the verdict on the
    /// artefact of its backend.
    pub fn file(&mut self, step: Step, rows: Vec<DocumentCell>)
        requires
            old(self).wf(),
        ensures
            final(self).wf(),
            final(self).doc.cells@ == old(self).doc.cells@ + Seq::new(
                rows@.len(),
                |i: int| stamped(rows@[i], attested_as(old(self).verdicts@, step.backend, 0)),
            ),
            same_head(final(self).doc, old(self).doc),
            final(self).doc.invariants == old(self).doc.invariants,
            final(self).verdicts == old(self).verdicts,
            final(self).steps == old(self).steps,
            final(self).next_step == old(self).next_step,
            final(self).children == old(self).children,
            final(self).next == old(self).next,
            final(self).profile == old(self).profile,
            final(self).cells == old(self).cells,
            final(self).walked == old(self).walked,
    {
        let attested: Option<bool> = verdict_for(&self.verdicts, step.backend);
        file_rows(&mut self.doc, rows, attested);
    }

    /// End the sweep: the document, with its invariant table, its end and what its
    /// provenance says of every row.
    pub fn end(self, finished_at: String, provenance: RawJson) -> (doc: Document)
        requires
            self.wf(),
        ensures
            is_finished(doc, self.doc, finished_at@, provenance@),
    {
        finish(self.doc, finished_at, provenance)
    }
}

/// A child that produced a run, and nothing of one that did not.
pub open spec fn produced(child: Result<WireRun, String>) -> Option<RunModel> {
    match child {
        Ok(run) => Some(run@),
        Err(_) => None,
    }
}

/// What the children of a scenario on one backend came to. One child for the whole scenario speaks
/// for itself; where each repetition has a child, one that failed is left out.
pub fn step_run(isolation: Isolation, children: Vec<Result<WireRun, String>>) -> (got: Result<
    WireRun,
    String,
>)
    requires
        isolation == Isolation::ProcessPerScenario ==> children@.len() == 1,
    ensures
        isolation == Isolation::ProcessPerScenario ==> got == children@[0],
        isolation == Isolation::ProcessPerRep ==> ({
            let all = Seq::new(children@.len(), |i: int| produced(children@[i]));
            let run = folded(all, all.len() as int);
            &&& got is Ok <==> run is Some
            &&& got is Ok ==> got->Ok_0@ == run->0
            &&& got is Err ==> got->Err_0@ == "no repetition produced a sample"@
        }),
{
    let mut children: Vec<Result<WireRun, String>> = children;
    if isolation == Isolation::ProcessPerScenario {
        return children.swap_remove(0);
    }
    let ghost all = Seq::new(children@.len(), |i: int| produced(children@[i]));
    let mut runs: Vec<Option<WireRun>> = Vec::new();
    let ghost mut n: int = 0;
    for child in it: children
        invariant
            it.seq().len() == all.len(),
            forall|k: int| 0 <= k < all.len() ==> all[k] == produced(#[trigger] it.seq()[k]),
            n == it.index(),
            runs@.len() == n,
            forall|k: int| 0 <= k < n ==> run_view(#[trigger] runs@[k]) == all[k],
    {
        assert(all[n] == produced(it.seq()[n]));
        match child {
            Ok(run) => {
                runs.push(Some(run));
            },
            Err(_) => {
                runs.push(None);
            },
        }
        proof {
            n = n + 1;
        }
    }
    assert(Seq::new(runs@.len(), |i: int| run_view(runs@[i])) =~= all);
    fold_children(runs)
}

/// The child of a step.
pub open spec fn child_of(step: Step, run: Result<WireRun, String>) -> Child {
    Child { scenario: step.scenario, backend: step.backend, run }
}

/// The children that are kept after the first `n` of some steps, where the child
/// of each came to one of `runs`.
pub open spec fn kept_after(
    steps: Seq<Step>,
    runs: Seq<Result<WireRun, String>>,
    n: int,
) -> Seq<Child>
    decreases n,
{
    if n <= 0 {
        Seq::empty()
    } else {
        let before = kept_after(steps, runs, n - 1);
        if is_last_round(steps[n - 1]) {
            children_apart(before, steps[n - 1], before.len() as int)
        } else {
            before.push(child_of(steps[n - 1], runs[n - 1]))
        }
    }
}

/// What is handed back at the step `n`.
pub open spec fn handed_back(
    steps: Seq<Step>,
    runs: Seq<Result<WireRun, String>>,
    n: int,
) -> Seq<Result<WireRun, String>> {
    let before = kept_after(steps, runs, n);
    runs_beside(before, steps[n], before.len() as int).push(runs[n])
}

/// Before the last round, every child is kept.
proof fn lemma_all_kept(steps: Seq<Step>, runs: Seq<Result<WireRun, String>>, n: int)
    requires
        0 <= n <= steps.len(),
        forall|j: int| 0 <= j < n ==> !is_last_round(#[trigger] steps[j]),
    ensures
        kept_after(steps, runs, n) == Seq::new(n as nat, |j: int| child_of(steps[j], runs[j])),
    decreases n,
{
    if n > 0 {
        lemma_all_kept(steps, runs, n - 1);
    }
    assert(kept_after(steps, runs, n) =~= Seq::new(
        n as nat,
        |j: int| child_of(steps[j], runs[j]),
    ));
}

/// Of children that alternate between two backends, every second one goes with a
/// step; the others are those of the other backend.
proof fn lemma_alternating_parts(
    children: Seq<Child>,
    runs: Seq<Result<WireRun, String>>,
    step: Step,
    b: int,
    r: int,
)
    requires
        0 <= b < 2,
        0 <= 2 * r <= children.len(),
        forall|j: int| 0 <= j < 2 * r ==> (#[trigger] children[j]).run == runs[j],
        forall|j: int| 0 <= j < 2 * r ==> (is_beside(#[trigger] children[j], step) <==> j % 2 == b),
    ensures
        runs_beside(children, step, 2 * r) == Seq::new(r as nat, |k: int| runs[2 * k + b]),
        children_apart(children, step, 2 * r) == Seq::new(
            r as nat,
            |k: int| children[2 * k + 1 - b],
        ),
    decreases r,
{
    if r > 0 {
        lemma_alternating_parts(children, runs, step, b, r - 1);
        let (x, y) = (2 * r - 2, 2 * r - 1);
        assert(x % 2 == 0 && y % 2 == 1);
        assert(is_beside(children[x], step) <==> 0 == b);
        assert(is_beside(children[y], step) <==> 1 == b);
        assert(runs_beside(children, step, y) == (if b == 0 {
            runs_beside(children, step, x).push(children[x].run)
        } else {
            runs_beside(children, step, x)
        }));
        assert(children_apart(children, step, y) == (if b == 0 {
            children_apart(children, step, x)
        } else {
            children_apart(children, step, x).push(children[x])
        }));
        assert(runs_beside(children, step, 2 * r) == (if b == 1 {
            runs_beside(children, step, x).push(children[y].run)
        } else {
            runs_beside(children, step, x).push(children[x].run)
        }));
        assert(children_apart(children, step, 2 * r) == (if b == 1 {
            children_apart(children, step, x).push(children[x])
        } else {
            children_apart(children, step, x).push(children[y])
        }));
    }
    assert(runs_beside(children, step, 2 * r) =~= Seq::new(r as nat, |k: int| runs[2 * k + b]));
    assert(children_apart(children, step, 2 * r) =~= Seq::new(
        r as nat,
        |k: int| children[2 * k + 1 - b],
    ));
}

/// Children that all go with a step leave none apart.
proof fn lemma_all_beside(children: Seq<Child>, step: Step, n: int)
    requires
        0 <= n <= children.len(),
        forall|j: int| 0 <= j < n ==> is_beside(#[trigger] children[j], step),
    ensures
        runs_beside(children, step, n) == Seq::new(n as nat, |j: int| children[j].run),
        children_apart(children, step, n).len() == 0,
    decreases n,
{
    if n > 0 {
        lemma_all_beside(children, step, n - 1);
    }
    assert(runs_beside(children, step, n) =~= Seq::new(n as nat, |j: int| children[j].run));
}

/// With both artefacts written, each backend is handed back one run for every
/// round of a scenario, in the order of the rounds, at its own last round. No run
/// of the other backend is among them, and none is left over.
pub proof fn law_children_come_back_complete(
    index: int,
    info: InfoModel,
    profile: Profile,
    runs: Seq<Result<WireRun, String>>,
    b: int,
)
    requires
        0 <= index <= usize::MAX,
        runs.len() == 2 * rounds_of(info, profile),
        0 <= b < 2,
    ensures
        ({
            let rounds = rounds_of(info, profile);
            let steps = scenario_steps(
                index,
                info,
                profile,
                seq![Backend::PmTiles, Backend::Directory],
            );
            let last = 2 * rounds - 2 + b;
            &&& steps.len() == 2 * rounds
            &&& is_last_round(steps[last])
            &&& steps[last].backend == leading_order(index)[b]
            &&& handed_back(steps, runs, last) == Seq::new(rounds, |r: int| runs[2 * r + b])
            &&& kept_after(steps, runs, 2 * rounds as int).len() == 0
        }),
{
    let rounds = rounds_of(info, profile) as int;
    let have = seq![Backend::PmTiles, Backend::Directory];
    let steps = scenario_steps(index, info, profile, have);
    let order = leading_order(index);
    law_backends_alternate(index, info, profile, rounds, 0);
    assert forall|j: int| 0 <= j < 2 * rounds implies #[trigger] steps[j] == step_of(
        index,
        info,
        profile,
        order[j % 2],
        j / 2,
    ) by {
        law_backends_alternate(index, info, profile, rounds, j);
    }
    let full = 2 * rounds - 2;
    assert forall|j: int| 0 <= j < full implies !is_last_round(#[trigger] steps[j]) by {
        assert(j / 2 < rounds - 1);
    }
    lemma_all_kept(steps, runs, full);
    let kept = kept_after(steps, runs, full);
    assert(order[0] != order[1]);
    let (s0, s1) = (steps[full], steps[full + 1]);
    assert(full % 2 == 0 && (full + 1) % 2 == 1 && full / 2 == rounds - 1 && (full + 1) / 2
        == rounds - 1);
    assert forall|j: int| 0 <= j < full implies is_beside(#[trigger] kept[j], s0) <==> j % 2
        == 0 by {
        assert(kept[j] == child_of(steps[j], runs[j]));
    }
    lemma_alternating_parts(kept, runs, s0, 0, rounds - 1);
    assert(handed_back(steps, runs, full) =~= Seq::new(rounds as nat, |r: int| runs[2 * r]));
    let left = kept_after(steps, runs, full + 1);
    assert(left == children_apart(kept, s0, full));
    assert forall|j: int| 0 <= j < left.len() implies is_beside(#[trigger] left[j], s1)
        && left[j].run == runs[2 * j + 1] by {
        assert(left[j] == kept[2 * j + 1]);
        assert(kept[2 * j + 1] == child_of(steps[2 * j + 1], runs[2 * j + 1]));
    }
    lemma_all_beside(left, s1, left.len() as int);
    assert(handed_back(steps, runs, full + 1) =~= Seq::new(
        rounds as nat,
        |r: int| runs[2 * r + 1],
    ));
}

} // verus!
