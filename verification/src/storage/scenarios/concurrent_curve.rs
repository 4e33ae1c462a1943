//! A thread ladder, not a thread count.
//!
//! The ladder is fixed, its first rung is the control, and a rung the host has
//! no cores for is skipped with a reason and stays in the document.

use crate::storage::plan::TileCoord;
use crate::storage::scenarios::facts::{
    blank_facts, info_models, is_series, no_facts, pass_info, pass_model, skip_view, Direction,
    InfoModel, MetricSpec, RowOutcome, ScenarioInfo, ScenarioRun, Series, Skip, Unit,
};
use crate::text::{concat2, concat3, decimal, decimal_text};
use vstd::prelude::*;

verus! {

/// The thread counts every sweep reports, whether or not the host can run them.
pub open spec fn thread_ladder() -> Seq<usize> {
    seq![1usize, 2usize, 4usize, 8usize]
}

/// One rung of the ladder and what this host did with it.
#[derive(Debug)]
pub struct Arm {
    pub threads: usize,
    /// `None` on a rung this host measures.
    pub skip: Option<Skip>,
}

impl Arm {
    pub fn is_ok(&self) -> (yes: bool)
        ensures
            yes == (self.skip is None),
    {
        self.skip.is_none()
    }

    /// How the rung came out.
    pub fn outcome(&self) -> (out: RowOutcome)
        ensures
            out == (match self.skip {
                None => RowOutcome::Passed,
                Some(skip) => skip.outcome,
            }),
    {
        match &self.skip {
            None => RowOutcome::Passed,
            Some(skip) => skip.outcome,
        }
    }

    /// Why the rung was declined.
    pub fn reason(&self) -> (out: Option<&str>)
        ensures
            out is Some <==> self.skip is Some,
            out is Some ==> out->0@ == self.skip->0.reason@,
    {
        match &self.skip {
            None => None,
            Some(skip) => Some(skip.reason.as_str()),
        }
    }
}

/// Why a host declines a rung.
pub open spec fn declined_text(ncpu: usize, threads: usize) -> Seq<char> {
    "this host has "@ + decimal(ncpu as nat) + " cores, so "@ + decimal(threads as nat)
        + " threads would measure oversubscription rather than concurrency"@
}

/// Whether an arm is the rung of this many threads on a host of this many
/// cores.
pub open spec fn is_rung(arm: Arm, ncpu: usize, threads: usize) -> bool {
    &&& arm.threads == threads
    &&& arm.skip is Some <==> threads > ncpu
    &&& arm.skip matches Some(skip) ==> skip.outcome == RowOutcome::Skipped && skip.reason@
        == declined_text(ncpu, threads)
}

/// The rung of this many threads on a host of this many cores.
pub fn rung(ncpu: usize, threads: usize) -> (arm: Arm)
    ensures
        is_rung(arm, ncpu, threads),
{
    if threads > ncpu {
        let mut text: String = concat3(
            "this host has ",
            decimal_text(ncpu as u128).as_str(),
            " cores, so ",
        );
        text.append(decimal_text(threads as u128).as_str());
        text.append(" threads would measure oversubscription rather than concurrency");
        Arm { threads, skip: Some(Skip::skipped(text)) }
    } else {
        Arm { threads, skip: None }
    }
}

/// Every rung, in order, with the ones above `ncpu` marked skipped. Every
/// element of the ladder comes back.
pub fn ladder(ncpu: usize) -> (out: Vec<Arm>)
    ensures
        out@.len() == thread_ladder().len(),
        forall|i: int|
            0 <= i < out@.len() ==> is_rung(#[trigger] out@[i], ncpu, thread_ladder()[i]),
{
    let mut out: Vec<Arm> = Vec::new();
    out.push(rung(ncpu, 1));
    out.push(rung(ncpu, 2));
    out.push(rung(ncpu, 4));
    out.push(rung(ncpu, 8));
    out
}

/// Where the chunk `k` of `n` items starts, when they are split into `threads`
/// chunks of which the first take one item more where they do not come out even.
pub open spec fn chunk_start(n: nat, threads: nat, k: nat) -> nat {
    let remainder = n % threads;
    k * (n / threads) + (if k < remainder {
        k
    } else {
        remainder
    })
}

/// The last chunk ends where the items do.
proof fn lemma_chunks_cover(n: nat, threads: nat)
    requires
        threads > 0,
    ensures
        chunk_start(n, threads, 0) == 0,
        chunk_start(n, threads, threads) == n,
{
    assert(0 * (n / threads) == 0);
    assert(threads * (n / threads) + n % threads == n) by (nonlinear_arith)
        requires
            threads > 0,
    ;
    assert(n % threads < threads) by (nonlinear_arith)
        requires
            threads > 0,
    ;
}

/// A chunk is as long as the quotient, or one longer.
proof fn lemma_chunk_length(n: nat, threads: nat, k: nat)
    requires
        threads > 0,
        k < threads,
    ensures
        chunk_start(n, threads, k + 1) == chunk_start(n, threads, k) + n / threads + (if k < n
            % threads {
            1nat
        } else {
            0
        }),
        chunk_start(n, threads, k + 1) <= n,
{
    let q = n / threads;
    assert((k + 1) * q == k * q + q) by (nonlinear_arith);
    lemma_chunks_cover(n, threads);
    assert((k + 1) * q <= threads * q) by (nonlinear_arith)
        requires
            k + 1 <= threads,
    ;
}

/// Split a coordinate set into `threads` contiguous chunks, whose concatenation
/// is the whole sequence.
pub fn chunks<'a>(coords: &'a [TileCoord], threads: usize) -> (out: Vec<&'a [TileCoord]>)
    requires
        threads >= 1,
    ensures
        out@.len() == threads,
        forall|k: int|
            0 <= k < threads ==> (#[trigger] out@[k])@ == coords@.subrange(
                chunk_start(coords@.len(), threads as nat, k as nat) as int,
                chunk_start(coords@.len(), threads as nat, (k + 1) as nat) as int,
            ),
{
    let total: usize = coords.len();
    let base: usize = total / threads;
    let remainder: usize = total % threads;
    let mut out: Vec<&'a [TileCoord]> = Vec::new();
    let mut at: usize = 0;
    let mut index: usize = 0;
    let ghost n = coords@.len();
    proof {
        lemma_chunks_cover(n, threads as nat);
    }
    while index < threads
        invariant
            index <= threads,
            threads >= 1,
            n == coords@.len() == total,
            base == n / threads as nat,
            remainder == n % threads as nat,
            at == chunk_start(n, threads as nat, index as nat),
            at <= coords@.len(),
            out@.len() == index,
            forall|k: int|
                0 <= k < index ==> (#[trigger] out@[k])@ == coords@.subrange(
                    chunk_start(n, threads as nat, k as nat) as int,
                    chunk_start(n, threads as nat, (k + 1) as nat) as int,
                ),
        decreases threads - index,
    {
        proof {
            lemma_chunk_length(n, threads as nat, index as nat);
        }
        let take: usize = if index < remainder {
            base + 1
        } else {
            base
        };
        let piece: &'a [TileCoord] = vstd::slice::slice_subrange(coords, at, at + take);
        out.push(piece);
        at = at + take;
        index = index + 1;
    }
    out
}

/// The first `k` chunks, one behind the other.
pub open spec fn chunks_joined(coords: Seq<TileCoord>, threads: nat, k: nat) -> Seq<TileCoord>
    decreases k,
{
    if k == 0 {
        Seq::empty()
    } else {
        chunks_joined(coords, threads, (k - 1) as nat) + coords.subrange(
            chunk_start(coords.len(), threads, (k - 1) as nat) as int,
            chunk_start(coords.len(), threads, k) as int,
        )
    }
}

/// The chunks, one behind the other, are the sequence that was split, and no two
/// of them differ by more than one item in length.
pub proof fn law_chunks_are_the_sequence(coords: Seq<TileCoord>, threads: nat, k: nat, j: nat)
    requires
        threads > 0,
        k < threads,
        j < threads,
    ensures
        chunks_joined(coords, threads, threads) == coords,
        chunk_start(coords.len(), threads, k + 1) - chunk_start(coords.len(), threads, k)
            <= chunk_start(coords.len(), threads, j + 1) - chunk_start(coords.len(), threads, j)
            + 1,
{
    lemma_chunks_joined(coords, threads, threads);
    lemma_chunks_cover(coords.len(), threads);
    lemma_chunk_length(coords.len(), threads, k);
    lemma_chunk_length(coords.len(), threads, j);
    assert(coords.take(coords.len() as int) =~= coords);
}

/// The first chunks are the start of the sequence.
proof fn lemma_chunks_joined(coords: Seq<TileCoord>, threads: nat, k: nat)
    requires
        threads > 0,
        k <= threads,
    ensures
        chunks_joined(coords, threads, k) == coords.take(
            chunk_start(coords.len(), threads, k) as int,
        ),
        chunk_start(coords.len(), threads, k) <= coords.len(),
    decreases k,
{
    lemma_chunks_cover(coords.len(), threads);
    if k > 0 {
        lemma_chunks_joined(coords, threads, (k - 1) as nat);
        lemma_chunk_length(coords.len(), threads, (k - 1) as nat);
        assert(chunks_joined(coords, threads, k) =~= coords.take(
            chunk_start(coords.len(), threads, k) as int,
        ));
    } else {
        assert(chunks_joined(coords, threads, k) =~= coords.take(0));
    }
}

/// What one thread of an arm found: how many of its lookups hit, and in how many
/// nanoseconds each came back.
#[derive(Debug)]
pub struct ThreadWalk {
    pub latencies: Vec<u64>,
    pub hits: u64,
}

/// What an arm found, from what its threads did.
#[derive(Debug)]
pub struct ArmWalk {
    /// Every per-lookup latency, pooled across the threads.
    pub latencies: Vec<u64>,
    pub hits: u64,
}

/// The first thread from `i` on that failed, or their number.
pub open spec fn first_failed(walks: Seq<Result<ThreadWalk, String>>, i: int) -> int
    decreases walks.len() - i,
{
    if 0 <= i < walks.len() && walks[i] is Ok {
        first_failed(walks, i + 1)
    } else {
        i
    }
}

/// The latencies of the first `n` threads, pooled.
pub open spec fn pooled(walks: Seq<Result<ThreadWalk, String>>, n: int) -> Seq<u64>
    decreases n,
{
    if n <= 0 {
        Seq::empty()
    } else {
        pooled(walks, n - 1) + walks[n - 1]->Ok_0.latencies@
    }
}

/// The hits of the first `n` threads.
pub open spec fn hits_of(walks: Seq<Result<ThreadWalk, String>>, n: int) -> nat
    decreases n,
{
    if n <= 0 {
        0
    } else {
        hits_of(walks, n - 1) + walks[n - 1]->Ok_0.hits as nat
    }
}

/// More threads have no fewer hits.
proof fn lemma_hits_grow(walks: Seq<Result<ThreadWalk, String>>, m: int, n: int)
    requires
        m <= n,
    ensures
        hits_of(walks, m) <= hits_of(walks, n),
    decreases n - m,
{
    if m < n {
        lemma_hits_grow(walks, m, n - 1);
    }
}

/// The first thread that failed stands among the threads, or there is none.
proof fn lemma_first_failed(walks: Seq<Result<ThreadWalk, String>>, i: int)
    requires
        0 <= i <= walks.len(),
    ensures
        i <= first_failed(walks, i) <= walks.len(),
    decreases walks.len() - i,
{
    if i < walks.len() && walks[i] is Ok {
        lemma_first_failed(walks, i + 1);
    }
}

/// Pool what the threads of an arm found, in the order of their chunks; the
/// first thread that failed fails the arm.
pub fn pool(walks: &Vec<Result<ThreadWalk, String>>) -> (got: Result<ArmWalk, String>)
    requires
        hits_of(walks@, first_failed(walks@, 0)) <= u64::MAX,
    ensures
        got is Ok <==> first_failed(walks@, 0) >= walks@.len(),
        got is Err ==> got->Err_0@ == walks@[first_failed(walks@, 0)]->Err_0@,
        got is Ok ==> got->Ok_0.latencies@ == pooled(walks@, walks@.len() as int),
        got is Ok ==> got->Ok_0.hits == hits_of(walks@, walks@.len() as int),
{
    let mut latencies: Vec<u64> = Vec::new();
    let mut hits: u64 = 0;
    let mut i: usize = 0;
    while i < walks.len()
        invariant
            i <= walks@.len(),
            first_failed(walks@, 0) == first_failed(walks@, i as int),
            latencies@ == pooled(walks@, i as int),
            hits == hits_of(walks@, i as int),
            hits_of(walks@, first_failed(walks@, 0)) <= u64::MAX,
        decreases walks@.len() - i,
    {
        let one: &ThreadWalk = match &walks[i] {
            Ok(one) => one,
            Err(e) => {
                return Err(e.clone());
            },
        };
        proof {
            lemma_first_failed(walks@, i + 1);
            lemma_hits_grow(walks@, i + 1, first_failed(walks@, 0));
        }
        let ghost before = latencies@;
        let mut k: usize = 0;
        assert(latencies@ =~= before + one.latencies@.take(0));
        while k < one.latencies.len()
            invariant
                k <= one.latencies@.len(),
                latencies@ == before + one.latencies@.take(k as int),
            decreases one.latencies@.len() - k,
        {
            latencies.push(one.latencies[k]);
            k = k + 1;
            assert(latencies@ =~= before + one.latencies@.take(k as int));
        }
        assert(one.latencies@.take(k as int) =~= one.latencies@);
        hits = hits + one.hits;
        i = i + 1;
    }
    Ok(ArmWalk { latencies, hits })
}

/// The name of a rung of the thread ladder.
pub open spec fn rung_name(threads: nat) -> Seq<char> {
    "read_concurrent@"@ + decimal(threads)
}

/// What a rung of the thread ladder declares.
pub open spec fn rung_model(threads: usize) -> InfoModel {
    InfoModel {
        threads,
        ..pass_model(
            rung_name(threads as nat),
            "lookups_per_s"@,
            Unit::PerSecond,
            Direction::HigherIsBetter,
        )
    }
}

/// `read_concurrent@T`: one rung of the ladder.
#[derive(Debug, Clone, Copy)]
pub struct Concurrent {
    pub threads: usize,
}

impl Concurrent {
    /// What the scenario declares.
    pub fn info(&self) -> (info: ScenarioInfo)
        ensures
            info@ == rung_model(self.threads),
    {
        let mut info: ScenarioInfo = pass_info(
            concat2("read_concurrent@", decimal_text(self.threads as u128).as_str()),
            "lookups_per_s",
            Unit::PerSecond,
            Direction::HigherIsBetter,
        );
        info.threads = self.threads;
        info
    }
}

/// Every rung, in ladder order.
pub fn all() -> (out: Vec<ScenarioInfo>)
    ensures
        info_models(out@) == seq![rung_model(1), rung_model(2), rung_model(4), rung_model(8)],
{
    let mut out: Vec<ScenarioInfo> = Vec::new();
    out.push((Concurrent { threads: 1 }).info());
    out.push((Concurrent { threads: 2 }).info());
    out.push((Concurrent { threads: 4 }).info());
    out.push((Concurrent { threads: 8 }).info());
    assert(info_models(out@) =~= seq![rung_model(1), rung_model(2), rung_model(4), rung_model(8)]);
    out
}

/// What one pass of a rung came to, as the bits of floats. The rate is missing
/// where the pass took no measurable time, the median where no lookup was timed.
#[derive(Debug, Clone, Copy)]
pub struct ArmFigures {
    pub rate: Option<u64>,
    pub p50: Option<u64>,
}

/// Why a pass that is thrown away ends the rung.
pub open spec fn warmup_fault(passes: Seq<Result<ArmFigures, String>>, i: int) -> Option<Seq<char>>
    decreases passes.len() - i,
{
    if 0 <= i < passes.len() {
        match passes[i] {
            Err(e) => Some(e@),
            Ok(_) => warmup_fault(passes, i + 1),
        }
    } else {
        None
    }
}

/// Why a timed pass ends the rung.
pub open spec fn arm_fault(passes: Seq<Result<ArmFigures, String>>, i: int) -> Option<Seq<char>>
    decreases passes.len() - i,
{
    if 0 <= i < passes.len() {
        match passes[i] {
            Err(e) => Some(e@),
            Ok(p) => if p.rate is None {
                Some("a pass took no measurable time"@)
            } else if p.p50 is None {
                Some("a pass produced no latencies"@)
            } else {
                arm_fault(passes, i + 1)
            },
        }
    } else {
        None
    }
}

/// Why a rung is declined before anything is opened, if it is: the host has no
/// cores for it, or there is nothing to walk.
pub open spec fn declined(threads: usize, ncpu: usize, empty: bool) -> Option<
    (RowOutcome, Seq<char>),
> {
    if thread_ladder().contains(threads) && threads > ncpu {
        Some((RowOutcome::Skipped, declined_text(ncpu, threads)))
    } else if empty {
        Some((RowOutcome::Skipped, "the cell has no coordinates to walk"@))
    } else {
        None
    }
}

/// Why a rung did not come about, if it did not.
pub open spec fn rung_skip(
    threads: usize,
    ncpu: usize,
    empty: bool,
    opened: Result<(), String>,
    warmups: Seq<Result<ArmFigures, String>>,
    passes: Seq<Result<ArmFigures, String>>,
) -> Option<(RowOutcome, Seq<char>)> {
    if declined(threads, ncpu, empty) is Some {
        declined(threads, ncpu, empty)
    } else {
        match opened {
            Err(e) => Some((RowOutcome::Failed, e@)),
            Ok(_) => match (warmup_fault(warmups, 0), arm_fault(passes, 0)) {
                (Some(reason), _) => Some((RowOutcome::Failed, reason)),
                (None, Some(reason)) => Some((RowOutcome::Failed, reason)),
                (None, None) => None,
            },
        }
    }
}

/// The rates of the first `n` passes that were thrown away.
pub open spec fn thrown_away(warmups: Seq<Result<ArmFigures, String>>, n: int) -> Seq<u64>
    decreases n,
{
    if n <= 0 {
        Seq::empty()
    } else {
        match warmups[n - 1]->Ok_0.rate {
            Some(rate) => thrown_away(warmups, n - 1).push(rate),
            None => thrown_away(warmups, n - 1),
        }
    }
}

/// Whether a run is what these passes of a rung came to.
pub open spec fn is_rung_run(
    run: ScenarioRun,
    warmups: Seq<Result<ArmFigures, String>>,
    passes: Seq<Result<ArmFigures, String>>,
) -> bool {
    &&& run.series@.len() == 2
    &&& is_series(
        run.series@[0],
        "lookups_per_s"@,
        Unit::PerSecond,
        Direction::HigherIsBetter,
        Seq::new(passes.len(), |i: int| passes[i]->Ok_0.rate->0),
    )
    &&& is_series(
        run.series@[1],
        "p50"@,
        Unit::Microseconds,
        Direction::LowerIsBetter,
        Seq::new(passes.len(), |i: int| passes[i]->Ok_0.p50->0),
    )
    &&& no_facts(run.reps@, passes.len())
    &&& run.discarded_warmup@ == thrown_away(warmups, warmups.len() as int)
    &&& run.peak_rss_bytes is None
    &&& run.heap_peak_bytes is None
}

/// The rates of the passes that were thrown away, or the first failure.
fn discard(warmups: &Vec<Result<ArmFigures, String>>) -> (got: Result<Vec<u64>, Skip>)
    ensures
        got is Ok <==> warmup_fault(warmups@, 0) is None,
        got is Ok ==> got->Ok_0@ == thrown_away(warmups@, warmups@.len() as int),
        got is Err ==> skip_view(got->Err_0) == (
            RowOutcome::Failed,
            warmup_fault(warmups@, 0)->0,
        ),
{
    let mut out: Vec<u64> = Vec::new();
    let mut i: usize = 0;
    while i < warmups.len()
        invariant
            i <= warmups@.len(),
            warmup_fault(warmups@, 0) == warmup_fault(warmups@, i as int),
            out@ == thrown_away(warmups@, i as int),
        decreases warmups@.len() - i,
    {
        match &warmups[i] {
            Err(e) => {
                return Err(Skip::failed(e.clone()));
            },
            Ok(p) => {
                if let Some(rate) = p.rate {
                    out.push(rate);
                }
            },
        }
        i = i + 1;
    }
    Ok(out)
}

/// The rates and the medians of the timed passes, or the first failure.
fn timed(passes: &Vec<Result<ArmFigures, String>>) -> (got: Result<(Vec<u64>, Vec<u64>), Skip>)
    ensures
        got is Ok <==> arm_fault(passes@, 0) is None,
        got is Ok ==> (got->Ok_0).0@ == Seq::new(
            passes@.len(),
            |i: int| passes@[i]->Ok_0.rate->0,
        ),
        got is Ok ==> (got->Ok_0).1@ == Seq::new(
            passes@.len(),
            |i: int| passes@[i]->Ok_0.p50->0,
        ),
        got is Err ==> skip_view(got->Err_0) == (RowOutcome::Failed, arm_fault(passes@, 0)->0),
{
    let ghost all = passes@;
    let mut rates: Vec<u64> = Vec::new();
    let mut p50s: Vec<u64> = Vec::new();
    let mut i: usize = 0;
    while i < passes.len()
        invariant
            i <= passes@.len(),
            all == passes@,
            arm_fault(all, 0) == arm_fault(all, i as int),
            rates@.len() == i && p50s@.len() == i,
            forall|k: int| 0 <= k < i ==> #[trigger] rates@[k] == all[k]->Ok_0.rate->0,
            forall|k: int| 0 <= k < i ==> #[trigger] p50s@[k] == all[k]->Ok_0.p50->0,
        decreases passes@.len() - i,
    {
        match &passes[i] {
            Err(e) => {
                return Err(Skip::failed(e.clone()));
            },
            Ok(p) => match (p.rate, p.p50) {
                (None, _) => {
                    return Err(Skip::failed("a pass took no measurable time".to_owned()));
                },
                (Some(_), None) => {
                    return Err(Skip::failed("a pass produced no latencies".to_owned()));
                },
                (Some(rate), Some(p50)) => {
                    rates.push(rate);
                    p50s.push(p50);
                },
            },
        }
        i = i + 1;
    }
    assert(rates@ =~= Seq::new(all.len(), |k: int| all[k]->Ok_0.rate->0));
    assert(p50s@ =~= Seq::new(all.len(), |k: int| all[k]->Ok_0.p50->0));
    Ok((rates, p50s))
}

impl Concurrent {
    /// Whether the rung is declined on this host before anything is opened.
    pub fn decline(&self, ncpu: usize, coords: &Vec<TileCoord>) -> (got: Option<Skip>)
        ensures
            got is Some <==> declined(self.threads, ncpu, coords@.len() == 0) is Some,
            got is Some ==> skip_view(got->0) == declined(
                self.threads,
                ncpu,
                coords@.len() == 0,
            )->0,
    {
        proof {
            let l = thread_ladder();
            assert(l[0] == 1 && l[1] == 2 && l[2] == 4 && l[3] == 8);
        }
        if self.threads == 1 || self.threads == 2 || self.threads == 4 || self.threads == 8 {
            if let Some(skip) = rung(ncpu, self.threads).skip {
                return Some(skip);
            }
        }
        if coords.len() == 0 {
            return Some(Skip::skipped("the cell has no coordinates to walk".to_owned()));
        }
        None
    }

    /// What the passes of the rung come to. The first failure decides.
    pub fn run(
        &self,
        ncpu: usize,
        coords: &Vec<TileCoord>,
        opened: Result<(), String>,
        warmups: &Vec<Result<ArmFigures, String>>,
        passes: &Vec<Result<ArmFigures, String>>,
    ) -> (got: Result<ScenarioRun, Skip>)
        ensures
            ({
                let skip = rung_skip(
                    self.threads,
                    ncpu,
                    coords@.len() == 0,
                    opened,
                    warmups@,
                    passes@,
                );
                &&& got is Ok <==> skip is None
                &&& got is Err ==> skip_view(got->Err_0) == skip->0
            }),
            got is Ok ==> is_rung_run(got->Ok_0, warmups@, passes@),
    {
        if let Some(skip) = self.decline(ncpu, coords) {
            return Err(skip);
        }
        if let Err(e) = opened {
            return Err(Skip::failed(e));
        }
        let discarded: Vec<u64> = match discard(warmups) {
            Ok(d) => d,
            Err(skip) => {
                return Err(skip);
            },
        };
        let (rates, p50s) = match timed(passes) {
            Ok(both) => both,
            Err(skip) => {
                return Err(skip);
            },
        };
        let mut series: Vec<Series> = Vec::new();
        series.push(
            Series {
                metric: MetricSpec {
                    name: "lookups_per_s",
                    unit: Unit::PerSecond,
                    direction: Direction::HigherIsBetter,
                },
                samples: rates,
            },
        );
        series.push(
            Series {
                metric: MetricSpec {
                    name: "p50",
                    unit: Unit::Microseconds,
                    direction: Direction::LowerIsBetter,
                },
                samples: p50s,
            },
        );
        Ok(
            ScenarioRun {
                series,
                reps: blank_facts(passes.len()),
                discarded_warmup: discarded,
                peak_rss_bytes: None,
                heap_peak_bytes: None,
            },
        )
    }
}

} // verus!
