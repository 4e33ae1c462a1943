//! What a sweep keeps of its children, and what the threads of a rung come to.

use crate::storage::cells::Cell;
use crate::storage::plan::TileCoord;
use crate::storage::scenarios::concurrent_curve::{
    chunk_start, declined, first_failed, hits_of, pooled, thread_ladder, ThreadWalk,
};
use crate::storage::scenarios::facts::RowOutcome;
use crate::storage::scenarios::tileid_order::differing;
use crate::storage::splitmix::{shuffled, swapped};
use crate::storage::sweep::Step;
use crate::storage::walk::{children_apart, is_last_round, next_planned, runs_beside, Child};
use vstd::prelude::*;

verus! {

/// A child is handed back with the step that ends its scenario on its backend, and kept
/// with every other: each child goes one of the two ways, in the order they came.
pub proof fn law_child_is_handed_back_or_kept(children: Seq<Child>, step: Step, n: int)
    requires
        0 <= n < children.len(),
    ensures
        runs_beside(children, step, 0).len() == 0 && children_apart(children, step, 0).len() == 0,
        children[n].scenario == step.scenario && children[n].backend == step.backend
            ==> runs_beside(children, step, n + 1) == runs_beside(children, step, n).push(
            children[n].run,
        ) && children_apart(children, step, n + 1) == children_apart(children, step, n),
        !(children[n].scenario == step.scenario && children[n].backend == step.backend)
            ==> runs_beside(children, step, n + 1) == runs_beside(children, step, n)
            && children_apart(children, step, n + 1) == children_apart(children, step, n).push(
            children[n],
        ),
        is_last_round(step) <==> step.round + 1 >= step.rounds,
{
}

/// The threads of a rung are pooled exactly where all of them came through; the first
/// that did not is the reason.
pub proof fn law_first_failed_thread_decides(
    walks: Seq<Result<ThreadWalk, String>>,
    i: int,
    k: int,
)
    requires
        0 <= i <= walks.len(),
    ensures
        first_failed(walks, i) >= walks.len() <==> forall|j: int|
            i <= j < walks.len() ==> (#[trigger] walks[j]) is Ok,
        i <= k < walks.len() && walks[k] is Err && (forall|j: int|
            i <= j < k ==> (#[trigger] walks[j]) is Ok) ==> first_failed(walks, i) == k,
    decreases walks.len() - i,
{
    if i < walks.len() {
        law_first_failed_thread_decides(walks, i + 1, k);
        if forall|j: int| i <= j < walks.len() ==> (#[trigger] walks[j]) is Ok {
            assert(walks[i] is Ok);
        }
        if i < k < walks.len() && (forall|j: int| i <= j < k ==> (#[trigger] walks[j]) is Ok) {
            assert(walks[i] is Ok);
        }
    }
}

/// A pool holds every latency of every thread, in the order of the threads, and all
/// their hits.
pub proof fn law_pool_holds_every_latency(
    walks: Seq<Result<ThreadWalk, String>>,
    more: Seq<Result<ThreadWalk, String>>,
)
    ensures
        pooled(walks + more, (walks + more).len() as int) == pooled(walks, walks.len() as int)
            + pooled(more, more.len() as int),
        hits_of(walks + more, (walks + more).len() as int) == hits_of(walks, walks.len() as int)
            + hits_of(more, more.len() as int),
        walks.len() == 1 ==> pooled(walks, 1) == walks[0]->Ok_0.latencies@ && hits_of(walks, 1)
            == walks[0]->Ok_0.hits,
        pooled(walks, 0).len() == 0 && hits_of(walks, 0) == 0,
{
    lemma_pool(walks, more, more.len() as int);
    if walks.len() == 1 {
        assert(pooled(walks, 0) =~= Seq::empty());
        assert(hits_of(walks, 0) == 0);
        assert(hits_of(walks, 1) == hits_of(walks, 0) + walks[0]->Ok_0.hits as nat);
        assert(pooled(walks, 1) =~= walks[0]->Ok_0.latencies@);
    }
}

/// The pool of the first threads of two lists.
proof fn lemma_pool(
    walks: Seq<Result<ThreadWalk, String>>,
    more: Seq<Result<ThreadWalk, String>>,
    n: int,
)
    requires
        0 <= n <= more.len(),
    ensures
        pooled(walks + more, walks.len() + n) == pooled(walks, walks.len() as int) + pooled(
            more,
            n,
        ),
        hits_of(walks + more, walks.len() + n) == hits_of(walks, walks.len() as int) + hits_of(
            more,
            n,
        ),
    decreases n,
{
    let all = walks + more;
    if n > 0 {
        lemma_pool(walks, more, n - 1);
        assert(all[walks.len() + n - 1] == more[n - 1]);
        assert(pooled(all, walks.len() + n) =~= pooled(walks, walks.len() as int) + pooled(
            more,
            n,
        ));
    } else {
        lemma_pool_front(walks, more, walks.len() as int);
        assert(pooled(all, walks.len() + n) =~= pooled(walks, walks.len() as int) + pooled(
            more,
            n,
        ));
    }
}

/// The pool of the first threads does not see the others.
proof fn lemma_pool_front(
    walks: Seq<Result<ThreadWalk, String>>,
    more: Seq<Result<ThreadWalk, String>>,
    n: int,
)
    requires
        0 <= n <= walks.len(),
    ensures
        pooled(walks + more, n) == pooled(walks, n),
        hits_of(walks + more, n) == hits_of(walks, n),
    decreases n,
{
    if n > 0 {
        lemma_pool_front(walks, more, n - 1);
        assert((walks + more)[n - 1] == walks[n - 1]);
    }
}

/// A chunk starts where the one before it ends, the first at the start and the last at
/// the end, and the longer ones come first.
pub proof fn law_longer_chunks_come_first(n: nat, threads: nat, k: nat)
    requires
        threads > 0,
        k < threads,
    ensures
        chunk_start(n, threads, 0) == 0,
        chunk_start(n, threads, threads) == n,
        chunk_start(n, threads, k + 1) - chunk_start(n, threads, k) == n / threads + (if k < n
            % threads {
            1int
        } else {
            0
        }),
{
    let (q, r) = (n / threads, n % threads);
    assert(threads * q + r == n) by (nonlinear_arith)
        requires
            threads > 0,
            q == n / threads,
            r == n % threads,
    ;
    assert(0 * q == 0) by (nonlinear_arith);
    assert((k + 1) * q == k * q + q) by (nonlinear_arith);
    assert(r < threads);
}

/// A rung is declined exactly where it is one of the ladder and the host has fewer
/// cores, or there is nothing to walk; it is then skipped.
pub proof fn law_rung_is_declined_iff_the_host_is_small(threads: usize, ncpu: usize, empty: bool)
    ensures
        declined(threads, ncpu, empty) is Some <==> empty || (threads > ncpu && (threads == 1
            || threads == 2 || threads == 4 || threads == 8)),
        declined(threads, ncpu, empty) matches Some((outcome, _)) ==> outcome
            == RowOutcome::Skipped,
{
    let l = thread_ladder();
    assert(l[0] == 1 && l[1] == 2 && l[2] == 4 && l[3] == 8);
    if threads == 1 {
        assert(l.contains(l[0]));
    } else if threads == 2 {
        assert(l.contains(l[1]));
    } else if threads == 4 {
        assert(l.contains(l[2]));
    } else if threads == 8 {
        assert(l.contains(l[3]));
    }
}

/// The positions that a sort moves are all those at which the two orders differ, in
/// ascending order, and no other.
pub proof fn law_moved_positions_are_those_that_differ(
    a: Seq<TileCoord>,
    b: Seq<TileCoord>,
    n: int,
    i: int,
    j: int,
)
    requires
        0 <= n <= a.len(),
        0 <= n <= b.len(),
    ensures
        0 <= i < n && a[i] != b[i] ==> differing(a, b, n).contains(i),
        0 <= i < differing(a, b, n).len() ==> 0 <= differing(a, b, n)[i] < n && a[differing(
            a,
            b,
            n,
        )[i]] != b[differing(a, b, n)[i]],
        0 <= i < j < differing(a, b, n).len() ==> differing(a, b, n)[i] < differing(a, b, n)[j],
    decreases n,
{
    if n > 0 {
        law_moved_positions_are_those_that_differ(a, b, n - 1, i, j);
        let (before, all) = (differing(a, b, n - 1), differing(a, b, n));
        if 0 <= i < n - 1 && a[i] != b[i] {
            let k = choose|k: int| 0 <= k < before.len() && before[k] == i;
            assert(all[k] == i);
        } else if i == n - 1 && a[i] != b[i] {
            assert(all[all.len() - 1] == i);
        }
    }
}

/// The next cell that is walked is the first from there on with a canvas and a tile.
pub proof fn law_cell_without_a_canvas_is_passed_over(
    cells: Seq<Cell>,
    i: int,
    k: int,
)
    requires
        0 <= i <= k < cells.len(),
        cells[k].width > 0 && cells[k].height > 0 && cells[k].tile_px > 0,
        forall|j: int|
            i <= j < k ==> (#[trigger] cells[j]).width == 0 || cells[j].height == 0
                || cells[j].tile_px == 0,
    ensures
        next_planned(cells, i) == k,
    decreases k - i,
{
    if i < k {
        assert(cells[i].width == 0 || cells[i].height == 0 || cells[i].tile_px == 0);
        law_cell_without_a_canvas_is_passed_over(cells, i + 1, k);
    }
}

/// A swap exchanges two items and leaves the others; a list of one or none is not
/// shuffled.
pub proof fn law_swap_exchanges_two<T>(s: Seq<T>, i: int, j: int, k: int, seed: u64)
    requires
        0 <= i < s.len(),
        0 <= j < s.len(),
        0 <= k < s.len(),
    ensures
        swapped(s, i, j)[i] == s[j] && swapped(s, i, j)[j] == s[i],
        k != i && k != j ==> swapped(s, i, j)[k] == s[k],
        swapped(s, i, j).len() == s.len(),
        s.len() <= 1 ==> shuffled(s, seed) == s,
{
}

} // verus!
