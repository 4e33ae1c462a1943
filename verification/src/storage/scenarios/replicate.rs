//! One cell, measured through the whole sweep.
//!
//! The control is placed once before the first cell and once after every other
//! cell. Back to back it would see none of the drift it is there to catch. That
//! rule also fixes the count: one placement more than there are other cells.

pub use crate::storage::scenarios::floors::{
    block, block_for_cell, Dispersion, ReplicateBlock,
};

use vstd::prelude::*;
use vstd::std_specs::cmp::PartialEqSpec;

verus! {

/// The fewest placements a published floor may rest on.
pub const MIN_REPLICATE_REPS: usize = 5;

/// What the document calls the estimator behind the floor.
pub const ESTIMATOR: &'static str = "t-prediction-interval-over-placement-medians";

/// The control before the first of `rest`, and after every one of them.
pub open spec fn scheduled<T>(control: T, rest: Seq<T>) -> Seq<T>
    decreases rest.len(),
{
    if rest.len() == 0 {
        seq![control]
    } else {
        scheduled(control, rest.drop_last()).push(rest.last()).push(control)
    }
}

/// Put the control before the first cell and after every other one. The rest
/// keeps its order.
pub fn schedule<T: Copy>(replicate: T, rest: &[T]) -> (out: Vec<T>)
    ensures
        out@ == scheduled(replicate, rest@),
{
    let mut out: Vec<T> = Vec::new();
    out.push(replicate);
    let mut i: usize = 0;
    assert(rest@.take(0) =~= Seq::<T>::empty());
    assert(out@ =~= scheduled(replicate, rest@.take(0)));
    while i < rest.len()
        invariant
            i <= rest@.len(),
            out@ == scheduled(replicate, rest@.take(i as int)),
        decreases rest@.len() - i,
    {
        assert(rest@.take(i + 1).drop_last() =~= rest@.take(i as int));
        out.push(rest[i]);
        out.push(replicate);
        i = i + 1;
    }
    assert(rest@.take(i as int) =~= rest@);
    out
}

/// The schedule has one place more than twice the cells. Every second place,
/// from the first to the last, is the control; between them stand the cells, in
/// their order.
pub proof fn law_schedule_alternates<T>(control: T, rest: Seq<T>)
    ensures
        scheduled(control, rest).len() == 2 * rest.len() + 1,
        forall|i: int|
            0 <= i <= rest.len() ==> #[trigger] scheduled(control, rest)[2 * i] == control,
        forall|i: int|
            0 <= i < rest.len() ==> scheduled(control, rest)[2 * i + 1] == #[trigger] rest[i],
    decreases rest.len(),
{
    if rest.len() > 0 {
        let front = rest.drop_last();
        let before = scheduled(control, front);
        let all = scheduled(control, rest);
        law_schedule_alternates(control, front);
        assert forall|i: int| 0 <= i <= rest.len() implies #[trigger] all[2 * i] == control by {
            if i < rest.len() {
                assert(all[2 * i] == before[2 * i]);
            }
        }
        assert forall|i: int| 0 <= i < rest.len() implies all[2 * i + 1] == #[trigger] rest[i] by {
            if i < front.len() {
                assert(front[i] == rest[i]);
                assert(all[2 * i + 1] == before[2 * i + 1]);
            }
        }
    }
}

/// How many of the first `n` places hold the control.
pub open spec fn placed<T>(schedule: Seq<T>, control: T, n: int) -> nat
    decreases n,
{
    if n <= 0 {
        0
    } else {
        placed(schedule, control, n - 1) + (if schedule[n - 1] == control {
            1nat
        } else {
            0
        })
    }
}

/// What `==` has to mean for a schedule to be searched by it.
pub open spec fn compares<T: PartialEq>() -> bool {
    &&& T::obeys_eq_spec()
    &&& forall|a: T, b: T| #[trigger] a.eq_spec(&b) <==> a == b
}

/// How many times a schedule measures the control.
pub fn placements<T: Copy + PartialEq>(schedule: &[T], replicate: T) -> (n: usize)
    requires
        compares::<T>(),
    ensures
        n == placed(schedule@, replicate, schedule@.len() as int),
{
    let mut n: usize = 0;
    let mut i: usize = 0;
    while i < schedule.len()
        invariant
            compares::<T>(),
            i <= schedule@.len(),
            n <= i,
            n == placed(schedule@, replicate, i as int),
        decreases schedule@.len() - i,
    {
        if schedule[i] == replicate {
            n = n + 1;
        }
        i = i + 1;
    }
    n
}

/// Whether a schedule ever measures the control twice in a row.
pub fn has_adjacent_placements<T: Copy + PartialEq>(schedule: &[T], replicate: T) -> (yes: bool)
    requires
        compares::<T>(),
    ensures
        yes == (exists|i: int|
            0 <= i < schedule@.len() - 1 && #[trigger] schedule@[i] == replicate && schedule@[i + 1]
                == replicate),
{
    let mut i: usize = 1;
    while i < schedule.len()
        invariant
            compares::<T>(),
            1 <= i,
            i <= schedule@.len() || i == 1,
            forall|k: int|
                0 <= k < i - 1 ==> !(#[trigger] schedule@[k] == replicate && schedule@[k + 1]
                    == replicate),
        decreases schedule@.len() - i,
    {
        if schedule[i - 1] == replicate && schedule[i] == replicate {
            assert(schedule@[i - 1] == replicate);
            return true;
        }
        i = i + 1;
    }
    false
}

/// Whether a schedule really measures `replicate` at both ends.
pub fn measured_first_and_last<T: Copy + PartialEq>(schedule: &[T], replicate: T) -> (yes: bool)
    requires
        compares::<T>(),
    ensures
        yes == (schedule@.len() >= 2 && schedule@[0] == replicate && schedule@.last()
            == replicate),
{
    schedule.len() >= 2 && schedule[0] == replicate && schedule[schedule.len() - 1] == replicate
}

/// The control is placed once more than there are cells, and never twice in a
/// row, where it is none of them.
pub proof fn law_schedule_places_the_control<T>(control: T, rest: Seq<T>)
    requires
        !rest.contains(control),
    ensures
        placed(scheduled(control, rest), control, 2 * rest.len() as int + 1) == rest.len() + 1,
        forall|i: int|
            0 <= i < scheduled(control, rest).len() - 1 ==> !(#[trigger] scheduled(
                control,
                rest,
            )[i] == control && scheduled(control, rest)[i + 1] == control),
{
    let all = scheduled(control, rest);
    law_schedule_alternates(control, rest);
    lemma_placed_in_schedule(control, rest, rest.len() as int);
    assert forall|i: int| 0 <= i < all.len() - 1 implies !(#[trigger] all[i] == control && all[i
        + 1] == control) by {
        let k = i / 2;
        assert(rest.contains(rest[k]));
        if i % 2 == 0 {
            assert(all[2 * k + 1] == rest[k]);
        } else {
            assert(all[2 * k + 1] == rest[k]);
        }
    }
}

/// The control among the first places of a schedule.
proof fn lemma_placed_in_schedule<T>(control: T, rest: Seq<T>, n: int)
    requires
        !rest.contains(control),
        0 <= n <= rest.len(),
    ensures
        placed(scheduled(control, rest), control, 2 * n + 1) == n + 1,
    decreases n,
{
    let all = scheduled(control, rest);
    law_schedule_alternates(control, rest);
    if n > 0 {
        lemma_placed_in_schedule(control, rest, n - 1);
        assert(rest.contains(rest[n - 1]));
        assert(all[2 * (n - 1) + 1] == rest[n - 1]);
        assert(all[2 * n] == control);
        assert(placed(all, control, 2 * n) == placed(all, control, 2 * n - 1));
    } else {
        assert(all[2 * n] == control);
        assert(placed(all, control, 0) == 0);
    }
}

} // verus!
