//! The walk a plan describes: level, then row, then column.

use crate::storage::plan::{
    coordinates as all_coordinates, coords_of, LevelPlan, PyramidPlan, TileCoord,
};
use vstd::prelude::*;

verus! {

/// The first `n` coordinates of the levels, or all of them where they are fewer.
pub open spec fn first_coords(levels: Seq<LevelPlan>, n: int) -> Seq<TileCoord> {
    let all = coords_of(levels);
    if n < all.len() {
        all.take(n)
    } else {
        all
    }
}

/// The first `n` coordinates the plan covers, in level then row then column
/// order; a caller that asks for more than there are gets them all.
pub fn coordinates(plan: &PyramidPlan, n: usize) -> (out: Vec<TileCoord>)
    ensures
        out@ == first_coords(plan.levels@, n as int),
{
    let mut all: Vec<TileCoord> = all_coordinates(plan);
    let ghost every = all@;
    all.truncate(n);
    assert(all@ =~= first_coords(plan.levels@, n as int));
    all
}

} // verus!
