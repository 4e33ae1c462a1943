//! The walk the archive's bytes are in: ascending tile id.
//!
//! A plan is a row-major walk and a tile id is a Hilbert index, so those are
//! different walks over one set of tiles.

use crate::storage::plan::{PyramidPlan, TileCoord};
use crate::storage::scenarios::plan_order;
use crate::storage::tile_id::{id_of, tile_id};
use vstd::prelude::*;

verus! {

/// What a coordinate is sorted by: the addressable ones by id, then the rest.
pub open spec fn sort_key(coord: TileCoord) -> (nat, nat) {
    match id_of(coord) {
        Some(id) => (0, id),
        None => (1, 0),
    }
}

/// Whether one coordinate sorts before another.
pub open spec fn sorts_before(a: TileCoord, b: TileCoord) -> bool {
    sort_key(a).0 < sort_key(b).0 || (sort_key(a).0 == sort_key(b).0 && sort_key(a).1 < sort_key(
        b,
    ).1)
}

/// `sorted` with `coord` behind every coordinate that does not sort after it.
pub open spec fn placed_in(sorted: Seq<TileCoord>, coord: TileCoord) -> Seq<TileCoord>
    decreases sorted.len(),
{
    if sorted.len() == 0 || !sorts_before(coord, sorted.last()) {
        sorted.push(coord)
    } else {
        placed_in(sorted.drop_last(), coord).push(sorted.last())
    }
}

/// The coordinates in ascending tile id; those without an id come last, in the
/// order they came in.
pub open spec fn by_tile_id(coords: Seq<TileCoord>) -> Seq<TileCoord>
    decreases coords.len(),
{
    if coords.len() == 0 {
        Seq::empty()
    } else {
        placed_in(by_tile_id(coords.drop_last()), coords.last())
    }
}

/// Where a coordinate is placed, where the position is known.
proof fn lemma_placed(sorted: Seq<TileCoord>, coord: TileCoord, at: int)
    requires
        0 <= at <= sorted.len(),
        forall|k: int| at <= k < sorted.len() ==> sorts_before(coord, #[trigger] sorted[k]),
        at > 0 ==> !sorts_before(coord, sorted[at - 1]),
    ensures
        placed_in(sorted, coord) == sorted.take(at).push(coord) + sorted.skip(at),
    decreases sorted.len() - at,
{
    if at < sorted.len() {
        let front = sorted.drop_last();
        assert forall|k: int| at <= k < front.len() implies sorts_before(
            coord,
            #[trigger] front[k],
        ) by {
            assert(front[k] == sorted[k]);
        }
        lemma_placed(front, coord, at);
        assert(sorts_before(coord, sorted[sorted.len() - 1]));
        assert(front.take(at) =~= sorted.take(at));
    }
    assert(placed_in(sorted, coord) =~= sorted.take(at).push(coord) + sorted.skip(at));
}

/// The same `n` coordinates that the plan order walks, in ascending tile id.
///
/// A coordinate without an id sorts last and keeps its place among its peers.
pub fn coordinates(plan: &PyramidPlan, n: usize) -> (out: Vec<TileCoord>)
    ensures
        out@ == by_tile_id(plan_order::first_coords(plan.levels@, n as int)),
{
    let coords: Vec<TileCoord> = plan_order::coordinates(plan, n);
    sort_by_tile_id(&coords)
}

/// Whether one sort key is below another.
fn key_below(a: Option<u64>, b: Option<u64>) -> (below: bool)
    ensures
        below == (match (a, b) {
            (Some(x), Some(y)) => x < y,
            (Some(_), None) => true,
            (None, _) => false,
        }),
{
    match (a, b) {
        (Some(x), Some(y)) => x < y,
        (Some(_), None) => true,
        (None, _) => false,
    }
}

/// The coordinates in ascending tile id.
pub fn sort_by_tile_id(coords: &Vec<TileCoord>) -> (out: Vec<TileCoord>)
    ensures
        out@ == by_tile_id(coords@),
{
    let mut out: Vec<TileCoord> = Vec::new();
    let mut ids: Vec<Option<u64>> = Vec::new();
    let mut i: usize = 0;
    assert(coords@.take(0) =~= Seq::<TileCoord>::empty());
    while i < coords.len()
        invariant
            i <= coords@.len(),
            out@ == by_tile_id(coords@.take(i as int)),
            out@.len() == i,
            ids@.len() == i,
            forall|k: int|
                0 <= k < i ==> ((#[trigger] ids@[k]) is Some <==> id_of(out@[k]) is Some) && (
                ids@[k] is Some ==> ids@[k]->0 == id_of(out@[k])->0),
        decreases coords@.len() - i,
    {
        let coord: TileCoord = coords[i];
        let id: Option<u64> = tile_id(coord);
        let ghost before = out@;
        let ghost ids_before = ids@;
        let mut at: usize = out.len();
        while at > 0 && key_below(id, ids[at - 1])
            invariant
                at <= out@.len(),
                out@ == before,
                ids@ == ids_before,
                ids@.len() == out@.len(),
                id is Some <==> id_of(coord) is Some,
                id is Some ==> id->0 == id_of(coord)->0,
                forall|k: int|
                    0 <= k < out@.len() ==> ((#[trigger] ids@[k]) is Some <==> id_of(out@[k])
                        is Some) && (ids@[k] is Some ==> ids@[k]->0 == id_of(out@[k])->0),
                forall|k: int| at <= k < out@.len() ==> sorts_before(coord, #[trigger] out@[k]),
            decreases at,
        {
            at = at - 1;
            assert(ids@[at as int] is Some <==> id_of(out@[at as int]) is Some);
        }
        out.insert(at, coord);
        ids.insert(at, id);
        proof {
            if at > 0 {
                assert(ids_before[at - 1] is Some <==> id_of(before[at - 1]) is Some);
            }
            lemma_placed(before, coord, at as int);
            assert(coords@.take(i + 1).drop_last() =~= coords@.take(i as int));
            assert(out@ =~= before.take(at as int).push(coord) + before.skip(at as int));
            assert forall|k: int| 0 <= k < i + 1 implies ((#[trigger] ids@[k]) is Some <==> id_of(
                out@[k],
            ) is Some) && (ids@[k] is Some ==> ids@[k]->0 == id_of(out@[k])->0) by {
                if k < at {
                    assert(ids@[k] == ids_before[k] && out@[k] == before[k]);
                } else if k > at {
                    assert(ids@[k] == ids_before[k - 1] && out@[k] == before[k - 1]);
                }
            }
        }
        i = i + 1;
    }
    assert(coords@.take(i as int) =~= coords@);
    out
}

/// The tile ids of a coordinate sequence, in that sequence's order. One that
/// cannot be addressed contributes `None`.
pub fn tile_ids(coords: &[TileCoord]) -> (out: Vec<Option<u64>>)
    ensures
        out@.len() == coords@.len(),
        forall|k: int|
            0 <= k < coords@.len() ==> ((#[trigger] out@[k]) is Some <==> id_of(coords@[k])
                is Some) && (out@[k] is Some ==> out@[k]->0 == id_of(coords@[k])->0),
{
    let mut out: Vec<Option<u64>> = Vec::new();
    let mut i: usize = 0;
    while i < coords.len()
        invariant
            i <= coords@.len(),
            out@.len() == i,
            forall|k: int|
                0 <= k < i ==> ((#[trigger] out@[k]) is Some <==> id_of(coords@[k]) is Some) && (
                out@[k] is Some ==> out@[k]->0 == id_of(coords@[k])->0),
        decreases coords@.len() - i,
    {
        out.push(tile_id(coords[i]));
        i = i + 1;
    }
    out
}

/// Two neighbouring positions where the sequence goes backwards in tile id.
#[derive(Debug, Clone, Copy, PartialEq, Eq, Structural)]
pub struct Inversion {
    pub index: usize,
    pub before: u64,
    pub after: u64,
}

/// Whether the sequence does not go forwards from `i - 1` to `i`, where both
/// have an id.
pub open spec fn goes_back(coords: Seq<TileCoord>, i: int) -> bool {
    &&& id_of(coords[i - 1]) is Some
    &&& id_of(coords[i]) is Some
    &&& id_of(coords[i])->0 <= id_of(coords[i - 1])->0
}

/// The first place a sequence goes backwards in tile id, if it does.
pub fn first_inversion(coords: &[TileCoord]) -> (got: Option<Inversion>)
    ensures
        got is None <==> forall|i: int| 1 <= i < coords@.len() ==> !#[trigger] goes_back(coords@, i),
        got is Some ==> {
            &&& 1 <= got->0.index < coords@.len()
            &&& goes_back(coords@, got->0.index as int)
            &&& got->0.before == id_of(coords@[got->0.index - 1])->0
            &&& got->0.after == id_of(coords@[got->0.index as int])->0
            &&& forall|i: int| 1 <= i < got->0.index ==> !#[trigger] goes_back(coords@, i)
        },
{
    let ids: Vec<Option<u64>> = tile_ids(coords);
    let mut index: usize = 1;
    while index < ids.len()
        invariant
            1 <= index,
            index <= ids@.len() || index == 1,
            ids@.len() == coords@.len(),
            forall|k: int|
                0 <= k < coords@.len() ==> ((#[trigger] ids@[k]) is Some <==> id_of(coords@[k])
                    is Some) && (ids@[k] is Some ==> ids@[k]->0 == id_of(coords@[k])->0),
            forall|i: int| 1 <= i < index ==> !#[trigger] goes_back(coords@, i),
        decreases ids@.len() - index,
    {
        assert(ids@[index - 1] is Some <==> id_of(coords@[index - 1]) is Some);
        assert(ids@[index as int] is Some <==> id_of(coords@[index as int]) is Some);
        match (ids[index - 1], ids[index]) {
            (Some(before), Some(after)) => {
                if after <= before {
                    assert(goes_back(coords@, index as int));
                    return Some(Inversion { index, before, after });
                }
            },
            _ => {},
        }
        index = index + 1;
    }
    None
}

/// Whether every step of the sequence goes forwards in tile id.
pub fn is_monotone(coords: &[TileCoord]) -> (yes: bool)
    ensures
        yes == (forall|i: int| 1 <= i < coords@.len() ==> !#[trigger] goes_back(coords@, i)),
{
    first_inversion(coords).is_none()
}

/// The positions below `n` at which two sequences differ.
pub open spec fn differing(a: Seq<TileCoord>, b: Seq<TileCoord>, n: int) -> Seq<int>
    decreases n,
{
    if n <= 0 {
        Seq::empty()
    } else if a[n - 1] != b[n - 1] {
        differing(a, b, n - 1).push(n - 1)
    } else {
        differing(a, b, n - 1)
    }
}

/// The length of the shorter of two sequences.
pub open spec fn shorter(a: Seq<TileCoord>, b: Seq<TileCoord>) -> int {
    if a.len() < b.len() {
        a.len() as int
    } else {
        b.len() as int
    }
}

/// Every position at which the two sequences hold different coordinates.
pub fn positions_the_sort_moves(plan_order: &[TileCoord], tileid_order: &[TileCoord]) -> (out: Vec<
    usize,
>)
    ensures
        crate::text::as_ints(out@) == differing(
            plan_order@,
            tileid_order@,
            shorter(plan_order@, tileid_order@),
        ),
{
    let mut out: Vec<usize> = Vec::new();
    let mut i: usize = 0;
    assert(crate::text::as_ints(out@) =~= differing(plan_order@, tileid_order@, 0));
    while i < plan_order.len() && i < tileid_order.len()
        invariant
            i <= plan_order@.len(),
            i <= tileid_order@.len(),
            crate::text::as_ints(out@) == differing(plan_order@, tileid_order@, i as int),
        decreases plan_order@.len() - i,
    {
        let ghost before = out@;
        if plan_order[i] != tileid_order[i] {
            out.push(i);
        }
        i = i + 1;
        assert(crate::text::as_ints(out@) =~= differing(plan_order@, tileid_order@, i as int));
    }
    out
}

/// One position the sort moves, with both coordinates and both tile ids.
#[derive(Debug, Clone, Copy, PartialEq, Eq, Structural)]
pub struct Probe {
    pub index: usize,
    pub in_plan_order: TileCoord,
    pub in_plan_order_tile_id: Option<u64>,
    pub in_tileid_order: TileCoord,
    pub in_tileid_order_tile_id: Option<u64>,
}

/// An id as a 64-bit number may hold it.
pub open spec fn holds_id(got: Option<u64>, coord: TileCoord) -> bool {
    (got is Some <==> id_of(coord) is Some) && (got is Some ==> got->0 == id_of(coord)->0)
}

/// The first of the differing positions.
proof fn lemma_first_differing(a: Seq<TileCoord>, b: Seq<TileCoord>, n: int)
    requires
        0 <= n <= shorter(a, b),
    ensures
        differing(a, b, n).len() == 0 ==> forall|k: int| 0 <= k < n ==> #[trigger] a[k] == b[k],
        differing(a, b, n).len() > 0 ==> {
            let first = differing(a, b, n)[0];
            0 <= first < n && a[first] != b[first] && forall|k: int|
                0 <= k < first ==> #[trigger] a[k] == b[k]
        },
    decreases n,
{
    if n > 0 {
        lemma_first_differing(a, b, n - 1);
    }
}

/// The first position the sort moves, or `None` when it moves nothing.
pub fn probe(plan_order: &[TileCoord], tileid_order: &[TileCoord]) -> (got: Option<Probe>)
    ensures
        got is None ==> forall|k: int|
            0 <= k < shorter(plan_order@, tileid_order@) ==> #[trigger] plan_order@[k]
                == tileid_order@[k],
        got is Some ==> {
            let p = got->0;
            &&& p.index < shorter(plan_order@, tileid_order@)
            &&& p.in_plan_order == plan_order@[p.index as int]
            &&& p.in_tileid_order == tileid_order@[p.index as int]
            &&& p.in_plan_order != p.in_tileid_order
            &&& holds_id(p.in_plan_order_tile_id, p.in_plan_order)
            &&& holds_id(p.in_tileid_order_tile_id, p.in_tileid_order)
            &&& forall|k: int| 0 <= k < p.index ==> #[trigger] plan_order@[k] == tileid_order@[k]
        },
{
    let moved: Vec<usize> = positions_the_sort_moves(plan_order, tileid_order);
    proof {
        lemma_first_differing(
            plan_order@,
            tileid_order@,
            shorter(plan_order@, tileid_order@),
        );
        assert(crate::text::as_ints(moved@).len() == moved@.len());
    }
    if moved.len() == 0 {
        return None;
    }
    let index: usize = moved[0];
    assert(crate::text::as_ints(moved@)[0] == index);
    Some(
        Probe {
            index,
            in_plan_order: plan_order[index],
            in_plan_order_tile_id: tile_id(plan_order[index]),
            in_tileid_order: tileid_order[index],
            in_tileid_order_tile_id: tile_id(tileid_order[index]),
        },
    )
}


/// Placing a coordinate adds it, and nothing else.
proof fn lemma_placed_items(sorted: Seq<TileCoord>, coord: TileCoord)
    ensures
        placed_in(sorted, coord).to_multiset() == sorted.to_multiset().insert(coord),
        placed_in(sorted, coord).len() == sorted.len() + 1,
    decreases sorted.len(),
{
    broadcast use vstd::seq_lib::group_to_multiset_ensures;

    if sorted.len() > 0 && sorts_before(coord, sorted.last()) {
        let front = sorted.drop_last();
        lemma_placed_items(front, coord);
        assert(front.push(sorted.last()) =~= sorted);
        assert(placed_in(sorted, coord).to_multiset() =~= sorted.to_multiset().insert(coord));
    }
}

/// Whether coordinates ascend in tile id, those without an id being last.
pub open spec fn ascends_by_id(coords: Seq<TileCoord>) -> bool {
    forall|a: int, b: int|
        0 <= a < b < coords.len() ==> !sorts_before(#[trigger] coords[b], #[trigger] coords[a])
}

/// Placing a coordinate keeps the order ascending.
proof fn lemma_placed_ascends(sorted: Seq<TileCoord>, coord: TileCoord)
    requires
        ascends_by_id(sorted),
    ensures
        ascends_by_id(placed_in(sorted, coord)),
    decreases sorted.len(),
{
    let out = placed_in(sorted, coord);
    if sorted.len() > 0 && sorts_before(coord, sorted.last()) {
        let front = sorted.drop_last();
        let last = sorted.last();
        let inner = placed_in(front, coord);
        assert forall|a: int, b: int| 0 <= a < b < front.len() implies !sorts_before(
            #[trigger] front[b],
            #[trigger] front[a],
        ) by {
            assert(front[a] == sorted[a] && front[b] == sorted[b]);
        }
        lemma_placed_ascends(front, coord);
        lemma_placed_items(front, coord);
        assert forall|a: int, b: int| 0 <= a < b < out.len() implies !sorts_before(
            #[trigger] out[b],
            #[trigger] out[a],
        ) by {
            if b < inner.len() {
                assert(out[a] == inner[a] && out[b] == inner[b]);
            } else {
                assert(out[a] == inner[a]);
                lemma_placed_from(front, coord, a);
                if inner[a] != coord {
                    let k = choose|k: int| 0 <= k < front.len() && front[k] == inner[a];
                    assert(sorted[k] == front[k]);
                    assert(!sorts_before(sorted[sorted.len() - 1], sorted[k]));
                }
            }
        }
    } else {
        assert forall|a: int, b: int| 0 <= a < b < out.len() implies !sorts_before(
            #[trigger] out[b],
            #[trigger] out[a],
        ) by {
            if b == sorted.len() && a < sorted.len() - 1 {
                assert(!sorts_before(sorted[sorted.len() - 1], sorted[a]));
            }
        }
    }
}

/// What stands in a placed sequence was there before, or is what was placed.
proof fn lemma_placed_from(sorted: Seq<TileCoord>, coord: TileCoord, i: int)
    requires
        0 <= i < placed_in(sorted, coord).len(),
    ensures
        placed_in(sorted, coord)[i] == coord || exists|k: int|
            0 <= k < sorted.len() && sorted[k] == placed_in(sorted, coord)[i],
    decreases sorted.len(),
{
    let out = placed_in(sorted, coord);
    if sorted.len() > 0 && sorts_before(coord, sorted.last()) {
        let front = sorted.drop_last();
        lemma_placed_items(front, coord);
        if i < placed_in(front, coord).len() {
            lemma_placed_from(front, coord, i);
            if out[i] != coord {
                let k = choose|k: int| 0 <= k < front.len() && front[k] == placed_in(front, coord)[i];
                assert(sorted[k] == out[i]);
            }
        } else {
            assert(sorted[sorted.len() - 1] == out[i]);
        }
    } else if i < sorted.len() {
        assert(sorted[i] == out[i]);
    }
}

/// Sorting by tile id keeps every coordinate as often as it was there, and puts
/// them in ascending order.
pub proof fn law_tile_id_order_sorts(coords: Seq<TileCoord>)
    ensures
        by_tile_id(coords).to_multiset() == coords.to_multiset(),
        by_tile_id(coords).len() == coords.len(),
        ascends_by_id(by_tile_id(coords)),
    decreases coords.len(),
{
    broadcast use vstd::seq_lib::group_to_multiset_ensures;

    if coords.len() > 0 {
        let front = coords.drop_last();
        law_tile_id_order_sorts(front);
        lemma_placed_items(by_tile_id(front), coords.last());
        lemma_placed_ascends(by_tile_id(front), coords.last());
        assert(front.push(coords.last()) =~= coords);
    } else {
        assert(coords =~= Seq::<TileCoord>::empty());
    }
}

/// Coordinates that are all different never go back once they are sorted by
/// tile id.
pub proof fn law_sorted_walk_is_monotone(coords: Seq<TileCoord>, i: int)
    requires
        coords.no_duplicates(),
        1 <= i < coords.len(),
    ensures
        !goes_back(by_tile_id(coords), i),
{
    let sorted = by_tile_id(coords);
    law_tile_id_order_sorts(coords);
    coords.lemma_multiset_has_no_duplicates();
    sorted.lemma_multiset_has_no_duplicates_conv();
    assert(!sorts_before(sorted[i], sorted[i - 1]));
    assert(sorted[i] != sorted[i - 1]);
    if goes_back(sorted, i) {
        crate::storage::tile_id::law_ids_are_distinct(sorted[i], sorted[i - 1]);
    }
}

/// Whether one coordinate is at or before another, by level, then column, then
/// row.
pub open spec fn at_or_before(a: TileCoord, b: TileCoord) -> bool {
    a.level < b.level || (a.level == b.level && (a.col < b.col || (a.col == b.col && a.row
        <= b.row)))
}

/// Whether one coordinate is at or before another.
fn is_at_or_before(a: TileCoord, b: TileCoord) -> (yes: bool)
    ensures
        yes == at_or_before(a, b),
{
    a.level < b.level || (a.level == b.level && (a.col < b.col || (a.col == b.col && a.row
        <= b.row)))
}

/// The coordinates by level, then column, then row.
fn sort_coords(coords: &[TileCoord]) -> (out: Vec<TileCoord>)
    ensures
        out@.to_multiset() == coords@.to_multiset(),
        out@.len() == coords@.len(),
        vstd::relations::sorted_by(out@, |a: TileCoord, b: TileCoord| at_or_before(a, b)),
{
    broadcast use vstd::seq_lib::group_to_multiset_ensures;

    let mut out: Vec<TileCoord> = Vec::new();
    let mut i: usize = 0;
    let ghost le = |a: TileCoord, b: TileCoord| at_or_before(a, b);
    assert(coords@.take(0) =~= out@);
    while i < coords.len()
        invariant
            i <= coords@.len(),
            le == (|a: TileCoord, b: TileCoord| at_or_before(a, b)),
            out@.len() == i,
            out@.to_multiset() == coords@.take(i as int).to_multiset(),
            forall|a: int, b: int|
                0 <= a < b < out@.len() ==> #[trigger] le(out@[a], out@[b]),
        decreases coords@.len() - i,
    {
        broadcast use vstd::seq_lib::group_to_multiset_ensures;

        let coord: TileCoord = coords[i];
        let mut at: usize = out.len();
        while at > 0 && !is_at_or_before(out[at - 1], coord)
            invariant
                at <= out@.len(),
                le == (|a: TileCoord, b: TileCoord| at_or_before(a, b)),
                forall|k: int| at <= k < out@.len() ==> le(coord, #[trigger] out@[k]),
            decreases at,
        {
            at = at - 1;
            assert(le(coord, out@[at as int]));
        }
        let ghost before = out@;
        out.insert(at, coord);
        proof {
            assert(out@ =~= before.insert(at as int, coord));
            assert forall|a: int, b: int| 0 <= a < b < out@.len() implies #[trigger] le(
                out@[a],
                out@[b],
            ) by {
                if b < at {
                    assert(le(before[a], before[b]));
                } else if b == at {
                    assert(le(before[at - 1], coord));
                    if a < at - 1 {
                        assert(le(before[a], before[at - 1]));
                    }
                } else if a < at {
                    assert(le(before[a], before[b - 1]));
                } else if a == at {
                    assert(le(coord, before[b - 1]));
                } else {
                    assert(le(before[a - 1], before[b - 1]));
                }
            }
            assert(coords@.take(i + 1) =~= coords@.take(i as int).push(coord));
            assert(out@.to_multiset() =~= coords@.take(i + 1).to_multiset());
        }
        i = i + 1;
    }
    assert(coords@.take(i as int) =~= coords@);
    out
}

/// Both walks cover exactly the same tiles.
pub fn same_multiset(plan_order: &[TileCoord], tileid_order: &[TileCoord]) -> (same: bool)
    ensures
        same == (plan_order@.to_multiset() == tileid_order@.to_multiset()),
{
    let left: Vec<TileCoord> = sort_coords(plan_order);
    let right: Vec<TileCoord> = sort_coords(tileid_order);
    let ghost le = |a: TileCoord, b: TileCoord| at_or_before(a, b);
    proof {
        if left@.to_multiset() == right@.to_multiset() {
            assert forall|x: TileCoord, y: TileCoord| #[trigger] le(x, y) && #[trigger] le(
                y,
                x,
            ) implies x == y by {}
            vstd::seq_lib::lemma_sorted_unique(left@, right@, le);
        }
    }
    if left.len() != right.len() {
        return false;
    }
    let mut i: usize = 0;
    while i < left.len()
        invariant
            i <= left@.len(),
            left@.len() == right@.len(),
            forall|k: int| 0 <= k < i ==> #[trigger] left@[k] == right@[k],
            left@.to_multiset() == plan_order@.to_multiset(),
            right@.to_multiset() == tileid_order@.to_multiset(),
            plan_order@.to_multiset() == tileid_order@.to_multiset() ==> left@ == right@,
        decreases left@.len() - i,
    {
        if left[i] != right[i] {
            return false;
        }
        i = i + 1;
    }
    assert(left@ =~= right@);
    true
}

} // verus!
