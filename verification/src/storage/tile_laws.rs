//! How the curve through a level's tiles runs, and the order that it gives a walk.

use crate::storage::plan::TileCoord;
use crate::storage::scenarios::tileid_order::{
    ascends_by_id, by_tile_id, law_tile_id_order_sorts, sorts_before,
};
use crate::storage::tile_id::{
    hilbert, id_of, is_addressable, lemma_first_id_bound, lemma_hilbert_bound,
    lemma_hilbert_distinct, lemma_two_to_grows, two_to,
};
use vstd::prelude::*;

verus! {

/// Whether two places are next to each other.
pub open spec fn next_door(x: int, y: int, p: int, q: int) -> bool {
    (x == p && (y == q + 1 || q == y + 1)) || (y == q && (x == p + 1 || p == x + 1))
}

/// Where the curve starts and where it ends.
proof fn lemma_ends(zoom: nat)
    ensures
        two_to(zoom) > 0,
        hilbert(zoom, 0, 0) == 0,
        hilbert(zoom, (two_to(zoom) - 1) as nat, 0) == two_to(zoom) * two_to(zoom) - 1,
    decreases zoom,
{
    lemma_two_to_grows(0, zoom);
    if zoom > 0 {
        let below = (zoom - 1) as nat;
        let s = two_to(below);
        lemma_ends(below);
        assert((2 * s) * (2 * s) == 4 * (s * s)) by (nonlinear_arith);
    } else {
        assert(two_to(0) == 1);
    }
}

/// One step along the curve is one step across the level.
proof fn lemma_step(zoom: nat, x: nat, y: nat, p: nat, q: nat)
    requires
        x < two_to(zoom),
        y < two_to(zoom),
        p < two_to(zoom),
        q < two_to(zoom),
        hilbert(zoom, p, q) == hilbert(zoom, x, y) + 1,
    ensures
        next_door(x as int, y as int, p as int, q as int),
    decreases zoom,
{
    if zoom > 0 {
        let below = (zoom - 1) as nat;
        let s = two_to(below);
        lemma_ends(below);
        let (u, v) = lemma_turned(zoom, x, y);
        let (k, l) = lemma_turned(zoom, p, q);
        lemma_hilbert_bound(below, u, v);
        lemma_hilbert_bound(below, k, l);
        let a = quarter(s, x, y);
        let b = quarter(s, p, q);
        let n = s * s;
        if a == b {
            lemma_step(below, u, v, k, l);
        } else {
            assert(b == a + 1 && hilbert(below, u, v) == n - 1 && hilbert(below, k, l) == 0)
                by (nonlinear_arith)
                requires
                    b * n + hilbert(below, k, l) == a * n + hilbert(below, u, v) + 1,
                    0 <= hilbert(below, u, v) < n,
                    0 <= hilbert(below, k, l) < n,
                    a != b,
            ;
            lemma_hilbert_distinct(below, u, v, (s - 1) as nat, 0);
            lemma_hilbert_distinct(below, k, l, 0, 0);
        }
    }
}

/// The quarter that a place lies in, along the curve.
spec fn quarter(s: nat, x: nat, y: nat) -> int {
    if y >= s {
        if x >= s {
            2
        } else {
            1
        }
    } else if x >= s {
        3
    } else {
        0
    }
}

/// A place within its quarter, as the quarter is turned.
proof fn lemma_turned(zoom: nat, x: nat, y: nat) -> (at: (nat, nat))
    requires
        zoom > 0,
        x < two_to(zoom),
        y < two_to(zoom),
    ensures
        ({
            let s = two_to((zoom - 1) as nat);
            let (u, v) = at;
            &&& u < s
            &&& v < s
            &&& hilbert(zoom, x, y) == quarter(s, x, y) * (s * s) + hilbert((zoom - 1) as nat, u, v)
            &&& y >= s && x >= s ==> x == s + u && y == s + v
            &&& y >= s && x < s ==> x == u && y == s + v
            &&& y < s && x >= s ==> x == 2 * s - 1 - v && y == s - 1 - u
            &&& y < s && x < s ==> x == v && y == u
        }),
{
    let s = two_to((zoom - 1) as nat);
    assert(two_to(zoom) == 2 * s);
    assert(1 * (s * s) == s * s && 0 * (s * s) == 0);
    if y >= s && x >= s {
        ((x - s) as nat, (y - s) as nat)
    } else if y >= s {
        (x, (y - s) as nat)
    } else if x >= s {
        ((s - 1 - y) as nat, (s - 1 - (x - s)) as nat)
    } else {
        (y, x)
    }
}

/// The ids of a level start at its corner, and each next id is that of a tile next
/// door: a walk in the order of the ids never jumps. The levels follow one another, so
/// a level starts where all the tiles of those before it have an id.
pub proof fn law_next_id_is_next_door(a: TileCoord, b: TileCoord)
    requires
        is_addressable(a),
        is_addressable(b),
        a.level == b.level,
    ensures
        id_of(a) is Some && id_of(b) is Some,
        a.col == 0 && a.row == 0 ==> 3 * id_of(a)->0 + 1 == two_to(a.level as nat) * two_to(
            a.level as nat,
        ),
        a.col == 0 && a.row == 0 ==> id_of(a)->0 <= id_of(b)->0,
        id_of(b)->0 == id_of(a)->0 + 1 ==> next_door(
            a.col as int,
            a.row as int,
            b.col as int,
            b.row as int,
        ),
        a.row == 0 && a.col + 1 == two_to(a.level as nat) ==> id_of(a)->0 >= id_of(b)->0,
{
    let zoom = a.level as nat;
    lemma_ends(zoom);
    lemma_first_id_bound(zoom);
    lemma_hilbert_bound(zoom, b.col as nat, b.row as nat);
    if id_of(b)->0 == id_of(a)->0 + 1 {
        lemma_step(zoom, a.col as nat, a.row as nat, b.col as nat, b.row as nat);
    }
}

/// A tile is addressed exactly where its level is one of the first thirty-two, and it
/// lies on it.
pub proof fn law_tile_is_addressed_iff_it_lies_on_its_level(c: TileCoord)
    ensures
        id_of(c) is Some <==> c.level <= 31 && c.col < two_to(c.level as nat) && c.row < two_to(
            c.level as nat,
        ),
        two_to(0) == 1,
        two_to(c.level as nat + 1) == two_to(c.level as nat) + two_to(c.level as nat),
{
}

/// A sorted walk has its ids in ascending order, and what has no id behind them; it
/// holds the tiles that it was sorted from, each as often.
pub proof fn law_sorted_walk_ascends(coords: Seq<TileCoord>, i: int, j: int)
    requires
        0 <= i < j < coords.len(),
    ensures
        ({
            let sorted = by_tile_id(coords);
            &&& sorted.len() == coords.len()
            &&& id_of(sorted[i]) is Some && id_of(sorted[j]) is Some ==> id_of(sorted[i])->0
                <= id_of(sorted[j])->0
            &&& id_of(sorted[i]) is None ==> id_of(sorted[j]) is None
            &&& sorted.to_multiset() == coords.to_multiset()
        }),
{
    law_tile_id_order_sorts(coords);
    let sorted = by_tile_id(coords);
    assert(ascends_by_id(sorted));
    assert(!sorts_before(sorted[j], sorted[i]));
}

/// A sort leaves what has no id where it came: behind all the others.
pub proof fn law_tile_without_an_id_stays_behind(coords: Seq<TileCoord>, c: TileCoord)
    requires
        id_of(c) is None,
    ensures
        by_tile_id(coords.push(c)) == by_tile_id(coords).push(c),
{
    assert(coords.push(c).drop_last() =~= coords);
}

} // verus!
