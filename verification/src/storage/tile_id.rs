//! The PMTiles tile id of a coordinate: its place on a series of Hilbert curves,
//! one for each zoom level, one after the other.

use crate::storage::plan::TileCoord;
use vstd::prelude::*;

verus! {

/// The highest level whose tiles a 64-bit id can address.
pub const MAX_ZOOM: u32 = 31;

/// Two to the power `n`.
pub open spec fn two_to(n: nat) -> nat
    decreases n,
{
    if n == 0 {
        1
    } else {
        2 * two_to((n - 1) as nat)
    }
}

/// The first id of a level: as many as there are tiles on the levels before it.
pub open spec fn first_id(zoom: nat) -> nat
    decreases zoom,
{
    if zoom == 0 {
        0
    } else {
        first_id((zoom - 1) as nat) + two_to((zoom - 1) as nat) * two_to((zoom - 1) as nat)
    }
}

/// The place of a tile on the Hilbert curve of its level. The curve walks the
/// quadrants top left, bottom left, bottom right, top right; the two at the top
/// are turned so that it joins up.
pub open spec fn hilbert(zoom: nat, x: nat, y: nat) -> nat
    decreases zoom,
{
    if zoom == 0 {
        0
    } else {
        let below = (zoom - 1) as nat;
        let s = two_to(below);
        let right = x >= s;
        let bottom = y >= s;
        let u = (if right { x - s } else { x as int }) as nat;
        let v = (if bottom { y - s } else { y as int }) as nat;
        if bottom {
            (if right { 2nat } else { 1 }) * (s * s) + hilbert(below, u, v)
        } else if right {
            3 * (s * s) + hilbert(below, (s - 1 - v) as nat, (s - 1 - u) as nat)
        } else {
            hilbert(below, v, u)
        }
    }
}

/// Whether an id can address a tile: its level is not too deep, and it lies on
/// the grid of its level.
pub open spec fn is_addressable(coord: TileCoord) -> bool {
    coord.level <= MAX_ZOOM && (coord.col as nat) < two_to(coord.level as nat) && (coord.row as nat)
        < two_to(coord.level as nat)
}

/// The id of a tile, where it can be addressed.
pub open spec fn id_of(coord: TileCoord) -> Option<nat> {
    if is_addressable(coord) {
        Some(
            first_id(coord.level as nat) + hilbert(
                coord.level as nat,
                coord.col as nat,
                coord.row as nat,
            ),
        )
    } else {
        None
    }
}

/// Powers of two up to 32.
pub proof fn lemma_two_to(n: nat)
    requires
        n <= 32,
    ensures
        0 < two_to(n) <= 0x1_0000_0000,
        n <= 31 ==> two_to(n) <= 0x8000_0000,
{
    lemma_two_to_grows(n, 32);
    assert(two_to(32) == 0x1_0000_0000) by {
        reveal_with_fuel(two_to, 33);
    }
    if n <= 31 {
        lemma_two_to_grows(n, 31);
    }
}

/// A greater power of two is no less.
pub proof fn lemma_two_to_grows(m: nat, n: nat)
    requires
        m <= n,
    ensures
        0 < two_to(m) <= two_to(n),
    decreases n,
{
    if m < n {
        lemma_two_to_grows(m, (n - 1) as nat);
    } else if n > 0 {
        lemma_two_to_grows((m - 1) as nat, (n - 1) as nat);
    }
}

/// The ids of a level end where those of the next start.
pub(crate) proof fn lemma_first_id_bound(zoom: nat)
    ensures
        3 * first_id(zoom) + 1 == two_to(zoom) * two_to(zoom),
    decreases zoom,
{
    if zoom > 0 {
        lemma_first_id_bound((zoom - 1) as nat);
        let s = two_to((zoom - 1) as nat);
        assert((2 * s) * (2 * s) == 4 * (s * s)) by (nonlinear_arith);
    } else {
        assert(two_to(0) * two_to(0) == 1) by (nonlinear_arith)
            requires
                two_to(0) == 1,
        ;
    }
}

/// A level is addressed exactly where all its ids fit 64 bits.
pub proof fn law_addressed_levels_are_those_that_fit(zoom: nat)
    ensures
        first_id(zoom + 1) - 1 <= u64::MAX <==> zoom <= MAX_ZOOM,
{
    reveal_with_fuel(two_to, 34);
    assert(two_to(32) == 0x1_0000_0000);
    assert(two_to(33) == 0x2_0000_0000);
    lemma_first_id_bound(32);
    lemma_first_id_bound(33);
    assert(0x1_0000_0000 * 0x1_0000_0000 == 0x1_0000_0000_0000_0000);
    assert(0x2_0000_0000 * 0x2_0000_0000 == 0x4_0000_0000_0000_0000);
    if zoom <= MAX_ZOOM {
        lemma_first_id_grows(zoom + 1, 32);
    } else {
        lemma_first_id_grows(33, zoom + 1);
    }
}

/// A place on a level's curve is below its number of tiles.
pub proof fn lemma_hilbert_bound(zoom: nat, x: nat, y: nat)
    requires
        x < two_to(zoom),
        y < two_to(zoom),
    ensures
        hilbert(zoom, x, y) < two_to(zoom) * two_to(zoom),
    decreases zoom,
{
    if zoom > 0 {
        let below = (zoom - 1) as nat;
        let s = two_to(below);
        let right = x >= s;
        let bottom = y >= s;
        let u = (if right { x - s } else { x as int }) as nat;
        let v = (if bottom { y - s } else { y as int }) as nat;
        assert((2 * s) * (2 * s) == 4 * (s * s)) by (nonlinear_arith);
        if bottom {
            lemma_hilbert_bound(below, u, v);
        } else if right {
            lemma_hilbert_bound(below, (s - 1 - v) as nat, (s - 1 - u) as nat);
        } else {
            lemma_hilbert_bound(below, v, u);
        }
    } else {
        assert(two_to(0) * two_to(0) == 1) by (nonlinear_arith)
            requires
                two_to(0) == 1,
        ;
    }
}

/// Different tiles of a level have different places on its curve.
pub(crate) proof fn lemma_hilbert_distinct(zoom: nat, x: nat, y: nat, p: nat, q: nat)
    requires
        x < two_to(zoom),
        y < two_to(zoom),
        p < two_to(zoom),
        q < two_to(zoom),
        hilbert(zoom, x, y) == hilbert(zoom, p, q),
    ensures
        x == p,
        y == q,
    decreases zoom,
{
    if zoom > 0 {
        let below = (zoom - 1) as nat;
        let s = two_to(below);
        let (a, b) = turned(s, x, y);
        let (c, d) = turned(s, p, q);
        lemma_hilbert_bound(below, a, b);
        lemma_hilbert_bound(below, c, d);
        let (i, j) = (quadrant(s, x, y), quadrant(s, p, q));
        assert(hilbert(zoom, x, y) == i * (s * s) + hilbert(below, a, b)) by {
            assert(0 * (s * s) == 0);
        }
        assert(hilbert(zoom, p, q) == j * (s * s) + hilbert(below, c, d)) by {
            assert(0 * (s * s) == 0);
        }
        assert(i == j) by (nonlinear_arith)
            requires
                i * (s * s) + hilbert(below, a, b) == j * (s * s) + hilbert(below, c, d),
                hilbert(below, a, b) < s * s,
                hilbert(below, c, d) < s * s,
        ;
        lemma_hilbert_distinct(below, a, b, c, d);
    }
}

/// Which quadrant a tile lies in, in the order of the curve.
spec fn quadrant(s: nat, x: nat, y: nat) -> nat {
    if y >= s {
        if x >= s {
            2
        } else {
            1
        }
    } else if x >= s {
        3
    } else {
        0
    }
}

/// Where a tile lies in its quadrant, turned as the curve is there.
spec fn turned(s: nat, x: nat, y: nat) -> (nat, nat) {
    let u = (if x >= s { x - s } else { x as int }) as nat;
    let v = (if y >= s { y - s } else { y as int }) as nat;
    if y >= s {
        (u, v)
    } else if x >= s {
        ((s - 1 - v) as nat, (s - 1 - u) as nat)
    } else {
        (v, u)
    }
}

/// First ids grow with the level.
proof fn lemma_first_id_grows(m: nat, n: nat)
    requires
        m <= n,
    ensures
        first_id(m) <= first_id(n),
    decreases n,
{
    if m < n {
        lemma_first_id_grows(m, (n - 1) as nat);
    }
}

/// No two tiles have one id, and the ids of a level lie between its first id and
/// the first of the next.
pub proof fn law_ids_are_distinct(a: TileCoord, b: TileCoord)
    requires
        is_addressable(a),
        is_addressable(b),
    ensures
        first_id(a.level as nat) <= id_of(a)->0 < first_id(a.level as nat + 1),
        id_of(a) == id_of(b) <==> a == b,
        a.level < b.level ==> id_of(a)->0 < id_of(b)->0,
{
    lemma_hilbert_bound(a.level as nat, a.col as nat, a.row as nat);
    lemma_hilbert_bound(b.level as nat, b.col as nat, b.row as nat);
    if a.level < b.level {
        lemma_first_id_grows(a.level as nat + 1, b.level as nat);
    } else if b.level < a.level {
        lemma_first_id_grows(b.level as nat + 1, a.level as nat);
    } else if id_of(a) == id_of(b) {
        lemma_hilbert_distinct(
            a.level as nat,
            a.col as nat,
            a.row as nat,
            b.col as nat,
            b.row as nat,
        );
    }
}

/// The PMTiles tile id a coordinate addresses, which is the archive's byte
/// order; `None` for a coordinate that no id can address.
pub fn tile_id(coord: TileCoord) -> (id: Option<u64>)
    ensures
        id is Some <==> id_of(coord) is Some,
        id is Some ==> id->0 == id_of(coord)->0,
{
    if coord.level > MAX_ZOOM {
        return None;
    }
    let mut side: u64 = 1;
    let mut first: u64 = 0;
    let mut z: u32 = 0;
    assert(two_to(0) == 1);
    while z < coord.level
        invariant
            z <= coord.level <= MAX_ZOOM,
            side == two_to(z as nat),
            first == first_id(z as nat),
        decreases coord.level - z,
    {
        proof {
            lemma_two_to(z as nat);
            lemma_two_to((z + 1) as nat);
            lemma_first_id_bound((z + 1) as nat);
            let s = two_to((z + 1) as nat);
            assert(s * s <= 0x8000_0000 * 0x8000_0000) by (nonlinear_arith)
                requires
                    s <= 0x8000_0000,
            ;
            let t = two_to(z as nat);
            assert(t * t <= 0x8000_0000 * 0x8000_0000) by (nonlinear_arith)
                requires
                    t <= 0x8000_0000,
            ;
        }
        first = first + side * side;
        side = 2 * side;
        z = z + 1;
    }
    if coord.col as u64 >= side || coord.row as u64 >= side {
        return None;
    }
    let ghost zoom = coord.level as nat;
    let mut x: u64 = coord.col as u64;
    let mut y: u64 = coord.row as u64;
    let mut d: u64 = 0;
    let mut left: u32 = coord.level;
    let mut s: u64 = side;
    proof {
        lemma_hilbert_bound(zoom, coord.col as nat, coord.row as nat);
        lemma_first_id_bound(zoom);
        lemma_two_to(zoom);
        let t = two_to(zoom);
        assert(t * t <= 0x8000_0000 * 0x8000_0000) by (nonlinear_arith)
            requires
                t <= 0x8000_0000,
        ;
    }
    while left > 0
        invariant
            left <= coord.level <= MAX_ZOOM,
            zoom == coord.level as nat,
            s == two_to(left as nat),
            x < s,
            y < s,
            d + hilbert(left as nat, x as nat, y as nat) == hilbert(
                zoom,
                coord.col as nat,
                coord.row as nat,
            ),
            hilbert(zoom, coord.col as nat, coord.row as nat) <= 0x8000_0000 * 0x8000_0000,
        decreases left,
    {
        proof {
            lemma_two_to((left - 1) as nat);
            lemma_two_to(left as nat);
        }
        s = s / 2;
        let right = x >= s;
        let bottom = y >= s;
        let u: u64 = if right {
            x - s
        } else {
            x
        };
        let v: u64 = if bottom {
            y - s
        } else {
            y
        };
        let ghost rest = hilbert((left - 1) as nat, turned(s as nat, x as nat, y as nat).0, turned(
            s as nat,
            x as nat,
            y as nat,
        ).1);
        proof {
            assert(hilbert(left as nat, x as nat, y as nat) == quadrant(
                s as nat,
                x as nat,
                y as nat,
            ) * (s as nat * s as nat) + rest) by {
                assert(0 * (s as nat * s as nat) == 0);
            }
            let t = s as nat;
            assert(t * t <= 0x4000_0000 * 0x4000_0000) by (nonlinear_arith)
                requires
                    t <= 0x4000_0000,
            ;
        }
        if bottom {
            d = d + (if right {
                2u64
            } else {
                1u64
            }) * (s * s);
            x = u;
            y = v;
        } else if right {
            d = d + 3 * (s * s);
            x = s - 1 - v;
            y = s - 1 - u;
        } else {
            x = v;
            y = u;
        }
        left = left - 1;
    }
    Some(first + d)
}

} // verus!
