//! The tree that a canonical text spells, and what a document and its canonical
//! text say of each other at any depth.

use crate::storage::canonical::{
    canonical_at, canonical_number_of, canonical_text, comma_joined, entry_path, field_text,
    field_texts, first_non_ascii, first_repeat, item_path, item_texts, keys_of, object_text,
    quoted, value_texts,
};
use crate::storage::canonical_laws::{
    keys_distinct, lemma_climb_is_unique, lemma_no_foreign, lemma_sorted_keys, sorted_keys,
};
use crate::storage::json::{Fault, Json};
use crate::text::{key_order, law_key_order_sorts, lemma_less_total, text_less};
use vstd::prelude::*;
use vstd::utf8::is_ascii_chars;

verus! {

/// Whether a tree has a canonical text: in every object, at any depth, the keys
/// are ASCII and all different, and every number is one that has a spelling.
pub open spec fn acceptable(t: Json) -> bool
    decreases t,
{
    match t {
        Json::Number(token) => canonical_number_of(token, ""@) is Ok,
        Json::Array(items) => forall|i: int|
            0 <= i < items.len() ==> acceptable(#[trigger] items[i]),
        Json::Object(entries) => keys_distinct(entries) && forall|i: int|
            0 <= i < entries.len() ==> is_ascii_chars((#[trigger] entries[i]).0) && acceptable(
                entries[i].1,
            ),
        _ => true,
    }
}

/// The tree that the canonical text of `t` spells: the entries of every object
/// in the order of their keys, and every number in its own spelling.
pub open spec fn normal(t: Json) -> Json
    decreases t,
{
    match t {
        Json::Number(token) => Json::Number(canonical_number_of(token, ""@)->Ok_0),
        Json::Array(items) => Json::Array(
            Seq::new(
                items.len(),
                |i: int|
                    if 0 <= i < items.len() {
                        normal(items[i])
                    } else {
                        Json::Null
                    },
            ),
        ),
        Json::Object(entries) => {
            let order = key_order(keys_of(entries));
            Json::Object(
                Seq::new(
                    entries.len(),
                    |k: int|
                        if 0 <= order[k] < entries.len() {
                            (entries[order[k]].0, normal(entries[order[k]].1))
                        } else {
                            (Seq::empty(), Json::Null)
                        },
                ),
            )
        },
        _ => t,
    }
}

/// Texts joined by commas.
pub open spec fn joined(parts: Seq<Seq<char>>) -> Seq<char>
    decreases parts.len(),
{
    if parts.len() == 0 {
        Seq::empty()
    } else if parts.len() == 1 {
        parts[0]
    } else {
        joined(parts.drop_last()).push(',') + parts.last()
    }
}

/// A tree as it stands, spelled without white space.
pub open spec fn plain_text(t: Json) -> Seq<char>
    decreases t,
{
    match t {
        Json::Null => "null"@,
        Json::Bool(true) => "true"@,
        Json::Bool(false) => "false"@,
        Json::Number(token) => token,
        Json::Str(s) => quoted(s),
        Json::Array(items) => "["@ + joined(plain_items(items)) + "]"@,
        Json::Object(entries) => "{"@ + joined(plain_entries(entries)) + "}"@,
    }
}

/// The items of an array, each spelled without white space.
pub open spec fn plain_items(items: Seq<Json>) -> Seq<Seq<char>>
    decreases items,
{
    Seq::new(
        items.len(),
        |i: int|
            if 0 <= i < items.len() {
                plain_text(items[i])
            } else {
                Seq::empty()
            },
    )
}

/// The entries of an object, each spelled without white space.
pub open spec fn plain_entries(entries: Seq<(Seq<char>, Json)>) -> Seq<Seq<char>>
    decreases entries,
{
    Seq::new(
        entries.len(),
        |i: int|
            if 0 <= i < entries.len() {
                quoted(entries[i].0).push(':') + plain_text(entries[i].1)
            } else {
                Seq::empty()
            },
    )
}

/// Whether every part has a text.
spec fn all_texts(parts: Seq<Result<Seq<char>, Fault>>) -> bool {
    forall|i: int| 0 <= i < parts.len() ==> (#[trigger] parts[i]) is Ok
}

/// Parts are joined where each has a text, and only there.
proof fn lemma_joined(parts: Seq<Result<Seq<char>, Fault>>, plain: Seq<Seq<char>>)
    requires
        parts.len() == plain.len(),
        forall|i: int|
            0 <= i < parts.len() && (#[trigger] parts[i]) is Ok ==> parts[i]->Ok_0 == plain[i],
    ensures
        comma_joined(parts) is Ok <==> all_texts(parts),
        comma_joined(parts) is Ok ==> comma_joined(parts)->Ok_0 == joined(plain),
    decreases parts.len(),
{
    if parts.len() > 0 {
        let front = parts.drop_last();
        assert forall|i: int| 0 <= i < front.len() && (#[trigger] front[i]) is Ok implies
            front[i]->Ok_0 == plain.drop_last()[i] by {
            assert(front[i] == parts[i]);
        }
        lemma_joined(front, plain.drop_last());
        let last = parts.len() - 1;
        if all_texts(parts) {
            assert forall|i: int| 0 <= i < front.len() implies (#[trigger] front[i]) is Ok by {
                assert(front[i] == parts[i]);
            }
            assert(parts[last] is Ok);
        }
        if comma_joined(parts) is Ok {
            assert(parts[last] is Ok);
            assert forall|i: int| 0 <= i < parts.len() implies (#[trigger] parts[i]) is Ok by {
                if i < last {
                    assert(front[i] is Ok);
                }
            }
        }
    }
}

/// Where every key is passed over, every key is ASCII.
proof fn lemma_all_ascii(keys: Seq<Seq<char>>, i: int)
    requires
        0 <= i,
        first_non_ascii(keys, i) >= keys.len(),
    ensures
        forall|k: int| i <= k < keys.len() ==> is_ascii_chars(#[trigger] keys[k]),
    decreases keys.len() - i,
{
    if i < keys.len() {
        assert(is_ascii_chars(keys[i]));
        lemma_all_ascii(keys, i + 1);
    }
}

/// Where no repeat is found, neighbours differ.
proof fn lemma_neighbours_differ(keys: Seq<Seq<char>>, order: Seq<int>, k: int, m: int)
    requires
        0 <= k <= m < order.len() - 1,
        first_repeat(keys, order, k) + 1 >= order.len(),
    ensures
        keys[order[m]] != keys[order[m + 1]],
    decreases order.len() - k,
{
    if k < m {
        lemma_neighbours_differ(keys, order, k + 1, m);
    }
}

/// Where no two neighbours in order have one key, no two entries have.
pub(crate) proof fn lemma_distinct(entries: Seq<(Seq<char>, Json)>)
    requires
        first_repeat(keys_of(entries), key_order(keys_of(entries)), 0) + 1 >= entries.len(),
    ensures
        keys_distinct(entries),
{
    let keys = keys_of(entries);
    let order = key_order(keys);
    law_key_order_sorts(keys);
    assert forall|a: int, b: int| 0 <= a < b < entries.len() implies (#[trigger] entries[a]).0
        != (#[trigger] entries[b]).0 by {
        if keys[a] == keys[b] {
            assert(order.contains(a) && order.contains(b));
            let x = choose|x: int| 0 <= x < order.len() && order[x] == a;
            let y = choose|y: int| 0 <= y < order.len() && order[y] == b;
            let (low, high) = if x < y {
                (x, y)
            } else {
                (y, x)
            };
            lemma_neighbours_differ(keys, order, 0, low);
            assert(!text_less(keys[order[low + 1]], keys[order[low]]));
            if low + 1 < high {
                assert(!text_less(keys[order[high]], keys[order[low + 1]]));
            }
            lemma_less_total(keys[order[low]], keys[order[low + 1]]);
        }
    }
}

/// A value has a canonical text where its tree is acceptable, and only there: it
/// is the spelling of the tree's normal form.
proof fn lemma_canonical_at(t: Json, path: Seq<char>)
    ensures
        canonical_at(t, path) is Ok <==> acceptable(t),
        acceptable(t) ==> canonical_at(t, path) == Ok::<Seq<char>, Fault>(plain_text(normal(t))),
    decreases t,
{
    match t {
        Json::Array(items) => {
            let parts = item_texts(items, path);
            let tidy = normal(t)->Array_0;
            let plain = plain_items(tidy);
            assert forall|i: int| 0 <= i < items.len() implies ((#[trigger] parts[i]) is Ok
                <==> acceptable(items[i])) && (parts[i] is Ok ==> parts[i]->Ok_0
                == plain[i]) by {
                lemma_canonical_at(items[i], item_path(path, i));
                assert(tidy[i] == normal(items[i]));
            }
            lemma_joined(parts, plain);
            if acceptable(t) {
                assert forall|i: int| 0 <= i < parts.len() implies (#[trigger] parts[i]) is Ok by {
                    assert(acceptable(t->Array_0[i]));
                }
            }
            if canonical_at(t, path) is Ok {
                assert forall|i: int| 0 <= i < items.len() implies acceptable(
                    #[trigger] items[i],
                ) by {
                    assert(parts[i] is Ok);
                }
            }
        },
        Json::Object(entries) => {
            lemma_canonical_object(entries, path);
        },
        _ => {},
    }
}

/// An object has a canonical text where its tree is acceptable, and only there.
proof fn lemma_canonical_object(entries: Seq<(Seq<char>, Json)>, path: Seq<char>)
    ensures
        canonical_at(Json::Object(entries), path) is Ok <==> acceptable(Json::Object(entries)),
        acceptable(Json::Object(entries)) ==> canonical_at(Json::Object(entries), path) == Ok::<
            Seq<char>,
            Fault,
        >(plain_text(normal(Json::Object(entries)))),
    decreases entries,
{
    let t = Json::Object(entries);
    let keys = keys_of(entries);
    let order = key_order(keys);
    let values = value_texts(entries, path);
    let fields = field_texts(keys, order, values);
    let tidy = normal(t)->Object_0;
    let plain = plain_entries(tidy);
    law_key_order_sorts(keys);
    assert(canonical_at(t, path) == object_text(path, keys, values));
    assert forall|i: int| 0 <= i < entries.len() implies ((#[trigger] values[i]) is Ok
        <==> acceptable(entries[i].1)) && (values[i] is Ok ==> values[i]->Ok_0 == plain_text(
        normal(entries[i].1),
    )) by {
        lemma_canonical_at(entries[i].1, entry_path(path, entries[i].0));
    }
    assert forall|k: int| 0 <= k < fields.len() implies ((#[trigger] fields[k]) is Ok
        <==> acceptable(entries[order[k]].1)) && 0 <= order[k] < entries.len() && (fields[k] is Ok
        ==> fields[k]->Ok_0 == plain[k]) by {
        let i = order[k];
        assert(order.contains(i));
        assert(fields[k] == field_text(keys[i], values[i]));
        assert(values[i] is Ok <==> acceptable(entries[i].1));
        assert(tidy[k] == (entries[i].0, normal(entries[i].1)));
    }
    lemma_joined(fields, plain);
    if acceptable(t) {
        assert(keys_distinct(t->Object_0));
        assert forall|k: int| 0 <= k < keys.len() implies is_ascii_chars(#[trigger] keys[k]) by {
            assert(is_ascii_chars(t->Object_0[k].0));
        }
        lemma_no_foreign(keys, 0);
        lemma_sorted_keys(entries);
        assert forall|k: int| 0 <= k < fields.len() implies (#[trigger] fields[k]) is Ok by {
            assert(0 <= order[k] < entries.len());
            assert(acceptable(t->Object_0[order[k]].1));
        }
    }
    if canonical_at(t, path) is Ok {
        lemma_all_ascii(keys, 0);
        lemma_distinct(entries);
        assert forall|i: int| 0 <= i < entries.len() implies is_ascii_chars(
            (#[trigger] entries[i]).0,
        ) && acceptable(entries[i].1) by {
            assert(is_ascii_chars(keys[i]));
            assert(order.contains(i));
            let k = choose|k: int| 0 <= k < order.len() && order[k] == i;
            assert(fields[k] is Ok);
        }
        assert(acceptable(t));
    }
}

/// A document has a canonical text exactly where, at every depth, keys are ASCII
/// and occur once and every number has a spelling. The text spells the normal
/// form of the document: keys sorted in every object, and nothing else moved.
pub proof fn law_canonical_text_is_owed(t: Json)
    ensures
        canonical_text(t) is Ok <==> acceptable(t),
        acceptable(t) ==> canonical_text(t) == Ok::<Seq<char>, Fault>(plain_text(normal(t))),
{
    lemma_canonical_at(t, "$"@);
}

/// Whether `places` names each of `n` places once.
pub open spec fn is_rearrangement(places: Seq<int>, n: int) -> bool {
    &&& places.len() == n
    &&& places.no_duplicates()
    &&& forall|i: int| 0 <= i < n ==> 0 <= #[trigger] places[i] < n
    &&& forall|j: int| 0 <= j < n ==> #[trigger] places.contains(j)
}

/// Whether two trees differ, at any depth, in nothing but the order in which
/// objects list their entries.
pub open spec fn same_but_order(a: Json, b: Json) -> bool
    decreases a,
{
    match (a, b) {
        (Json::Array(x), Json::Array(y)) => x.len() == y.len() && forall|i: int|
            0 <= i < x.len() ==> same_but_order(#[trigger] x[i], y[i]),
        (Json::Object(x), Json::Object(y)) => x.len() == y.len() && exists|places: Seq<int>|
            {
                &&& #[trigger] is_rearrangement(places, x.len() as int)
                &&& forall|i: int|
                    0 <= i < y.len() && 0 <= #[trigger] places[i] < x.len() ==> y[i].0
                        == x[places[i]].0 && same_but_order(x[places[i]].1, y[i].1)
            },
        _ => a == b,
    }
}

/// Trees that differ in the order of entries are both acceptable or neither, and
/// have one normal form.
proof fn lemma_same_normal(a: Json, b: Json)
    requires
        same_but_order(a, b),
    ensures
        acceptable(a) <==> acceptable(b),
        acceptable(a) ==> normal(a) == normal(b),
    decreases a,
{
    match (a, b) {
        (Json::Array(x), Json::Array(y)) => {
            assert forall|i: int| 0 <= i < x.len() implies (acceptable(#[trigger] x[i])
                <==> acceptable(y[i])) && (acceptable(x[i]) ==> normal(x[i]) == normal(
                y[i],
            )) by {
                assert(same_but_order(a->Array_0[i], y[i]));
                lemma_same_normal(x[i], y[i]);
            }
            if acceptable(a) {
                assert forall|i: int| 0 <= i < y.len() implies acceptable(#[trigger] y[i]) by {
                    assert(acceptable(x[i]));
                }
                assert(normal(a)->Array_0 =~= normal(b)->Array_0);
            }
            if acceptable(b) {
                assert forall|i: int| 0 <= i < x.len() implies acceptable(#[trigger] x[i]) by {
                    assert(acceptable(y[i]));
                }
            }
        },
        (Json::Object(x), Json::Object(y)) => {
            let places = choose|places: Seq<int>|
                {
                    &&& #[trigger] is_rearrangement(places, x.len() as int)
                    &&& forall|i: int|
                        0 <= i < y.len() && 0 <= #[trigger] places[i] < x.len() ==> y[i].0
                            == x[places[i]].0 && same_but_order(x[places[i]].1, y[i].1)
                };
            lemma_same_normal_object(x, y, places);
        },
        _ => {},
    }
}

/// The same of two objects.
#[verifier::spinoff_prover]
proof fn lemma_same_normal_object(
    x: Seq<(Seq<char>, Json)>,
    y: Seq<(Seq<char>, Json)>,
    places: Seq<int>,
)
    requires
        x.len() == y.len(),
        is_rearrangement(places, x.len() as int),
        forall|i: int|
            0 <= i < y.len() && 0 <= #[trigger] places[i] < x.len() ==> y[i].0 == x[places[i]].0
                && same_but_order(x[places[i]].1, y[i].1),
    ensures
        acceptable(Json::Object(x)) <==> acceptable(Json::Object(y)),
        acceptable(Json::Object(x)) ==> normal(Json::Object(x)) == normal(Json::Object(y)),
    decreases x,
{
    let (a, b) = (Json::Object(x), Json::Object(y));
    assert forall|i: int| 0 <= i < y.len() implies 0 <= #[trigger] places[i] < x.len() && y[i].0
        == x[places[i]].0 && (acceptable(x[places[i]].1) <==> acceptable(y[i].1)) && (acceptable(
        y[i].1,
    ) ==> normal(x[places[i]].1) == normal(y[i].1)) by {
        lemma_same_normal(x[places[i]].1, y[i].1);
    }
    if acceptable(a) {
        assert forall|i: int| 0 <= i < y.len() implies is_ascii_chars((#[trigger] y[i]).0)
            && acceptable(y[i].1) by {
            let j = places[i];
            assert(is_ascii_chars(a->Object_0[j].0) && acceptable(a->Object_0[j].1));
        }
        assert forall|c: int, d: int| 0 <= c < d < y.len() implies (#[trigger] y[c]).0 != (
        #[trigger] y[d]).0 by {
            let (i, j) = (places[c], places[d]);
            assert(i != j);
            if i < j {
                assert(x[i].0 != x[j].0);
            } else {
                assert(x[j].0 != x[i].0);
            }
        }
        assert(acceptable(b));
    }
    if acceptable(b) {
        assert forall|j: int| 0 <= j < x.len() implies is_ascii_chars((#[trigger] x[j]).0)
            && acceptable(x[j].1) by {
            assert(places.contains(j));
            let i = choose|i: int| 0 <= i < places.len() && places[i] == j;
            assert(is_ascii_chars(b->Object_0[i].0) && acceptable(b->Object_0[i].1));
        }
        assert forall|i: int, j: int| 0 <= i < j < x.len() implies (#[trigger] x[i]).0 != (
        #[trigger] x[j]).0 by {
            assert(places.contains(i) && places.contains(j));
            let c = choose|c: int| 0 <= c < places.len() && places[c] == i;
            let d = choose|d: int| 0 <= d < places.len() && places[d] == j;
            assert(0 <= places[c] < x.len() && 0 <= places[d] < x.len());
            if c < d {
                assert(y[c].0 != y[d].0);
            } else {
                assert(y[d].0 != y[c].0);
            }
        }
        assert(acceptable(a));
        lemma_same_sorted(x, y, places);
    }
}

/// Acceptable objects with the same entries sort to the same entries.
#[verifier::spinoff_prover]
proof fn lemma_same_sorted(
    x: Seq<(Seq<char>, Json)>,
    y: Seq<(Seq<char>, Json)>,
    places: Seq<int>,
)
    requires
        is_rearrangement(places, x.len() as int),
        x.len() == y.len(),
        keys_distinct(x),
        keys_distinct(y),
        forall|i: int|
            0 <= i < y.len() ==> 0 <= #[trigger] places[i] < x.len() && y[i].0 == x[places[i]].0
                && normal(x[places[i]].1) == normal(y[i].1),
    ensures
        normal(Json::Object(x)) == normal(Json::Object(y)),
{
    let (kx, ky) = (keys_of(x), keys_of(y));
    let (ox, oy) = (key_order(kx), key_order(ky));
    let (sx, sy) = (sorted_keys(x), sorted_keys(y));
    law_key_order_sorts(kx);
    law_key_order_sorts(ky);
    lemma_sorted_keys(x);
    lemma_sorted_keys(y);
    assert forall|k: Seq<char>| #![auto] sx.contains(k) <==> sy.contains(k) by {
        if sx.contains(k) {
            assert(kx.contains(k));
            let j = choose|j: int| 0 <= j < kx.len() && kx[j] == k;
            assert(places.contains(j));
            let i = choose|i: int| 0 <= i < places.len() && places[i] == j;
            assert(0 <= places[i] < x.len());
            assert(ky[i] == k);
            assert(ky.contains(k));
        }
        if sy.contains(k) {
            assert(ky.contains(k));
            let i = choose|i: int| 0 <= i < ky.len() && ky[i] == k;
            assert(0 <= places[i] < x.len());
            assert(kx[places[i]] == k);
            assert(kx.contains(k));
        }
    }
    lemma_climb_is_unique(sx, sy);
    let (nx, ny) = (normal(Json::Object(x))->Object_0, normal(Json::Object(y))->Object_0);
    assert forall|k: int| 0 <= k < nx.len() implies nx[k] == ny[k] by {
        assert(ox.contains(ox[k]) && oy.contains(oy[k]));
        let (i, j) = (ox[k], oy[k]);
        assert(sx[k] == kx[i] && sy[k] == ky[j]);
        let m = places[j];
        assert(0 <= places[j] < x.len());
        if m < i {
            assert(x[m].0 != x[i].0);
        } else if i < m {
            assert(x[i].0 != x[m].0);
        }
        assert(normal(x[i].1) == normal(y[j].1));
    }
    assert(nx =~= ny);
}

/// File order shows nowhere in a canonical text: two documents that differ, at
/// any depth, only in the order in which objects list their entries have both
/// one canonical text, or neither has one.
pub proof fn law_canonical_text_ignores_order_at_any_depth(a: Json, b: Json)
    requires
        same_but_order(a, b),
    ensures
        canonical_text(a) is Ok <==> canonical_text(b) is Ok,
        canonical_text(a) is Ok ==> canonical_text(a) == canonical_text(b),
{
    lemma_same_normal(a, b);
    law_canonical_text_is_owed(a);
    law_canonical_text_is_owed(b);
}

} // verus!
