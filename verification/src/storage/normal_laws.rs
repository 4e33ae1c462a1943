//! A canonical text read back: it spells the normal form of the document it was
//! made from, and nothing else.

use crate::storage::canonical::{
    canonical_number_of, canonical_text, fraction_digits, keys_of, lemma_parts_are_digits,
    number_parts, number_text, quoted, signed_value, whole_digits, MAX_SAFE_INTEGER,
};
use crate::storage::canonical_laws::{
    climbs, keys_distinct, lemma_sorted_keys, lemma_spelled_parts, lemma_spelled_value, sorted_keys,
};
use crate::storage::integrity::canonical_of_text;
use crate::storage::json::{
    is_number, is_space, lemma_number_stands, lemma_number_token, lemma_read_array,
    lemma_read_entries, lemma_read_items, lemma_read_object, numbers_valid, read_document,
    read_entries, read_items, read_value, skip_space, stands_at, Fault, Json,
};
use crate::storage::json_laws::{
    lemma_entry_fits, lemma_item_fits, lemma_read_fits, lemma_read_quoted, lemma_stands_char,
    lemma_stands_split, nests_within,
};
use crate::storage::normal_form::{
    acceptable, joined, law_canonical_text_is_owed, normal, plain_entries, plain_items, plain_text,
};
use crate::text::{
    all_digits, digits_value, is_digit, key_order, law_key_order_sorts, lemma_less_asymmetric,
    lemma_less_irreflexive, lemma_run_ends, place, text_less, trim_back_zeros, trim_front_zeros,
    zeros,
};
use vstd::prelude::*;
use vstd::utf8::is_ascii_chars;

verus! {

/// Whether every number of a tree that has no fraction is an integer that a
/// JavaScript `Number` holds.
pub open spec fn integers_safe(t: Json) -> bool
    decreases t,
{
    match t {
        Json::Number(token) => number_parts(token).frac.len() == 0 ==> digits_value(
            number_parts(token).whole,
        ) <= MAX_SAFE_INTEGER,
        Json::Array(items) => forall|i: int|
            0 <= i < items.len() ==> integers_safe(#[trigger] items[i]),
        Json::Object(entries) => forall|i: int|
            0 <= i < entries.len() ==> integers_safe((#[trigger] entries[i]).1),
        _ => true,
    }
}

/// Digits with no idle zeros, spelled as a number, are a number as JSON spells
/// them.
proof fn lemma_text_is_number(negative: bool, whole: Seq<char>, fraction: Seq<char>)
    requires
        all_digits(whole),
        all_digits(fraction),
        whole.len() > 0 ==> whole[0] != '0',
    ensures
        is_number(number_text(negative, whole, fraction)),
{
    reveal_strlit("-");
    reveal_strlit("");
    reveal_strlit("0");
    reveal_strlit(".");
    let text = number_text(negative, whole, fraction);
    let first = if whole.len() == 0 {
        "0"@
    } else {
        whole
    };
    let sign: int = if negative {
        1
    } else {
        0
    };
    assert(all_digits(first));
    assert(is_digit(first[0]));
    assert(text.subrange(sign, sign + first.len()) =~= first);
    assert(text[sign] == first[0]);
    let end = sign + first.len();
    if fraction.len() > 0 {
        assert(text[end] == '.');
        assert(text.subrange(end + 1, end + 1 + fraction.len()) =~= fraction);
        assert(text.len() == end + 1 + fraction.len());
        lemma_run_ends(text, sign, first);
        lemma_run_ends(text, end + 1, fraction);
    } else {
        assert(text.len() == end);
        lemma_run_ends(text, sign, first);
    }
}

/// A spelling is a number as JSON spells it, and its own spelling unless it is
/// an integer too large to be written as one.
#[verifier::spinoff_prover]
proof fn lemma_spelling(token: Seq<char>, out: Seq<char>)
    requires
        canonical_number_of(token, ""@) == Ok::<Seq<char>, Fault>(out),
    ensures
        is_number(out),
        integers_safe(Json::Number(out)) ==> canonical_number_of(out, ""@) == Ok::<
            Seq<char>,
            Fault,
        >(out),
        canonical_number_of(out, ""@) is Ok ==> integers_safe(Json::Number(out)),
{
    let parts = number_parts(token);
    let e = match parts.exponent {
        Some(e) => signed_value(e)->0,
        None => 0,
    };
    let digits = parts.whole + parts.frac;
    let point = parts.whole.len() + e;
    let whole = trim_front_zeros(whole_digits(digits, point));
    let fraction = trim_back_zeros(fraction_digits(digits, point));
    lemma_parts_are_digits(token);
    let m: int = if digits.len() - point > fraction.len() {
        digits.len() - point
    } else {
        fraction.len() as int
    };
    lemma_spelled_value(digits, point, m);
    let negative = parts.negative && whole.len() + fraction.len() > 0;
    reveal_strlit("-");
    reveal_strlit("");
    reveal_strlit("0");
    if whole.len() == 0 && fraction.len() == 0 {
        assert(out =~= number_text(false, whole, fraction));
    }
    assert(out == number_text(negative, whole, fraction));
    lemma_text_is_number(negative, whole, fraction);
    lemma_spelled_parts(negative, whole, fraction);
    let first = if whole.len() == 0 {
        "0"@
    } else {
        whole
    };
    let again = first + fraction;
    let stop = first.len() as int;
    assert(first + zeros(0) =~= first);
    assert(whole_digits(again, stop) =~= first);
    assert(fraction_digits(again, stop) =~= fraction);
    assert("0"@.skip(1) =~= Seq::<char>::empty());
    assert(trim_front_zeros("0"@.skip(1)) == Seq::<char>::empty());
    assert(trim_front_zeros(first) =~= whole);
    assert(trim_back_zeros(fraction) == fraction);
    assert(digits_value(Seq::<char>::empty()) == 0);
    assert("0"@.drop_last() =~= Seq::<char>::empty());
    assert(digits_value("0"@) == 0);
    assert(whole.len() == 0 ==> digits_value(whole) == 0) by {
        if whole.len() == 0 {
            assert(whole =~= Seq::<char>::empty());
        }
    }
}

/// The number tokens of a normal form are numbers as JSON spells them, and it
/// nests as deep as the tree it was made from.
proof fn lemma_normal_fits(t: Json, depth: int)
    requires
        acceptable(t),
        nests_within(t, depth),
    ensures
        numbers_valid(normal(t)),
        nests_within(normal(t), depth),
    decreases t,
{
    let n = normal(t);
    match t {
        Json::Number(token) => {
            lemma_spelling(token, canonical_number_of(token, ""@)->Ok_0);
        },
        Json::Array(items) => {
            assert forall|i: int| 0 <= i < n->Array_0.len() implies numbers_valid(
                #[trigger] n->Array_0[i],
            ) && nests_within(n->Array_0[i], depth + 1) by {
                assert(acceptable(t->Array_0[i]) && nests_within(t->Array_0[i], depth + 1));
                lemma_normal_fits(items[i], depth + 1);
            }
        },
        Json::Object(entries) => {
            let order = key_order(keys_of(entries));
            law_key_order_sorts(keys_of(entries));
            assert forall|k: int| 0 <= k < n->Object_0.len() implies numbers_valid(
                (#[trigger] n->Object_0[k]).1,
            ) && nests_within(n->Object_0[k].1, depth + 1) by {
                assert(order.contains(order[k]));
                let i = order[k];
                assert(acceptable(t->Object_0[i].1) && nests_within(t->Object_0[i].1, depth + 1));
                lemma_normal_fits(entries[i].1, depth + 1);
            }
        },
        _ => {},
    }
}

/// Joined texts, taken from their front.
proof fn lemma_joined_front(parts: Seq<Seq<char>>)
    requires
        parts.len() > 1,
    ensures
        joined(parts) == parts[0] + (seq![','] + joined(parts.skip(1))),
    decreases parts.len(),
{
    let front = parts.drop_last();
    let behind = parts.skip(1);
    if parts.len() == 2 {
        assert(joined(front) == parts[0]);
        assert(joined(behind) == parts[1]);
    } else {
        lemma_joined_front(front);
        assert(front.skip(1) =~= behind.drop_last());
        assert(behind.last() == parts.last());
        assert(joined(behind) == joined(behind.drop_last()).push(',') + parts.last());
    }
    assert(joined(parts) =~= parts[0] + (seq![','] + joined(behind)));
}

/// What follows the part `k`, up to and with the closing bracket.
spec fn after_part(parts: Seq<Seq<char>>, k: int, close: char) -> Seq<char> {
    if k + 1 < parts.len() {
        seq![','] + (joined(parts.skip(k + 1)) + seq![close])
    } else {
        seq![close]
    }
}

/// The parts from `k` on are the part `k` and what follows it.
proof fn lemma_parts_from(parts: Seq<Seq<char>>, k: int, close: char)
    requires
        0 <= k < parts.len(),
    ensures
        joined(parts.skip(k)) + seq![close] == parts[k] + after_part(parts, k, close),
{
    let from = parts.skip(k);
    if k + 1 < parts.len() {
        lemma_joined_front(from);
        assert(from.skip(1) =~= parts.skip(k + 1));
        assert(joined(from) + seq![close] =~= parts[k] + after_part(parts, k, close));
    } else {
        assert(joined(from) == parts[k]);
    }
}

/// Whether what stands at `p` ends a value.
spec fn closes_at(s: Seq<char>, p: int) -> bool {
    p < s.len() ==> s[p] == ',' || s[p] == ']' || s[p] == '}'
}

/// The first character of a value.
proof fn lemma_plain_start(t: Json)
    requires
        numbers_valid(t),
    ensures
        plain_text(t).len() > 0,
        !is_space(plain_text(t)[0]),
        plain_text(t)[0] != ']',
        plain_text(t)[0] != '}',
{
    reveal_strlit("null");
    reveal_strlit("true");
    reveal_strlit("false");
    reveal_strlit("[");
    reveal_strlit("{");
    if let Json::Number(token) = t {
        lemma_number_token(token, 0, token.len() as int);
    }
}

/// A value spelled without white space reads as that value.
proof fn lemma_plain_reads_back(s: Seq<char>, p: int, depth: int, t: Json)
    requires
        0 <= p,
        numbers_valid(t),
        nests_within(t, depth),
        stands_at(s, p, plain_text(t)),
        closes_at(s, p + plain_text(t).len()),
    ensures
        read_value(s, p, depth) == Ok::<(Json, int), Fault>((t, p + plain_text(t).len())),
    decreases t, 0int,
{
    let text = plain_text(t);
    let end = p + text.len();
    lemma_plain_start(t);
    lemma_stands_char(s, p, text, 0);
    match t {
        Json::Array(items) => {
            let parts = plain_items(items);
            reveal_strlit("[");
            reveal_strlit("]");
            assert(text =~= seq!['['] + (joined(parts) + seq![']']));
            lemma_stands_split(s, p, seq!['['], joined(parts) + seq![']']);
            lemma_read_array(s, p, depth);
            if items.len() == 0 {
                lemma_stands_char(s, p, text, 1);
                assert(skip_space(s, p + 1) == p + 1);
                assert(items =~= Seq::<Json>::empty());
            } else {
                assert(parts.skip(0) =~= parts);
                lemma_parts_from(parts, 0, ']');
                lemma_stands_split(s, p + 1, parts[0], after_part(parts, 0, ']'));
                lemma_item_fits(items, 0, depth);
                assert(parts[0] == plain_text(items[0]));
                lemma_plain_start(items[0]);
                lemma_stands_char(s, p + 1, parts[0], 0);
                assert(skip_space(s, p + 1) == p + 1);
                lemma_plain_items(s, p + 1, depth + 1, items, 0);
                assert(items.take(0) =~= Seq::<Json>::empty());
            }
        },
        Json::Object(entries) => {
            let parts = plain_entries(entries);
            reveal_strlit("{");
            reveal_strlit("}");
            assert(text =~= seq!['{'] + (joined(parts) + seq!['}']));
            lemma_stands_split(s, p, seq!['{'], joined(parts) + seq!['}']);
            lemma_read_object(s, p, depth);
            if entries.len() == 0 {
                lemma_stands_char(s, p, text, 1);
                assert(skip_space(s, p + 1) == p + 1);
                assert(entries =~= Seq::<(Seq<char>, Json)>::empty());
            } else {
                assert(parts.skip(0) =~= parts);
                lemma_parts_from(parts, 0, '}');
                lemma_stands_split(s, p + 1, parts[0], after_part(parts, 0, '}'));
                lemma_stands_char(s, p + 1, parts[0], 0);
                assert(parts[0][0] == '"');
                assert(skip_space(s, p + 1) == p + 1);
                lemma_plain_entries(s, p + 1, depth + 1, entries, 0);
                assert(entries.take(0) =~= Seq::<(Seq<char>, Json)>::empty());
            }
        },
        Json::Str(x) => {
            lemma_read_quoted(s, p, x);
            reveal(read_value);
        },
        Json::Number(token) => {
            assert(s.subrange(p, end) =~= token);
            lemma_number_stands(s, p, end);
            reveal(read_value);
        },
        Json::Null => {
            reveal_strlit("null");
            reveal(read_value);
        },
        Json::Bool(b) => {
            reveal_strlit("true");
            reveal_strlit("false");
            reveal(read_value);
        },
    }
}

/// The items of an array, from the item `k` on, read as those items.
#[verifier::spinoff_prover]
proof fn lemma_plain_items(s: Seq<char>, p: int, depth: int, items: Seq<Json>, k: int)
    requires
        0 <= p,
        0 <= k < items.len(),
        numbers_valid(Json::Array(items)),
        nests_within(Json::Array(items), depth - 1),
        stands_at(s, p, plain_text(items[k])),
        stands_at(
            s,
            p + plain_text(items[k]).len(),
            after_part(plain_items(items), k, ']'),
        ),
    ensures
        read_items(s, p, depth, items.take(k)) == Ok::<(Json, int), Fault>(
            (
                Json::Array(items),
                p + plain_text(items[k]).len() + after_part(plain_items(items), k, ']').len(),
            ),
        ),
    decreases items, items.len() - k,
{
    let parts = plain_items(items);
    let value = plain_text(items[k]);
    let tail = after_part(parts, k, ']');
    let e = p + value.len();
    lemma_item_fits(items, k, depth - 1);
    lemma_plain_start(items[k]);
    lemma_stands_char(s, p, value, 0);
    assert(skip_space(s, p) == p);
    lemma_stands_char(s, e, tail, 0);
    lemma_plain_reads_back(s, p, depth, items[k]);
    lemma_read_items(s, p, depth, items.take(k));
    assert(skip_space(s, e) == e);
    assert(items.take(k).push(items[k]) =~= items.take(k + 1));
    if k + 1 < items.len() {
        lemma_parts_from(parts, k + 1, ']');
        let next = plain_text(items[k + 1]);
        assert(parts[k + 1] == next);
        lemma_stands_split(s, e, seq![','], next + after_part(parts, k + 1, ']'));
        lemma_stands_split(s, e + 1, next, after_part(parts, k + 1, ']'));
        lemma_plain_items(s, e + 1, depth, items, k + 1);
    } else {
        assert(items.take(k + 1) =~= items);
    }
}

/// The entries of an object, from the entry `k` on, read as those entries.
#[verifier::spinoff_prover]
proof fn lemma_plain_entries(
    s: Seq<char>,
    p: int,
    depth: int,
    entries: Seq<(Seq<char>, Json)>,
    k: int,
)
    requires
        0 <= p,
        0 <= k < entries.len(),
        numbers_valid(Json::Object(entries)),
        nests_within(Json::Object(entries), depth - 1),
        stands_at(s, p, plain_entries(entries)[k]),
        stands_at(
            s,
            p + plain_entries(entries)[k].len(),
            after_part(plain_entries(entries), k, '}'),
        ),
    ensures
        read_entries(s, p, depth, entries.take(k)) == Ok::<(Json, int), Fault>(
            (
                Json::Object(entries),
                p + plain_entries(entries)[k].len() + after_part(
                    plain_entries(entries),
                    k,
                    '}',
                ).len(),
            ),
        ),
    decreases entries, entries.len() - k,
{
    let parts = plain_entries(entries);
    let key = quoted(entries[k].0);
    let value = plain_text(entries[k].1);
    let tail = after_part(parts, k, '}');
    let colon = p + key.len();
    let at = colon + 1;
    let e = at + value.len();
    assert(parts[k] =~= key + (seq![':'] + value));
    lemma_stands_split(s, p, key, seq![':'] + value);
    lemma_stands_split(s, colon, seq![':'], value);
    lemma_read_quoted(s, p, entries[k].0);
    assert(skip_space(s, p) == p);
    lemma_stands_char(s, colon, seq![':'], 0);
    assert(skip_space(s, colon) == colon);
    lemma_entry_fits(entries, k, depth - 1);
    lemma_plain_start(entries[k].1);
    lemma_stands_char(s, at, value, 0);
    assert(skip_space(s, at) == at);
    lemma_stands_char(s, e, tail, 0);
    lemma_plain_reads_back(s, at, depth, entries[k].1);
    lemma_read_entries(s, p, depth, entries.take(k));
    assert(skip_space(s, e) == e);
    assert(entries.take(k).push((entries[k].0, entries[k].1)) =~= entries.take(k + 1));
    if k + 1 < entries.len() {
        lemma_parts_from(parts, k + 1, '}');
        let next = parts[k + 1];
        lemma_stands_split(s, e, seq![','], next + after_part(parts, k + 1, '}'));
        lemma_stands_split(s, e + 1, next, after_part(parts, k + 1, '}'));
        lemma_plain_entries(s, e + 1, depth, entries, k + 1);
    } else {
        assert(entries.take(k + 1) =~= entries);
    }
}

/// A canonical text reads as the normal form of the document it was made from:
/// nothing of the document is lost in it but the order of entries and the way
/// its numbers were written.
pub proof fn law_canonical_text_reads_back(t: Json, c: Seq<char>)
    requires
        nests_within(t, 0),
        canonical_text(t) == Ok::<Seq<char>, Fault>(c),
    ensures
        read_document(c) == Ok::<Json, Fault>(normal(t)),
{
    law_canonical_text_is_owed(t);
    lemma_normal_fits(t, 0);
    let n = normal(t);
    lemma_plain_start(n);
    assert(c.subrange(0, c.len() as int) =~= c);
    assert(skip_space(c, 0) == 0);
    lemma_plain_reads_back(c, 0, 0, n);
}

/// One canonical text stands for one document: two documents have the same
/// canonical text exactly where they have the same normal form.
pub proof fn law_canonical_text_tells_documents_apart(a: Json, b: Json)
    requires
        nests_within(a, 0),
        nests_within(b, 0),
        acceptable(a),
        acceptable(b),
    ensures
        canonical_text(a) == canonical_text(b) <==> normal(a) == normal(b),
{
    law_canonical_text_is_owed(a);
    law_canonical_text_is_owed(b);
    law_canonical_text_reads_back(a, plain_text(normal(a)));
    law_canonical_text_reads_back(b, plain_text(normal(b)));
}

/// Keys that ascend already are in order as they stand.
proof fn lemma_climbing_order(keys: Seq<Seq<char>>)
    requires
        climbs(keys),
    ensures
        key_order(keys) == Seq::new(keys.len(), |k: int| k),
    decreases keys.len(),
{
    let n = keys.len() as int;
    if n > 0 {
        let front = keys.drop_last();
        assert forall|a: int, b: int| 0 <= a < b < front.len() implies text_less(
            #[trigger] front[a],
            #[trigger] front[b],
        ) by {
            assert(text_less(keys[a], keys[b]));
        }
        lemma_climbing_order(front);
        let order = key_order(front);
        if n > 1 {
            assert(order.last() == n - 2);
            assert(text_less(keys[n - 2], keys[n - 1]));
            lemma_less_asymmetric(keys[n - 2], keys[n - 1]);
        }
        assert(place(keys, order, n - 1) == order.push(n - 1));
    }
    assert(key_order(keys) =~= Seq::new(keys.len(), |k: int| k));
}

/// A normal form is acceptable only where its integers are safe.
proof fn lemma_acceptable_is_safe(t: Json)
    requires
        acceptable(t),
        acceptable(normal(t)),
    ensures
        integers_safe(normal(t)),
    decreases t,
{
    let n = normal(t);
    match t {
        Json::Number(token) => {
            lemma_spelling(token, canonical_number_of(token, ""@)->Ok_0);
        },
        Json::Array(items) => {
            assert forall|i: int| 0 <= i < n->Array_0.len() implies integers_safe(
                #[trigger] n->Array_0[i],
            ) by {
                assert(acceptable(t->Array_0[i]) && acceptable(n->Array_0[i]));
                lemma_acceptable_is_safe(items[i]);
            }
        },
        Json::Object(entries) => {
            let order = key_order(keys_of(entries));
            law_key_order_sorts(keys_of(entries));
            assert forall|k: int| 0 <= k < n->Object_0.len() implies integers_safe(
                (#[trigger] n->Object_0[k]).1,
            ) by {
                assert(order.contains(order[k]));
                let i = order[k];
                assert(acceptable(t->Object_0[i].1) && acceptable(n->Object_0[k].1));
                lemma_acceptable_is_safe(entries[i].1);
            }
        },
        _ => {},
    }
}

/// A normal form whose integers are safe is acceptable, and its own normal form.
proof fn lemma_normal_is_normal(t: Json)
    requires
        acceptable(t),
        integers_safe(normal(t)),
    ensures
        acceptable(normal(t)),
        normal(normal(t)) == normal(t),
    decreases t,
{
    let n = normal(t);
    match t {
        Json::Number(token) => {
            lemma_spelling(token, canonical_number_of(token, ""@)->Ok_0);
        },
        Json::Array(items) => {
            assert forall|i: int| 0 <= i < n->Array_0.len() implies acceptable(
                #[trigger] n->Array_0[i],
            ) && normal(n->Array_0[i]) == n->Array_0[i] by {
                assert(acceptable(t->Array_0[i]));
                assert(integers_safe(n->Array_0[i]));
                lemma_normal_is_normal(items[i]);
            }
            assert(normal(n)->Array_0 =~= n->Array_0);
        },
        Json::Object(entries) => {
            let order = key_order(keys_of(entries));
            let tidy = n->Object_0;
            assert(keys_distinct(t->Object_0));
            law_key_order_sorts(keys_of(entries));
            lemma_sorted_keys(entries);
            assert forall|k: int| 0 <= k < tidy.len() implies is_ascii_chars(
                (#[trigger] tidy[k]).0,
            ) && acceptable(tidy[k].1) && normal(tidy[k].1) == tidy[k].1 && tidy[k].0
                == sorted_keys(entries)[k] by {
                assert(order.contains(order[k]));
                let i = order[k];
                assert(is_ascii_chars(t->Object_0[i].0) && acceptable(t->Object_0[i].1));
                assert(integers_safe(n->Object_0[k].1));
                lemma_normal_is_normal(entries[i].1);
            }
            assert(keys_of(tidy) =~= sorted_keys(entries));
            assert forall|a: int, b: int| 0 <= a < b < tidy.len() implies (#[trigger] tidy[a]).0
                != (#[trigger] tidy[b]).0 by {
                assert(text_less(sorted_keys(entries)[a], sorted_keys(entries)[b]));
                lemma_less_irreflexive(tidy[a].0);
            }
            lemma_climbing_order(keys_of(tidy));
            assert(normal(n)->Object_0 =~= tidy);
        },
        _ => {},
    }
}

/// A canonical text is its own canonical text. The one exception is a text that
/// spells an integer which a JavaScript `Number` cannot hold, as `1e20` comes
/// out: that has no canonical text.
pub proof fn law_canonical_text_is_its_own(text: Seq<char>, t: Json, c: Seq<char>)
    requires
        read_document(text) == Ok::<Json, Fault>(t),
        canonical_of_text(text) == Ok::<Seq<char>, Fault>(c),
    ensures
        read_document(c) == Ok::<Json, Fault>(normal(t)),
        canonical_of_text(c) is Ok <==> integers_safe(normal(t)),
        canonical_of_text(c) is Ok ==> canonical_of_text(c) == Ok::<Seq<char>, Fault>(c),
{
    lemma_read_fits(text, skip_space(text, 0), 0);
    law_canonical_text_is_owed(t);
    law_canonical_text_reads_back(t, c);
    law_canonical_text_is_owed(normal(t));
    if acceptable(normal(t)) {
        lemma_acceptable_is_safe(t);
    }
    if integers_safe(normal(t)) {
        lemma_normal_is_normal(t);
    }
}

} // verus!
