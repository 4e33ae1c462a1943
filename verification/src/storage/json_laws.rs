//! What is printed reads back as what it was.

use crate::storage::canonical::{escaped, escaped_char, quoted};
use crate::storage::integrity::{digests_of_text, findings_of_text};
use crate::storage::json::{
    char_at, hex_value, is_space, lemma_number_stands, lemma_number_token, lemma_read_array,
    lemma_read_entries, lemma_read_items, lemma_read_object, numbers_valid, plain_escape,
    read_document, read_entries, read_hex4, read_items, read_number, read_string, read_string_rest,
    read_unicode, read_value, skip_space, stands_at, Fault, Json, MAX_DEPTH,
};
use crate::storage::pretty::{
    entry_rows, indented, item_rows, joined_lines, pretty_at, pretty_text,
};
use crate::text::{byte_offset, hex_char, is_digit};
use vstd::prelude::*;

verus! {

/// Two texts, one behind the other, stand where each of them stands.
pub(crate) proof fn lemma_stands_split(s: Seq<char>, p: int, a: Seq<char>, b: Seq<char>)
    requires
        0 <= p,
    ensures
        stands_at(s, p, a + b) <==> stands_at(s, p, a) && stands_at(s, p + a.len(), b),
{
    if stands_at(s, p, a + b) {
        assert(s.subrange(p, p + a.len()) =~= (s.subrange(p, p + (a + b).len())).take(
            a.len() as int,
        ));
        assert((a + b).take(a.len() as int) =~= a);
        assert(s.subrange(p + a.len(), p + a.len() + b.len()) =~= (s.subrange(
            p,
            p + (a + b).len(),
        )).skip(a.len() as int));
        assert((a + b).skip(a.len() as int) =~= b);
    }
    if stands_at(s, p, a) && stands_at(s, p + a.len(), b) {
        assert(s.subrange(p, p + (a + b).len()) =~= s.subrange(p, p + a.len()) + s.subrange(
            p + a.len(),
            p + a.len() + b.len(),
        ));
    }
}

/// A text that stands at `p` gives its characters there.
pub(crate) proof fn lemma_stands_char(s: Seq<char>, p: int, a: Seq<char>, i: int)
    requires
        0 <= p,
        stands_at(s, p, a),
        0 <= i < a.len(),
    ensures
        s[p + i] == a[i],
        p + i < s.len(),
{
    assert(s.subrange(p, p + a.len())[i] == s[p + i]);
}

/// Each character takes at least one byte.
pub(crate) proof fn lemma_bytes_grow(s: Seq<char>, a: int, b: int)
    requires
        0 <= a <= b,
    ensures
        byte_offset(s, b) >= byte_offset(s, a) + (b - a),
    decreases b - a,
{
    if a < b {
        lemma_bytes_grow(s, a, b - 1);
    }
}

/// A spelled character reads as that character.
proof fn lemma_read_escaped_char(s: Seq<char>, p: int, acc: Seq<char>, c: char)
    requires
        0 <= p,
        stands_at(s, p, escaped_char(c)),
        p + escaped_char(c).len() < s.len(),
    ensures
        read_string_rest(s, p, acc) == read_string_rest(
            s,
            p + escaped_char(c).len(),
            acc.push(c),
        ),
        escaped_char(c).len() > 0,
{
    let e = escaped_char(c);
    reveal_strlit("\\\"");
    reveal_strlit("\\\\");
    reveal_strlit("\\b");
    reveal_strlit("\\f");
    reveal_strlit("\\n");
    reveal_strlit("\\r");
    reveal_strlit("\\t");
    reveal_strlit("\\u00");
    lemma_stands_char(s, p, e, 0);
    if c == '"' || c == '\\' || c == '\u{8}' || c == '\u{c}' || c == '\n' || c == '\r' || c
        == '\t' {
        lemma_stands_char(s, p, e, 1);
        assert(plain_escape(s[p + 1]) == Some(c));
    } else if (c as u32) < 0x20 {
        lemma_stands_char(s, p, e, 1);
        lemma_stands_char(s, p, e, 2);
        lemma_stands_char(s, p, e, 3);
        lemma_stands_char(s, p, e, 4);
        lemma_stands_char(s, p, e, 5);
        lemma_bytes_grow(s, p + 2, s.len() as int);
        let high = c as nat / 16;
        let low = c as nat % 16;
        assert(hex_value(hex_char(high)) == Some(high));
        assert(hex_value(hex_char(low)) == Some(low));
        assert(hex_value('0') == Some(0nat));
        assert(read_hex4(s, p + 2) == Ok::<nat, Fault>(c as nat));
        assert(read_unicode(s, p + 2) == Ok::<(char, int), Fault>((c, p + 6)));
    }
}

/// The spelling of a text, taken from its front.
proof fn lemma_escaped_front(x: Seq<char>)
    requires
        x.len() > 0,
    ensures
        escaped(x) == escaped_char(x[0]) + escaped(x.skip(1)),
    decreases x.len(),
{
    if x.len() == 1 {
        assert(x.drop_last() =~= Seq::<char>::empty());
        assert(x.skip(1) =~= Seq::<char>::empty());
        assert(escaped(x) =~= escaped_char(x[0]) + escaped(x.skip(1)));
    } else {
        lemma_escaped_front(x.drop_last());
        assert(x.drop_last().skip(1) =~= x.skip(1).drop_last());
        assert(escaped(x) =~= escaped_char(x[0]) + escaped(x.skip(1)));
    }
}

/// A spelled text reads as that text, up to its closing quote.
proof fn lemma_read_escaped(s: Seq<char>, p: int, acc: Seq<char>, x: Seq<char>)
    requires
        0 <= p,
        stands_at(s, p, escaped(x)),
        char_at(s, p + escaped(x).len(), '"'),
    ensures
        read_string_rest(s, p, acc) == Ok::<(Seq<char>, int), Fault>(
            (acc + x, p + escaped(x).len() + 1),
        ),
    decreases x.len(),
{
    if x.len() == 0 {
        assert(acc + x =~= acc);
    } else {
        lemma_escaped_front(x);
        let head = escaped_char(x[0]);
        lemma_stands_split(s, p, head, escaped(x.skip(1)));
        lemma_read_escaped_char(s, p, acc, x[0]);
        lemma_read_escaped(s, p + head.len(), acc.push(x[0]), x.skip(1));
        assert(acc.push(x[0]) + x.skip(1) =~= acc + x);
    }
}

/// A quoted text reads as that text.
pub(crate) proof fn lemma_read_quoted(s: Seq<char>, p: int, x: Seq<char>)
    requires
        0 <= p,
        stands_at(s, p, quoted(x)),
    ensures
        read_string(s, p) == Ok::<(Seq<char>, int), Fault>((x, p + quoted(x).len())),
        char_at(s, p, '"'),
{
    lemma_stands_split(s, p, seq!['"'] + escaped(x), seq!['"']);
    lemma_stands_split(s, p, seq!['"'], escaped(x));
    lemma_stands_char(s, p, seq!['"'], 0);
    lemma_stands_char(s, p + 1 + escaped(x).len(), seq!['"'], 0);
    lemma_read_escaped(s, p + 1, Seq::empty(), x);
    assert(Seq::<char>::empty() + x =~= x);
}

/// Whether `s` is white space only.
pub open spec fn all_space(s: Seq<char>) -> bool {
    forall|i: int| 0 <= i < s.len() ==> is_space(#[trigger] s[i])
}

/// White space up to a character that is none is skipped.
proof fn lemma_skip_space(s: Seq<char>, p: int, gap: Seq<char>)
    requires
        0 <= p,
        stands_at(s, p, gap),
        all_space(gap),
        p + gap.len() < s.len() ==> !is_space(s[p + gap.len()]),
    ensures
        skip_space(s, p) == p + gap.len(),
    decreases gap.len(),
{
    if gap.len() > 0 {
        lemma_stands_char(s, p, gap, 0);
        let rest = gap.skip(1);
        assert(gap =~= seq![gap[0]] + rest);
        lemma_stands_split(s, p, seq![gap[0]], rest);
        assert forall|i: int| 0 <= i < rest.len() implies is_space(#[trigger] rest[i]) by {
            assert(rest[i] == gap[i + 1]);
        }
        lemma_skip_space(s, p + 1, rest);
    }
}

/// Lines, taken from their front.
proof fn lemma_lines_front(rows: Seq<Seq<char>>)
    requires
        rows.len() > 1,
    ensures
        joined_lines(rows) == rows[0] + (",\n"@ + joined_lines(rows.skip(1))),
    decreases rows.len(),
{
    if rows.len() == 2 {
        assert(rows.drop_last()[0] == rows[0]);
        assert(rows.skip(1)[0] == rows[1]);
        assert(joined_lines(rows.drop_last()) == rows[0]);
        assert(joined_lines(rows.skip(1)) == rows[1]);
        assert(joined_lines(rows) =~= rows[0] + (",\n"@ + joined_lines(rows.skip(1))));
    } else {
        lemma_lines_front(rows.drop_last());
        let behind = rows.skip(1);
        assert(rows.drop_last().skip(1) =~= behind.drop_last());
        assert(rows.drop_last()[0] == rows[0]);
        assert(behind.last() == rows.last());
        assert(joined_lines(behind) == joined_lines(behind.drop_last()) + ",\n"@ + rows.last());
        assert(joined_lines(rows) =~= rows[0] + (",\n"@ + joined_lines(rows.skip(1))));
    }
}

/// Whether a tree at `depth` nests no deeper than a reader follows.
pub open spec fn nests_within(t: Json, depth: int) -> bool
    decreases t,
{
    depth <= MAX_DEPTH && match t {
        Json::Array(items) => forall|i: int|
            0 <= i < items.len() ==> nests_within(#[trigger] items[i], depth + 1),
        Json::Object(entries) => forall|i: int|
            0 <= i < entries.len() ==> nests_within((#[trigger] entries[i]).1, depth + 1),
        _ => true,
    }
}

/// Whether what stands at `p` cannot go on with a number, nor is white space
/// that a value would start with.
spec fn ends_at(s: Seq<char>, p: int) -> bool {
    p < s.len() ==> s[p] == ',' || s[p] == '\n'
}

/// What follows the item `k` of an array, up to and with the closing bracket.
spec fn after_row(rows: Seq<Seq<char>>, k: int, close: Seq<char>) -> Seq<char> {
    if k + 1 < rows.len() {
        ",\n"@ + joined_lines(rows.skip(k + 1)) + close
    } else {
        close
    }
}

/// The lines from `k` on are the line `k` and what follows it.
proof fn lemma_rows_from(rows: Seq<Seq<char>>, k: int, close: Seq<char>)
    requires
        0 <= k < rows.len(),
    ensures
        joined_lines(rows.skip(k)) + close == rows[k] + after_row(rows, k, close),
{
    let from = rows.skip(k);
    if k + 1 < rows.len() {
        lemma_lines_front(from);
        assert(from.skip(1) =~= rows.skip(k + 1));
        assert(joined_lines(from) + close =~= rows[k] + after_row(rows, k, close));
    } else {
        assert(from.len() == 1);
        assert(joined_lines(from) == rows[k]);
    }
}

/// Indentation is white space.
proof fn lemma_indent_is_space(pad: Seq<char>)
    requires
        all_space(pad),
    ensures
        all_space(indented(pad)),
        all_space("\n"@ + indented(pad)),
        all_space("\n"@ + pad),
{
    reveal_strlit("  ");
    reveal_strlit("\n");
}

/// The first character of a printed value.
proof fn lemma_value_start(t: Json, pad: Seq<char>)
    requires
        numbers_valid(t),
    ensures
        pretty_at(t, pad).len() > 0,
        !is_space(pretty_at(t, pad)[0]),
        pretty_at(t, pad)[0] != ']',
        pretty_at(t, pad)[0] != '}',
{
    reveal_strlit("null");
    reveal_strlit("true");
    reveal_strlit("false");
    reveal_strlit("[]");
    reveal_strlit("{}");
    reveal_strlit("[\n");
    reveal_strlit("{\n");
    if let Json::Number(token) = t {
        lemma_number_token(token, 0, token.len() as int);
    }
}

/// What holds of an array's numbers and depth holds of its items.
pub(crate) proof fn lemma_item_fits(items: Seq<Json>, k: int, depth: int)
    requires
        0 <= k < items.len(),
        numbers_valid(Json::Array(items)),
        nests_within(Json::Array(items), depth),
    ensures
        numbers_valid(items[k]),
        nests_within(items[k], depth + 1),
{
    let t = Json::Array(items);
    assert(t->Array_0[k] == items[k]);
    assert(numbers_valid(t->Array_0[k]));
    assert(nests_within(t->Array_0[k], depth + 1));
}

/// What holds of an object's numbers and depth holds of its values.
pub(crate) proof fn lemma_entry_fits(entries: Seq<(Seq<char>, Json)>, k: int, depth: int)
    requires
        0 <= k < entries.len(),
        numbers_valid(Json::Object(entries)),
        nests_within(Json::Object(entries), depth),
    ensures
        numbers_valid(entries[k].1),
        nests_within(entries[k].1, depth + 1),
{
    let t = Json::Object(entries);
    assert(t->Object_0[k] == entries[k]);
    assert(numbers_valid(t->Object_0[k].1));
    assert(nests_within(t->Object_0[k].1, depth + 1));
}

/// A printed value reads as that value.
proof fn lemma_reads_back(s: Seq<char>, p: int, depth: int, t: Json, pad: Seq<char>)
    requires
        0 <= p,
        numbers_valid(t),
        nests_within(t, depth),
        all_space(pad),
        stands_at(s, p, pretty_at(t, pad)),
        ends_at(s, p + pretty_at(t, pad).len()),
    ensures
        read_value(s, p, depth) == Ok::<(Json, int), Fault>((t, p + pretty_at(t, pad).len())),
    decreases t, 0int,
{
    let text = pretty_at(t, pad);
    let end = p + text.len();
    lemma_value_start(t, pad);
    lemma_stands_char(s, p, text, 0);
    match t {
        Json::Array(items) => {
            if items.len() == 0 {
                reveal_strlit("[]");
                lemma_stands_char(s, p, text, 1);
                lemma_read_array(s, p, depth);
                assert(skip_space(s, p + 1) == p + 1);
                assert(items =~= Seq::<Json>::empty());
            } else {
                lemma_array_reads_back(s, p, depth, items, pad);
            }
        },
        Json::Object(entries) => {
            if entries.len() == 0 {
                reveal_strlit("{}");
                lemma_stands_char(s, p, text, 1);
                lemma_read_object(s, p, depth);
                assert(skip_space(s, p + 1) == p + 1);
                assert(entries =~= Seq::<(Seq<char>, Json)>::empty());
            } else {
                lemma_object_reads_back(s, p, depth, entries, pad);
            }
        },
        Json::Str(x) => {
            lemma_read_quoted(s, p, x);
            reveal(read_value);
        },
        Json::Number(token) => {
            assert(s.subrange(p, end) =~= token);
            lemma_number_stands(s, p, end);
            reveal(read_value);
        },
        Json::Null => {
            reveal_strlit("null");
            reveal(read_value);
        },
        Json::Bool(b) => {
            reveal_strlit("true");
            reveal_strlit("false");
            reveal(read_value);
        },
    }
}

/// A printed array reads as that array.
proof fn lemma_array_reads_back(s: Seq<char>, p: int, depth: int, items: Seq<Json>, pad: Seq<char>)
    requires
        0 <= p,
        items.len() > 0,
        numbers_valid(Json::Array(items)),
        nests_within(Json::Array(items), depth),
        all_space(pad),
        stands_at(s, p, pretty_at(Json::Array(items), pad)),
        ends_at(s, p + pretty_at(Json::Array(items), pad).len()),
    ensures
        read_value(s, p, depth) == Ok::<(Json, int), Fault>(
            (Json::Array(items), p + pretty_at(Json::Array(items), pad).len()),
        ),
    decreases items, items.len() + 1,
{
    let inner = indented(pad);
    let rows = item_rows(items, inner);
    let close = "\n"@ + pad + "]"@;
    let text = pretty_at(Json::Array(items), pad);
    let tail = after_row(rows, 0, close);
    let value = pretty_at(items[0], inner);
    reveal_strlit("[\n");
    reveal_strlit("\n");
    reveal_strlit("]");
    lemma_indent_is_space(pad);
    lemma_rows_from(rows, 0, close);
    assert(rows.skip(0) =~= rows);
    assert(rows[0] == inner + value);
    assert("[\n"@ =~= seq!['['] + "\n"@);
    assert(text =~= "[\n"@ + (joined_lines(rows) + close));
    assert(text =~= seq!['['] + (("\n"@ + inner) + (value + tail)));
    lemma_stands_split(s, p, seq!['['], ("\n"@ + inner) + (value + tail));
    lemma_stands_char(s, p, seq!['['], 0);
    lemma_stands_split(s, p + 1, "\n"@ + inner, value + tail);
    let v = p + 1 + ("\n"@ + inner).len();
    lemma_stands_split(s, v, value, tail);
    lemma_value_start(items[0], inner);
    lemma_stands_char(s, v, value, 0);
    lemma_skip_space(s, p + 1, "\n"@ + inner);
    lemma_read_array(s, p, depth);
    assert(skip_space(s, v) == v);
    lemma_items_read_back(s, v, v, depth + 1, items, 0, pad);
    assert(items.take(0) =~= Seq::<Json>::empty());
    assert(text.len() == v + value.len() + tail.len() - p);
}

/// The items of a printed array, from the item `k` on, read as those items.
#[verifier::spinoff_prover]
#[verifier::rlimit(60)]
proof fn lemma_items_read_back(
    s: Seq<char>,
    p: int,
    v: int,
    depth: int,
    items: Seq<Json>,
    k: int,
    pad: Seq<char>,
)
    requires
        0 <= p <= v,
        0 <= k < items.len(),
        numbers_valid(Json::Array(items)),
        nests_within(Json::Array(items), depth - 1),
        all_space(pad),
        skip_space(s, p) == v,
        stands_at(s, v, pretty_at(items[k], indented(pad))),
        stands_at(
            s,
            v + pretty_at(items[k], indented(pad)).len(),
            after_row(item_rows(items, indented(pad)), k, "\n"@ + pad + "]"@),
        ),
    ensures
        read_items(s, p, depth, items.take(k)) == Ok::<(Json, int), Fault>(
            (
                Json::Array(items),
                v + pretty_at(items[k], indented(pad)).len() + after_row(
                    item_rows(items, indented(pad)),
                    k,
                    "\n"@ + pad + "]"@,
                ).len(),
            ),
        ),
    decreases items, items.len() - k,
{
    let inner = indented(pad);
    let rows = item_rows(items, inner);
    let close = "\n"@ + pad + "]"@;
    let tail = after_row(rows, k, close);
    let value = pretty_at(items[k], inner);
    let e = v + value.len();
    reveal_strlit("\n");
    reveal_strlit("]");
    reveal_strlit(",\n");
    lemma_indent_is_space(pad);
    lemma_stands_char(s, e, tail, 0);
    lemma_item_fits(items, k, depth - 1);
    lemma_reads_back(s, v, depth, items[k], inner);
    lemma_read_items(s, p, depth, items.take(k));
    assert(items.take(k).push(items[k]) =~= items.take(k + 1));
    if k + 1 < items.len() {
        let next = pretty_at(items[k + 1], inner);
        let next_tail = after_row(rows, k + 1, close);
        lemma_rows_from(rows, k + 1, close);
        assert(rows[k + 1] == inner + next);
        assert(",\n"@ =~= seq![','] + "\n"@);
        assert(tail =~= ",\n"@ + (joined_lines(rows.skip(k + 1)) + close));
        assert(tail =~= seq![','] + (("\n"@ + inner) + (next + next_tail)));
        assert(skip_space(s, e) == e);
        lemma_stands_split(s, e, seq![','], ("\n"@ + inner) + (next + next_tail));
        lemma_stands_split(s, e + 1, "\n"@ + inner, next + next_tail);
        let w = e + 1 + ("\n"@ + inner).len();
        lemma_stands_split(s, w, next, next_tail);
        lemma_item_fits(items, k + 1, depth - 1);
        lemma_value_start(items[k + 1], inner);
        lemma_stands_char(s, w, next, 0);
        lemma_skip_space(s, e + 1, "\n"@ + inner);
        lemma_items_read_back(s, e + 1, w, depth, items, k + 1, pad);
    } else {
        assert(close =~= ("\n"@ + pad) + "]"@);
        lemma_stands_split(s, e, "\n"@ + pad, "]"@);
        lemma_stands_char(s, e + ("\n"@ + pad).len(), "]"@, 0);
        lemma_skip_space(s, e, "\n"@ + pad);
        assert(items.take(k + 1) =~= items);
    }
}

/// A printed object reads as that object.
proof fn lemma_object_reads_back(
    s: Seq<char>,
    p: int,
    depth: int,
    entries: Seq<(Seq<char>, Json)>,
    pad: Seq<char>,
)
    requires
        0 <= p,
        entries.len() > 0,
        numbers_valid(Json::Object(entries)),
        nests_within(Json::Object(entries), depth),
        all_space(pad),
        stands_at(s, p, pretty_at(Json::Object(entries), pad)),
        ends_at(s, p + pretty_at(Json::Object(entries), pad).len()),
    ensures
        read_value(s, p, depth) == Ok::<(Json, int), Fault>(
            (Json::Object(entries), p + pretty_at(Json::Object(entries), pad).len()),
        ),
    decreases entries, entries.len() + 1,
{
    let inner = indented(pad);
    let rows = entry_rows(entries, inner);
    let close = "\n"@ + pad + "}"@;
    let text = pretty_at(Json::Object(entries), pad);
    let tail = after_row(rows, 0, close);
    let key = quoted(entries[0].0);
    let field = key + ": "@ + pretty_at(entries[0].1, inner);
    reveal_strlit("{\n");
    reveal_strlit("\n");
    reveal_strlit("}");
    lemma_indent_is_space(pad);
    lemma_rows_from(rows, 0, close);
    assert(rows.skip(0) =~= rows);
    assert(rows[0] =~= inner + field);
    assert("{\n"@ =~= seq!['{'] + "\n"@);
    assert(text =~= "{\n"@ + (joined_lines(rows) + close));
    assert(text =~= seq!['{'] + (("\n"@ + inner) + (field + tail)));
    lemma_stands_split(s, p, seq!['{'], ("\n"@ + inner) + (field + tail));
    lemma_stands_char(s, p, seq!['{'], 0);
    lemma_stands_split(s, p + 1, "\n"@ + inner, field + tail);
    let v = p + 1 + ("\n"@ + inner).len();
    lemma_stands_split(s, v, field, tail);
    lemma_stands_char(s, v, field, 0);
    assert(field[0] == '"');
    lemma_skip_space(s, p + 1, "\n"@ + inner);
    lemma_read_object(s, p, depth);
    assert(skip_space(s, v) == v);
    lemma_entries_read_back(s, v, v, depth + 1, entries, 0, pad);
    assert(entries.take(0) =~= Seq::<(Seq<char>, Json)>::empty());
    assert(text.len() == v + field.len() + tail.len() - p);
}

/// The entries of a printed object, from the entry `k` on, read as those
/// entries.
#[verifier::spinoff_prover]
#[verifier::rlimit(60)]
proof fn lemma_entries_read_back(
    s: Seq<char>,
    p: int,
    v: int,
    depth: int,
    entries: Seq<(Seq<char>, Json)>,
    k: int,
    pad: Seq<char>,
)
    requires
        0 <= p <= v,
        0 <= k < entries.len(),
        numbers_valid(Json::Object(entries)),
        nests_within(Json::Object(entries), depth - 1),
        all_space(pad),
        skip_space(s, p) == v,
        stands_at(
            s,
            v,
            quoted(entries[k].0) + ": "@ + pretty_at(entries[k].1, indented(pad)),
        ),
        stands_at(
            s,
            v + (quoted(entries[k].0) + ": "@ + pretty_at(entries[k].1, indented(pad))).len(),
            after_row(entry_rows(entries, indented(pad)), k, "\n"@ + pad + "}"@),
        ),
    ensures
        read_entries(s, p, depth, entries.take(k)) == Ok::<(Json, int), Fault>(
            (
                Json::Object(entries),
                v + (quoted(entries[k].0) + ": "@ + pretty_at(
                    entries[k].1,
                    indented(pad),
                )).len() + after_row(
                    entry_rows(entries, indented(pad)),
                    k,
                    "\n"@ + pad + "}"@,
                ).len(),
            ),
        ),
    decreases entries, entries.len() - k,
{
    let inner = indented(pad);
    let rows = entry_rows(entries, inner);
    let close = "\n"@ + pad + "}"@;
    let tail = after_row(rows, k, close);
    let key = quoted(entries[k].0);
    let value = pretty_at(entries[k].1, inner);
    let colon = v + key.len();
    let at = colon + 2;
    let e = at + value.len();
    reveal_strlit("\n");
    reveal_strlit("}");
    reveal_strlit(",\n");
    reveal_strlit(": ");
    lemma_indent_is_space(pad);
    lemma_stands_split(s, v, key + ": "@, value);
    lemma_stands_split(s, v, key, ": "@);
    lemma_read_quoted(s, v, entries[k].0);
    lemma_stands_char(s, colon, ": "@, 0);
    lemma_stands_char(s, colon, ": "@, 1);
    assert(skip_space(s, colon) == colon);
    lemma_entry_fits(entries, k, depth - 1);
    lemma_value_start(entries[k].1, inner);
    lemma_stands_char(s, at, value, 0);
    assert(skip_space(s, at) == at);
    assert(skip_space(s, colon + 1) == at);
    lemma_stands_char(s, e, tail, 0);
    lemma_reads_back(s, at, depth, entries[k].1, inner);
    lemma_read_entries(s, p, depth, entries.take(k));
    assert(entries.take(k).push((entries[k].0, entries[k].1)) =~= entries.take(k + 1));
    if k + 1 < entries.len() {
        let next = quoted(entries[k + 1].0) + ": "@ + pretty_at(entries[k + 1].1, inner);
        let next_tail = after_row(rows, k + 1, close);
        lemma_rows_from(rows, k + 1, close);
        assert(rows[k + 1] =~= inner + next);
        assert(",\n"@ =~= seq![','] + "\n"@);
        assert(tail =~= ",\n"@ + (joined_lines(rows.skip(k + 1)) + close));
        assert(tail =~= seq![','] + (("\n"@ + inner) + (next + next_tail)));
        assert(skip_space(s, e) == e);
        lemma_stands_split(s, e, seq![','], ("\n"@ + inner) + (next + next_tail));
        lemma_stands_split(s, e + 1, "\n"@ + inner, next + next_tail);
        let w = e + 1 + ("\n"@ + inner).len();
        lemma_stands_split(s, w, next, next_tail);
        lemma_stands_char(s, w, next, 0);
        assert(next[0] == '"');
        lemma_skip_space(s, e + 1, "\n"@ + inner);
        lemma_entries_read_back(s, e + 1, w, depth, entries, k + 1, pad);
    } else {
        assert(close =~= ("\n"@ + pad) + "}"@);
        lemma_stands_split(s, e, "\n"@ + pad, "}"@);
        lemma_stands_char(s, e + ("\n"@ + pad).len(), "}"@, 0);
        lemma_skip_space(s, e, "\n"@ + pad);
        assert(entries.take(k + 1) =~= entries);
    }
}

/// A printed document reads back as the document it was, number tokens and file
/// order included.
pub proof fn law_printed_document_reads_back(t: Json)
    requires
        numbers_valid(t),
        nests_within(t, 0),
    ensures
        read_document(pretty_text(t)) == Ok::<Json, Fault>(t),
{
    let s = pretty_text(t);
    let text = pretty_at(t, ""@);
    reveal_strlit("");
    reveal_strlit("\n");
    assert(""@ =~= Seq::<char>::empty());
    assert(s.subrange(0, text.len() as int) =~= text);
    lemma_value_start(t, ""@);
    assert(s[0] == text[0]);
    assert(skip_space(s, 0) == 0);
    lemma_reads_back(s, 0, 0, t, ""@);
    assert(s.subrange(text.len() as int, (text.len() + "\n"@.len()) as int) =~= "\n"@);
    lemma_skip_space(s, text.len() as int, "\n"@);
}


/// What reads as a value has numbers as JSON spells them, and nests no deeper
/// than the reader follows.
pub(crate) proof fn lemma_read_fits(s: Seq<char>, p: int, depth: int)
    requires
        read_value(s, p, depth) is Ok,
    ensures
        numbers_valid(read_value(s, p, depth)->Ok_0.0),
        nests_within(read_value(s, p, depth)->Ok_0.0, depth),
    decreases MAX_DEPTH + 2 - depth, 0int, 0int,
{
    reveal(read_value);
    if depth <= MAX_DEPTH && 0 <= p < s.len() {
        if s[p] == '[' {
            lemma_read_array(s, p, depth);
            let q = skip_space(s, p + 1);
            if !char_at(s, q, ']') {
                lemma_items_fit(s, q, depth + 1, Seq::empty());
            }
        } else if s[p] == '{' {
            lemma_read_object(s, p, depth);
            let q = skip_space(s, p + 1);
            if !char_at(s, q, '}') {
                lemma_entries_fit(s, q, depth + 1, Seq::empty());
            }
        } else if s[p] == '-' || is_digit(s[p]) {
            lemma_number_token(s, p, read_number(s, p)->Ok_0);
        }
    }
}

/// Items that read as an array fit, where those before them do.
proof fn lemma_items_fit(s: Seq<char>, p: int, depth: int, acc: Seq<Json>)
    requires
        depth <= MAX_DEPTH + 1,
        read_items(s, p, depth, acc) is Ok,
        forall|i: int|
            0 <= i < acc.len() ==> numbers_valid(#[trigger] acc[i]) && nests_within(acc[i], depth),
    ensures
        numbers_valid(read_items(s, p, depth, acc)->Ok_0.0),
        nests_within(read_items(s, p, depth, acc)->Ok_0.0, depth - 1),
    decreases MAX_DEPTH + 2 - depth, 1int, s.len() - p,
{
    lemma_read_items(s, p, depth, acc);
    let at = skip_space(s, p);
    lemma_read_fits(s, at, depth);
    let (v, after) = read_value(s, at, depth)->Ok_0;
    let grown = acc.push(v);
    let q = skip_space(s, after);
    assert forall|i: int| 0 <= i < grown.len() implies numbers_valid(#[trigger] grown[i])
        && nests_within(grown[i], depth) by {
        if i < acc.len() {
            assert(grown[i] == acc[i]);
        }
    }
    if p <= q && char_at(s, q, ',') {
        lemma_items_fit(s, q + 1, depth, grown);
    } else {
        let t = Json::Array(grown);
        assert(t->Array_0 == grown);
        assert(forall|i: int|
            0 <= i < t->Array_0.len() ==> numbers_valid(#[trigger] t->Array_0[i]) && nests_within(
                t->Array_0[i],
                depth - 1 + 1,
            ));
    }
}

/// Entries that read as an object fit, where those before them do.
proof fn lemma_entries_fit(s: Seq<char>, p: int, depth: int, acc: Seq<(Seq<char>, Json)>)
    requires
        depth <= MAX_DEPTH + 1,
        read_entries(s, p, depth, acc) is Ok,
        forall|i: int|
            0 <= i < acc.len() ==> numbers_valid((#[trigger] acc[i]).1) && nests_within(
                acc[i].1,
                depth,
            ),
    ensures
        numbers_valid(read_entries(s, p, depth, acc)->Ok_0.0),
        nests_within(read_entries(s, p, depth, acc)->Ok_0.0, depth - 1),
    decreases MAX_DEPTH + 2 - depth, 1int, s.len() - p,
{
    lemma_read_entries(s, p, depth, acc);
    let (key, after_key) = read_string(s, skip_space(s, p))->Ok_0;
    let at = skip_space(s, skip_space(s, after_key) + 1);
    lemma_read_fits(s, at, depth);
    let (v, after) = read_value(s, at, depth)->Ok_0;
    let grown = acc.push((key, v));
    let q = skip_space(s, after);
    assert forall|i: int| 0 <= i < grown.len() implies numbers_valid((#[trigger] grown[i]).1)
        && nests_within(grown[i].1, depth) by {
        if i < acc.len() {
            assert(grown[i] == acc[i]);
        }
    }
    if p <= q && char_at(s, q, ',') {
        lemma_entries_fit(s, q + 1, depth, grown);
    } else {
        let t = Json::Object(grown);
        assert(t->Object_0 == grown);
        assert(forall|i: int|
            0 <= i < t->Object_0.len() ==> numbers_valid((#[trigger] t->Object_0[i]).1)
                && nests_within(t->Object_0[i].1, depth - 1 + 1));
    }
}

/// However often a document is read and printed again, it is the same document:
/// it reads the same, digests the same and verifies the same.
pub proof fn law_reprinting_changes_nothing(text: Seq<char>, t: Json)
    requires
        read_document(text) == Ok::<Json, Fault>(t),
    ensures
        read_document(pretty_text(t)) == Ok::<Json, Fault>(t),
        digests_of_text(pretty_text(t)) == digests_of_text(text),
        findings_of_text(pretty_text(t)) == findings_of_text(text),
{
    lemma_read_fits(text, skip_space(text, 0), 0);
    law_printed_document_reads_back(t);
}

} // verus!
