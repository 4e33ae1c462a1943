//! Which texts are a document, and which are refused.

use crate::storage::canonical::{escaped, quoted};
use crate::storage::json::{
    char_at, is_number, lemma_read_array, lemma_read_entries, lemma_read_items, lemma_read_object,
    read_document, read_entries, read_exponent, read_fraction, read_hex4, read_items, read_string,
    read_string_rest, read_value, skip_space, stands_at, Fault, Json,
};
use crate::storage::json_laws::lemma_bytes_grow;
use crate::text::{digits_end, hex_char, is_digit, lemma_digits_end, lemma_run_ends};
use vstd::prelude::*;

verus! {

/// Whether digits alone stand from `a` up to `b`, one at least.
pub open spec fn digits_stand(s: Seq<char>, a: int, b: int) -> bool {
    0 <= a < b <= s.len() && forall|i: int| a <= i < b ==> '0' <= #[trigger] s[i] <= '9'
}

/// Whether a text is a number whose whole part lies from `a` up to `b`, whose fraction
/// ends at `q`, and whose exponent is the rest.
pub open spec fn is_number_split(s: Seq<char>, a: int, b: int, q: int) -> bool {
    &&& a == 0 || (a == 1 && s[0] == '-')
    &&& digits_stand(s, a, b)
    &&& b > a + 1 ==> s[a] != '0'
    &&& q == b || (q > b && s[b] == '.' && digits_stand(s, b + 1, q))
    &&& q == s.len() || (0 <= q < s.len() && (s[q] == 'e' || s[q] == 'E') && (digits_stand(
        s,
        q + 1,
        s.len() as int,
    ) || (q + 1 < s.len() && (s[q + 1] == '+' || s[q + 1] == '-') && digits_stand(
        s,
        q + 2,
        s.len() as int,
    ))))
}

/// A run of digits up to something else.
proof fn lemma_run(s: Seq<char>, a: int, b: int)
    requires
        digits_stand(s, a, b),
        b < s.len() ==> !('0' <= s[b] <= '9'),
    ensures
        digits_end(s, a) == b,
{
    let run = s.subrange(a, b);
    assert forall|i: int| 0 <= i < run.len() implies is_digit(#[trigger] run[i]) by {
        assert(run[i] == s[a + i]);
    }
    lemma_run_ends(s, a, run);
}

/// A run of digits holds them.
proof fn lemma_run_holds(s: Seq<char>, a: int)
    requires
        0 <= a <= s.len(),
        digits_end(s, a) != a,
    ensures
        digits_stand(s, a, digits_end(s, a)),
{
    lemma_digits_end(s, a);
    let b = digits_end(s, a);
    assert forall|i: int| a <= i < b implies '0' <= #[trigger] s[i] <= '9' by {
        assert(is_digit(s.subrange(a, b)[i - a]));
    }
}

/// A text is a number exactly where it is one to the grammar: a minus sign or none,
/// digits of which the first of several is no zero, a point with digits behind it or
/// none, and an exponent with digits or none.
pub proof fn law_number_is_one_to_the_grammar(s: Seq<char>, a: int, b: int, q: int)
    ensures
        is_number_split(s, a, b, q) ==> is_number(s),
        is_number(s) ==> exists|x: int, y: int, z: int| #[trigger] is_number_split(s, x, y, z),
{
    let n = s.len() as int;
    if is_number_split(s, a, b, q) {
        assert('0' <= s[a] <= '9');
        assert(char_at(s, 0, '-') <==> a == 1);
        lemma_run(s, a, b);
        if q > b {
            lemma_run(s, b + 1, q);
        }
        assert(read_fraction(s, b) == Ok::<int, Fault>(q));
        if q < n {
            if digits_stand(s, q + 1, n) {
                assert('0' <= s[q + 1] <= '9');
                lemma_run(s, q + 1, n);
            } else {
                lemma_run(s, q + 2, n);
            }
            assert(read_exponent(s, q) == Ok::<int, Fault>(n));
        }
    }
    if is_number(s) {
        let x: int = if char_at(s, 0, '-') {
            1
        } else {
            0
        };
        let y = digits_end(s, x);
        lemma_run_holds(s, x);
        let z = read_fraction(s, y)->Ok_0;
        assert(read_fraction(s, y) is Ok);
        if char_at(s, y, '.') {
            lemma_run_holds(s, y + 1);
        }
        assert(read_exponent(s, z) == Ok::<int, Fault>(n));
        if char_at(s, z, 'e') || char_at(s, z, 'E') {
            let start = if char_at(s, z + 1, '+') || char_at(s, z + 1, '-') {
                z + 2
            } else {
                z + 1
            };
            lemma_run_holds(s, start);
        }
        assert(is_number_split(s, x, y, z));
    }
}

/// White space is passed over, and nothing else.
proof fn lemma_space(s: Seq<char>, p: int)
    requires
        0 <= p <= s.len(),
    ensures
        p <= skip_space(s, p) <= s.len(),
        forall|i: int|
            p <= i < skip_space(s, p) ==> #[trigger] s[i] == ' ' || s[i] == '\t' || s[i] == '\n'
                || s[i] == '\r',
        skip_space(s, p) < s.len() ==> {
            let c = s[skip_space(s, p)];
            c != ' ' && c != '\t' && c != '\n' && c != '\r'
        },
    decreases s.len() - p,
{
    if p < s.len() && (s[p] == ' ' || s[p] == '\t' || s[p] == '\n' || s[p] == '\r') {
        lemma_space(s, p + 1);
    }
}

/// A document is one value, with nothing but white space round it: where anything else
/// stands behind the value, it is refused.
pub proof fn law_document_is_one_value(s: Seq<char>, p: int)
    requires
        0 <= p <= s.len(),
        forall|i: int|
            0 <= i < p ==> #[trigger] s[i] == ' ' || s[i] == '\t' || s[i] == '\n' || s[i] == '\r',
        p < s.len() ==> s[p] != ' ' && s[p] != '\t' && s[p] != '\n' && s[p] != '\r',
    ensures
        read_value(s, p, 0) is Err ==> read_document(s) is Err,
        read_value(s, p, 0) matches Ok((v, q)) ==> {
            &&& 0 <= q <= s.len() ==> (read_document(s) is Ok <==> forall|i: int|
                q <= i < s.len() ==> #[trigger] s[i] == ' ' || s[i] == '\t' || s[i] == '\n' || s[i]
                    == '\r')
            &&& read_document(s) is Ok ==> read_document(s)->Ok_0 == v
        },
{
    lemma_space(s, 0);
    let k = skip_space(s, 0);
    if k < p {
        assert(s[k] == ' ' || s[k] == '\t' || s[k] == '\n' || s[k] == '\r');
    } else if p < k {
        assert(s[p] == ' ' || s[p] == '\t' || s[p] == '\n' || s[p] == '\r');
    }
    if let Ok((v, q)) = read_value(s, p, 0) {
        if 0 <= q <= s.len() {
            lemma_space(s, q);
        }
    }
}

/// What a value is, its first character says; each of the three words stands in full;
/// and nothing stands deeper than a hundred and twenty-eight levels.
pub proof fn law_first_character_says_the_kind(s: Seq<char>, p: int, depth: int)
    requires
        0 <= p < s.len(),
    ensures
        read_value(s, p, depth) is Ok ==> depth <= 128,
        read_value(s, p, depth) matches Ok((v, q)) ==> {
            &&& v is Null ==> stands_at(s, p, "null"@) && q == p + 4
            &&& v == Json::Bool(true) ==> stands_at(s, p, "true"@) && q == p + 4
            &&& v == Json::Bool(false) ==> stands_at(s, p, "false"@) && q == p + 5
            &&& v is Str <==> s[p] == '"'
            &&& v is Array ==> s[p] == '['
            &&& v is Object ==> s[p] == '{'
            &&& v is Number <==> s[p] == '-' || '0' <= s[p] <= '9'
            &&& v matches Json::Number(token) ==> token == s.subrange(p, q)
        },
        depth <= 128 && stands_at(s, p, "null"@) ==> read_value(s, p, depth) == Ok::<
            (Json, int),
            Fault,
        >((Json::Null, p + 4)),
        depth <= 128 && stands_at(s, p, "true"@) ==> read_value(s, p, depth) == Ok::<
            (Json, int),
            Fault,
        >((Json::Bool(true), p + 4)),
        depth <= 128 && stands_at(s, p, "false"@) ==> read_value(s, p, depth) == Ok::<
            (Json, int),
            Fault,
        >((Json::Bool(false), p + 5)),
{
    reveal_strlit("null");
    reveal_strlit("true");
    reveal_strlit("false");
    if stands_at(s, p, "null"@) {
        assert(s.subrange(p, p + 4)[0] == s[p]);
    }
    if stands_at(s, p, "true"@) {
        assert(s.subrange(p, p + 4)[0] == s[p]);
    }
    if stands_at(s, p, "false"@) {
        assert(s.subrange(p, p + 5)[0] == s[p]);
    }
    lemma_list_kinds(s, skip_space(s, p + 1), depth + 1);
    if depth <= 128 && s[p] == '[' {
        lemma_read_array(s, p, depth);
    } else if depth <= 128 && s[p] == '{' {
        lemma_read_object(s, p, depth);
    } else {
        reveal(read_value);
    }
}

/// What is read between brackets is a list, and between braces an object.
proof fn lemma_list_kinds(s: Seq<char>, p: int, depth: int)
    ensures
        read_items(s, p, depth, Seq::empty()) matches Ok((v, q)) ==> v is Array,
        read_entries(s, p, depth, Seq::empty()) matches Ok((v, q)) ==> v is Object,
{
    lemma_items_kind(s, p, depth, Seq::empty());
    lemma_entries_kind(s, p, depth, Seq::empty());
}

/// What is read between brackets is a list.
proof fn lemma_items_kind(s: Seq<char>, p: int, depth: int, acc: Seq<Json>)
    ensures
        read_items(s, p, depth, acc) matches Ok((v, q)) ==> v is Array,
    decreases s.len() - p,
{
    lemma_read_items(s, p, depth, acc);
    if let Ok((v, after)) = read_value(s, skip_space(s, p), depth) {
        let q = skip_space(s, after);
        if p <= q && char_at(s, q, ',') {
            lemma_items_kind(s, q + 1, depth, acc.push(v));
        }
    }
}

/// What is read between braces is an object.
proof fn lemma_entries_kind(s: Seq<char>, p: int, depth: int, acc: Seq<(Seq<char>, Json)>)
    ensures
        read_entries(s, p, depth, acc) matches Ok((v, q)) ==> v is Object,
    decreases s.len() - p,
{
    lemma_read_entries(s, p, depth, acc);
    if let Ok((key, after_key)) = read_string(s, skip_space(s, p)) {
        let colon = skip_space(s, after_key);
        if char_at(s, colon, ':') {
            if let Ok((v, after)) = read_value(s, skip_space(s, colon + 1), depth) {
                let q = skip_space(s, after);
                if p <= q && char_at(s, q, ',') {
                    lemma_entries_kind(s, q + 1, depth, acc.push((key, v)));
                }
            }
        }
    }
}

/// A text between quotes stands for itself, but for what a backslash says; a quote ends
/// it, and a control character is refused.
pub proof fn law_text_stands_for_itself(s: Seq<char>, p: int, acc: Seq<char>)
    requires
        0 <= p < s.len(),
    ensures
        s[p] == '"' ==> read_string_rest(s, p, acc) == Ok::<(Seq<char>, int), Fault>((acc, p + 1)),
        (s[p] as u32) < 32 ==> read_string_rest(s, p, acc) is Err,
        (s[p] as u32) >= 32 && s[p] != '"' && s[p] != '\\' ==> read_string_rest(s, p, acc)
            == read_string_rest(s, p + 1, acc.push(s[p])),
        s[p] == '\\' && p + 1 == s.len() ==> read_string_rest(s, p, acc) is Err,
        s[p] == '\\' && p + 1 < s.len() ==> {
            let c = s[p + 1];
            &&& c == '"' || c == '\\' || c == '/' ==> read_string_rest(s, p, acc)
                == read_string_rest(s, p + 2, acc.push(c))
            &&& c == 'b' ==> read_string_rest(s, p, acc) == read_string_rest(
                s,
                p + 2,
                acc.push('\u{8}'),
            )
            &&& c == 'f' ==> read_string_rest(s, p, acc) == read_string_rest(
                s,
                p + 2,
                acc.push('\u{c}'),
            )
            &&& c == 'n' ==> read_string_rest(s, p, acc) == read_string_rest(
                s,
                p + 2,
                acc.push('\n'),
            )
            &&& c == 'r' ==> read_string_rest(s, p, acc) == read_string_rest(
                s,
                p + 2,
                acc.push('\r'),
            )
            &&& c == 't' ==> read_string_rest(s, p, acc) == read_string_rest(
                s,
                p + 2,
                acc.push('\t'),
            )
            &&& c != '"' && c != '\\' && c != '/' && c != 'b' && c != 'f' && c != 'n' && c != 'r'
                && c != 't' && c != 'u' ==> read_string_rest(s, p, acc) is Err
        },
{
}

/// The number that a hexadecimal digit stands for, where it is one.
pub open spec fn hex_digit(c: char) -> Option<int> {
    if '0' <= c <= '9' {
        Some(c as int - '0' as int)
    } else if 'a' <= c <= 'f' {
        Some(c as int - 'a' as int + 10)
    } else if 'A' <= c <= 'F' {
        Some(c as int - 'A' as int + 10)
    } else {
        None
    }
}

/// The code that four hexadecimal digits from `p` on spell, where there are four.
pub open spec fn code_at(s: Seq<char>, p: int) -> Option<int> {
    if p + 4 <= s.len() && hex_digit(s[p]) is Some && hex_digit(s[p + 1]) is Some && hex_digit(
        s[p + 2],
    ) is Some && hex_digit(s[p + 3]) is Some {
        Some(
            4096 * hex_digit(s[p])->0 + 256 * hex_digit(s[p + 1])->0 + 16 * hex_digit(s[p + 2])->0
                + hex_digit(s[p + 3])->0,
        )
    } else {
        None
    }
}

/// The code of an escape is the one that its four digits spell.
proof fn lemma_code(s: Seq<char>, p: int)
    requires
        0 <= p <= s.len(),
    ensures
        code_at(s, p) is None <==> read_hex4(s, p) is Err,
        code_at(s, p) is Some ==> read_hex4(s, p) == Ok::<nat, Fault>(code_at(s, p)->0 as nat),
        code_at(s, p) is Some ==> 0 <= code_at(s, p)->0 < 0x10000,
{
    if p + 4 <= s.len() {
        lemma_bytes_grow(s, p, s.len() as int);
    }
}

/// An escape of four hexadecimal digits stands for the character of that code; two of
/// them that are a pair of surrogates stand for the one character that the pair is; a
/// surrogate without its other half, and anything but four digits, is refused.
pub proof fn law_escape_stands_for_its_code(s: Seq<char>, p: int, acc: Seq<char>)
    requires
        0 <= p,
        p + 1 < s.len(),
        s[p] == '\\',
        s[p + 1] == 'u',
    ensures
        code_at(s, p + 2) is None ==> read_string_rest(s, p, acc) is Err,
        code_at(s, p + 2) matches Some(code) ==> {
            let pair = p + 7 < s.len() && s[p + 6] == '\\' && s[p + 7] == 'u' && code_at(s, p + 8)
                is Some && 0xdc00 <= code_at(s, p + 8)->0 < 0xe000;
            &&& !(0xd800 <= code < 0xe000) ==> read_string_rest(s, p, acc) == read_string_rest(
                s,
                p + 6,
                acc.push((code as u32) as char),
            )
            &&& 0xdc00 <= code < 0xe000 ==> read_string_rest(s, p, acc) is Err
            &&& 0xd800 <= code < 0xdc00 && !pair ==> read_string_rest(s, p, acc) is Err
            &&& 0xd800 <= code < 0xdc00 && pair ==> read_string_rest(s, p, acc)
                == read_string_rest(
                s,
                p + 12,
                acc.push(
                    ((0x10000 + 0x400 * (code - 0xd800) + (code_at(s, p + 8)->0
                        - 0xdc00)) as u32) as char,
                ),
            )
        },
{
    lemma_code(s, p + 2);
    if p + 8 <= s.len() {
        lemma_code(s, p + 8);
    }
}

/// Behind a comma another item stands, behind the last one a bracket, and nothing else
/// stands between two items; an object's entries have a text and a colon before the
/// value.
pub proof fn law_items_stand_between_commas(
    s: Seq<char>,
    p: int,
    depth: int,
    items: Seq<Json>,
    entries: Seq<(Seq<char>, Json)>,
)
    requires
        0 <= p <= s.len(),
    ensures
        read_value(s, skip_space(s, p), depth) is Err ==> read_items(s, p, depth, items) is Err,
        read_value(s, skip_space(s, p), depth) matches Ok((v, after)) ==> {
            let q = skip_space(s, after);
            &&& p <= q < s.len() && s[q] == ',' ==> read_items(s, p, depth, items) == read_items(
                s,
                q + 1,
                depth,
                items.push(v),
            )
            &&& 0 <= q < s.len() && s[q] == ']' ==> read_items(s, p, depth, items) == Ok::<
                (Json, int),
                Fault,
            >((Json::Array(items.push(v)), q + 1))
            &&& !(0 <= q < s.len() && (s[q] == ',' || s[q] == ']')) ==> read_items(
                s,
                p,
                depth,
                items,
            ) is Err
        },
        read_string(s, skip_space(s, p)) is Err ==> read_entries(s, p, depth, entries) is Err,
        read_string(s, skip_space(s, p)) matches Ok((key, end)) ==> {
            let colon = skip_space(s, end);
            &&& !(0 <= colon < s.len() && s[colon] == ':') ==> read_entries(s, p, depth, entries)
                is Err
            &&& 0 <= colon < s.len() && s[colon] == ':' ==> match read_value(
                s,
                skip_space(s, colon + 1),
                depth,
            ) {
                Err(_) => read_entries(s, p, depth, entries) is Err,
                Ok((v, after)) => {
                    let q = skip_space(s, after);
                    &&& p <= q < s.len() && s[q] == ',' ==> read_entries(s, p, depth, entries)
                        == read_entries(s, q + 1, depth, entries.push((key, v)))
                    &&& 0 <= q < s.len() && s[q] == '}' ==> read_entries(s, p, depth, entries)
                        == Ok::<(Json, int), Fault>((Json::Object(entries.push((key, v))), q + 1))
                    &&& !(0 <= q < s.len() && (s[q] == ',' || s[q] == '}')) ==> read_entries(
                        s,
                        p,
                        depth,
                        entries,
                    ) is Err
                },
            }
        },
{
    lemma_read_items(s, p, depth, items);
    lemma_read_entries(s, p, depth, entries);
}

/// How a text is spelled: between quotes, character by character. A quote and a
/// backslash have a backslash before them, a control character its short or its
/// four-digit escape, and all else stands for itself.
pub proof fn law_text_is_spelled_by_character(a: Seq<char>, b: Seq<char>, c: char)
    ensures
        quoted(a) == seq!['"'] + escaped(a) + seq!['"'],
        escaped(Seq::<char>::empty()).len() == 0,
        escaped(a + b) == escaped(a) + escaped(b),
        c == '"' || c == '\\' ==> escaped(seq![c]) == seq!['\\', c],
        c == '\u{8}' ==> escaped(seq![c]) == seq!['\\', 'b'],
        c == '\u{c}' ==> escaped(seq![c]) == seq!['\\', 'f'],
        c == '\n' ==> escaped(seq![c]) == seq!['\\', 'n'],
        c == '\r' ==> escaped(seq![c]) == seq!['\\', 'r'],
        c == '\t' ==> escaped(seq![c]) == seq!['\\', 't'],
        (c as u32) < 32 && c != '\u{8}' && c != '\u{c}' && c != '\n' && c != '\r' && c != '\t'
            ==> escaped(seq![c]) == seq![
            '\\',
            'u',
            '0',
            '0',
            hex_char(c as nat / 16),
            hex_char(c as nat % 16),
        ],
        (c as u32) >= 32 && c != '"' && c != '\\' ==> escaped(seq![c]) == seq![c],
    decreases b.len(),
{
    reveal_strlit("\\\"");
    reveal_strlit("\\\\");
    reveal_strlit("\\b");
    reveal_strlit("\\f");
    reveal_strlit("\\n");
    reveal_strlit("\\r");
    reveal_strlit("\\t");
    reveal_strlit("\\u00");
    assert(seq![c].drop_last() =~= Seq::<char>::empty());
    assert(escaped(Seq::<char>::empty()) =~= Seq::empty());
    let one = escaped(seq![c]);
    assert(one =~= crate::storage::canonical::escaped_char(c));
    if c == '"' {
        assert(one =~= seq!['\\', c]);
    } else if c == '\\' {
        assert(one =~= seq!['\\', c]);
    } else if c == '\u{8}' {
        assert(one =~= seq!['\\', 'b']);
    } else if c == '\u{c}' {
        assert(one =~= seq!['\\', 'f']);
    } else if c == '\n' {
        assert(one =~= seq!['\\', 'n']);
    } else if c == '\r' {
        assert(one =~= seq!['\\', 'r']);
    } else if c == '\t' {
        assert(one =~= seq!['\\', 't']);
    } else if (c as u32) < 32 {
        assert(one =~= seq!['\\', 'u', '0', '0', hex_char(c as nat / 16), hex_char(
            c as nat % 16,
        )]);
    }
    if b.len() == 0 {
        assert(a + b =~= a);
        assert(escaped(a) + escaped(b) =~= escaped(a));
    } else {
        law_text_is_spelled_by_character(a, b.drop_last(), c);
        assert((a + b).drop_last() =~= a + b.drop_last());
        assert(escaped(a + b) =~= escaped(a) + escaped(b));
    }
}

} // verus!
