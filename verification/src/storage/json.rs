//! JSON text, read into a tree that keeps each number as it was written.
//!
//! No float is built anywhere here. A number is the text of its token, from the
//! moment it is read to the moment it is printed again, so there is nothing for
//! a reader to round.

use crate::text::{
    byte_offset, byte_offset_of, chars_of, debug_char, debug_char_text, decimal, decimal_text,
    digits_end, is_digit, lead_byte, lead_byte_of, same_text, skip_digits, text_between,
};
use vstd::prelude::*;

verus! {

/// Why a document could not be read or canonicalised.
///
/// Every variant but the last carries the JSON path to the offending value.
#[derive(Debug, Clone, PartialEq)]
pub enum CanonicalError {
    /// `NaN` or an infinity.
    NonFinite { path: String },
    /// A number `Number.prototype.toString` would print in exponent form.
    OutOfPlainRange { path: String, token: String },
    /// An integer JavaScript cannot hold exactly.
    UnsafeInteger { path: String, value: String },
    /// The same key twice in one object.
    DuplicateKey { path: String, key: String },
    /// A key whose sort position differs between UTF-16 and UTF-8 order.
    NonAsciiKey { path: String, key: String },
    /// The text is not JSON.
    Malformed { detail: String },
}

/// A [`CanonicalError`], with its texts as character sequences.
pub enum Fault {
    NonFinite { path: Seq<char> },
    OutOfPlainRange { path: Seq<char>, token: Seq<char> },
    UnsafeInteger { path: Seq<char>, value: Seq<char> },
    DuplicateKey { path: Seq<char>, key: Seq<char> },
    NonAsciiKey { path: Seq<char>, key: Seq<char> },
    Malformed { detail: Seq<char> },
}

impl View for CanonicalError {
    type V = Fault;

    open spec fn view(&self) -> Fault {
        match *self {
            CanonicalError::NonFinite { path } => Fault::NonFinite { path: path@ },
            CanonicalError::OutOfPlainRange { path, token } => Fault::OutOfPlainRange {
                path: path@,
                token: token@,
            },
            CanonicalError::UnsafeInteger { path, value } => Fault::UnsafeInteger {
                path: path@,
                value: value@,
            },
            CanonicalError::DuplicateKey { path, key } => Fault::DuplicateKey {
                path: path@,
                key: key@,
            },
            CanonicalError::NonAsciiKey { path, key } => Fault::NonAsciiKey {
                path: path@,
                key: key@,
            },
            CanonicalError::Malformed { detail } => Fault::Malformed { detail: detail@ },
        }
    }
}

/// A JSON document as a mathematical tree.
pub enum Json {
    Null,
    Bool(bool),
    Number(Seq<char>),
    Str(Seq<char>),
    Array(Seq<Json>),
    Object(Seq<(Seq<char>, Json)>),
}

/// A JSON tree in which every number is still the text it was written as.
///
/// Object entries keep their file order; the canonical form sorts them. So the
/// archive file stays readable in the order the producer wrote, and the digest
/// is over the sorted form.
#[derive(Debug, PartialEq)]
pub enum RawJson {
    /// `null`.
    Null,
    /// `true` or `false`.
    Bool(bool),
    /// A number, exactly as it appeared in the text.
    Number(String),
    /// A string, with its escapes decoded.
    Str(String),
    /// An array.
    Array(Vec<RawJson>),
    /// An object, in file order.
    Object(Vec<(String, RawJson)>),
}

/// The mathematical tree of a document.
pub open spec fn tree(v: RawJson) -> Json
    decreases v,
{
    match v {
        RawJson::Null => Json::Null,
        RawJson::Bool(b) => Json::Bool(b),
        RawJson::Number(t) => Json::Number(t@),
        RawJson::Str(t) => Json::Str(t@),
        RawJson::Array(items) => Json::Array(
            Seq::new(
                items@.len(),
                |i: int|
                    if 0 <= i < items@.len() {
                        tree(items@[i])
                    } else {
                        Json::Null
                    },
            ),
        ),
        RawJson::Object(entries) => Json::Object(
            Seq::new(
                entries@.len(),
                |i: int|
                    if 0 <= i < entries@.len() {
                        (entries@[i].0@, tree(entries@[i].1))
                    } else {
                        (Seq::empty(), Json::Null)
                    },
            ),
        ),
    }
}

impl View for RawJson {
    type V = Json;

    open spec fn view(&self) -> Json {
        tree(*self)
    }
}

/// A copy of `v`, item by item.
fn duplicate(v: &RawJson) -> (out: RawJson)
    ensures
        out@ == v@,
    decreases *v,
{
    match v {
        RawJson::Null => RawJson::Null,
        RawJson::Bool(b) => RawJson::Bool(*b),
        RawJson::Number(t) => RawJson::Number(t.clone()),
        RawJson::Str(t) => RawJson::Str(t.clone()),
        RawJson::Array(items) => {
            let mut out: Vec<RawJson> = Vec::new();
            let mut i: usize = 0;
            while i < items.len()
                invariant
                    i <= items.len(),
                    *v is Array,
                    *items == v->Array_0,
                    out.len() == i,
                    forall|k: int| 0 <= k < i ==> (#[trigger] out[k])@ == items[k]@,
                decreases items.len() - i,
            {
                out.push(duplicate(&items[i]));
                i = i + 1;
            }
            let copy = RawJson::Array(out);
            assert(copy@->Array_0 =~= v@->Array_0);
            copy
        },
        RawJson::Object(entries) => {
            let mut out: Vec<(String, RawJson)> = Vec::new();
            let mut i: usize = 0;
            while i < entries.len()
                invariant
                    i <= entries.len(),
                    *v is Object,
                    *entries == v->Object_0,
                    out.len() == i,
                    forall|k: int|
                        0 <= k < i ==> (#[trigger] out[k]).0@ == entries[k].0@ && out[k].1@
                            == entries[k].1@,
                decreases entries.len() - i,
            {
                out.push((entries[i].0.clone(), duplicate(&entries[i].1)));
                i = i + 1;
            }
            let copy = RawJson::Object(out);
            assert(copy@->Object_0 =~= v@->Object_0);
            copy
        },
    }
}

impl Clone for RawJson {
    fn clone(&self) -> (out: RawJson)
        ensures
            out@ == self@,
    {
        duplicate(self)
    }
}

/// How deep a document may nest before the reader refuses to follow it.
pub const MAX_DEPTH: usize = 128;

/// What reading a part of a text gives: a value and the position after it.
pub type Read<T> = Result<(T, int), Fault>;

/// A complaint about the byte `byte` of a text.
pub open spec fn malformed_at(what: Seq<char>, byte: nat) -> Fault {
    Fault::Malformed { detail: what + " at byte "@ + decimal(byte) }
}

/// A complaint about the character at `p`, placed by its byte offset.
pub open spec fn malformed(s: Seq<char>, what: Seq<char>, p: int) -> Fault {
    malformed_at(what, byte_offset(s, p))
}

/// The four characters JSON allows between tokens.
pub open spec fn is_space(c: char) -> bool {
    c == ' ' || c == '\t' || c == '\n' || c == '\r'
}

/// The first position from `p` on that holds no white space.
pub open spec fn skip_space(s: Seq<char>, p: int) -> int
    decreases s.len() - p,
{
    if 0 <= p < s.len() && is_space(s[p]) {
        skip_space(s, p + 1)
    } else {
        p
    }
}

/// Whether `word` stands at `p`.
pub open spec fn stands_at(s: Seq<char>, p: int, word: Seq<char>) -> bool {
    p + word.len() <= s.len() && s.subrange(p, p + word.len()) == word
}

/// Whether the character at `p` is `c`.
pub open spec fn char_at(s: Seq<char>, p: int, c: char) -> bool {
    0 <= p < s.len() && s[p] == c
}

/// The value of a hexadecimal digit, of either case.
pub open spec fn hex_value(c: char) -> Option<nat> {
    if '0' <= c <= '9' {
        Some((c as u32 - '0' as u32) as nat)
    } else if 'a' <= c <= 'f' {
        Some((c as u32 - 'a' as u32 + 10) as nat)
    } else if 'A' <= c <= 'F' {
        Some((c as u32 - 'A' as u32 + 10) as nat)
    } else {
        None
    }
}

/// The code unit that the four hexadecimal digits at `p` spell.
pub open spec fn read_hex4(s: Seq<char>, p: int) -> Result<nat, Fault> {
    if byte_offset(s, s.len() as int) - byte_offset(s, p) < 4 {
        Err(malformed(s, "truncated \\u escape"@, p))
    } else if p + 4 <= s.len() && hex_value(s[p]) is Some && hex_value(s[p + 1]) is Some
        && hex_value(s[p + 2]) is Some && hex_value(s[p + 3]) is Some {
        Ok(
            hex_value(s[p])->0 * 0x1000 + hex_value(s[p + 1])->0 * 0x100 + hex_value(s[p + 2])->0
                * 0x10 + hex_value(s[p + 3])->0,
        )
    } else {
        Err(malformed(s, "bad \\u escape"@, p))
    }
}

/// A `\uXXXX` escape whose digits start at `p`, joining a surrogate pair when it
/// is one.
pub open spec fn read_unicode(s: Seq<char>, p: int) -> Read<char> {
    match read_hex4(s, p) {
        Err(e) => Err(e),
        Ok(first) => {
            if 0xd800 <= first < 0xdc00 {
                if !(char_at(s, p + 4, '\\') && char_at(s, p + 5, 'u')) {
                    Err(malformed(s, "a high surrogate with no low surrogate after it"@, p + 4))
                } else {
                    match read_hex4(s, p + 6) {
                        Err(e) => Err(e),
                        Ok(second) => {
                            if 0xdc00 <= second < 0xe000 {
                                Ok(
                                    (
                                        ((0x10000 + (first - 0xd800) * 0x400 + (second
                                            - 0xdc00)) as u32) as char,
                                        p + 10,
                                    ),
                                )
                            } else {
                                Err(
                                    malformed(
                                        s,
                                        "a high surrogate followed by a non-surrogate"@,
                                        p + 10,
                                    ),
                                )
                            }
                        },
                    }
                }
            } else if 0xdc00 <= first < 0xe000 {
                Err(malformed(s, "a lone low surrogate"@, p + 4))
            } else {
                Ok(((first as u32) as char, p + 4))
            }
        },
    }
}

/// What a backslash and `c` stand for, where that is one character.
pub open spec fn plain_escape(c: char) -> Option<char> {
    if c == '"' || c == '\\' || c == '/' {
        Some(c)
    } else if c == 'b' {
        Some('\u{8}')
    } else if c == 'f' {
        Some('\u{c}')
    } else if c == 'n' {
        Some('\n')
    } else if c == 'r' {
        Some('\r')
    } else if c == 't' {
        Some('\t')
    } else {
        None
    }
}

/// The rest of a string from `p` on, after `acc`.
pub open spec fn read_string_rest(s: Seq<char>, p: int, acc: Seq<char>) -> Read<Seq<char>>
    decreases s.len() - p,
{
    if !(0 <= p < s.len()) {
        Err(malformed(s, "unterminated string"@, p))
    } else if s[p] == '"' {
        Ok((acc, p + 1))
    } else if s[p] == '\\' {
        if p + 1 >= s.len() {
            Err(malformed(s, "unterminated escape"@, p + 1))
        } else if plain_escape(s[p + 1]) is Some {
            read_string_rest(s, p + 2, acc.push(plain_escape(s[p + 1])->0))
        } else if s[p + 1] == 'u' {
            match read_unicode(s, p + 2) {
                Err(e) => Err(e),
                Ok((c, q)) => read_string_rest(s, q, acc.push(c)),
            }
        } else {
            Err(
                malformed_at(
                    "unknown escape \\"@.push((lead_byte(s[p + 1]) as u8) as char),
                    byte_offset(s, p + 1) + 1,
                ),
            )
        }
    } else if (s[p] as u32) < 0x20 {
        Err(malformed(s, "raw control character in a string"@, p))
    } else {
        read_string_rest(s, p + 1, acc.push(s[p]))
    }
}

/// The string that starts at `p`.
pub open spec fn read_string(s: Seq<char>, p: int) -> Read<Seq<char>> {
    if char_at(s, p, '"') {
        read_string_rest(s, p + 1, Seq::empty())
    } else {
        Err(malformed(s, "expected a string"@, p))
    }
}

/// The end of an exponent at `p`, which is `p` where none starts there.
pub open spec fn read_exponent(s: Seq<char>, p: int) -> Result<int, Fault> {
    if char_at(s, p, 'e') || char_at(s, p, 'E') {
        let start = if char_at(s, p + 1, '+') || char_at(s, p + 1, '-') {
            p + 2
        } else {
            p + 1
        };
        if digits_end(s, start) == start {
            Err(malformed(s, "a number with an empty exponent"@, start))
        } else {
            Ok(digits_end(s, start))
        }
    } else {
        Ok(p)
    }
}

/// The end of a fraction at `p`, which is `p` where none starts there.
pub open spec fn read_fraction(s: Seq<char>, p: int) -> Result<int, Fault> {
    if char_at(s, p, '.') {
        if digits_end(s, p + 1) == p + 1 {
            Err(malformed(s, "a number with an empty fraction"@, p + 1))
        } else {
            Ok(digits_end(s, p + 1))
        }
    } else {
        Ok(p)
    }
}

/// The end of the number token that starts at `p`.
pub open spec fn read_number(s: Seq<char>, p: int) -> Result<int, Fault> {
    let start = if char_at(s, p, '-') {
        p + 1
    } else {
        p
    };
    let end = digits_end(s, start);
    if end == start {
        Err(malformed(s, "a number with no integer part"@, end))
    } else if s[start] == '0' && end - start > 1 {
        Err(malformed(s, "a number with a leading zero"@, end))
    } else {
        match read_fraction(s, end) {
            Err(e) => Err(e),
            Ok(q) => read_exponent(s, q),
        }
    }
}

/// Whether `token` is a number as JSON spells it.
pub open spec fn is_number(token: Seq<char>) -> bool {
    read_number(token, 0) == Ok::<int, Fault>(token.len() as int)
}

/// Whether every number of a tree is spelled as JSON spells numbers.
pub open spec fn numbers_valid(t: Json) -> bool
    decreases t,
{
    match t {
        Json::Number(token) => is_number(token),
        Json::Array(items) => forall|i: int|
            0 <= i < items.len() ==> numbers_valid(#[trigger] items[i]),
        Json::Object(entries) => forall|i: int|
            0 <= i < entries.len() ==> numbers_valid((#[trigger] entries[i]).1),
        _ => true,
    }
}

/// A run of digits, seen through a window on the text.
proof fn lemma_digits_window(s: Seq<char>, a: int, b: int, p: int)
    requires
        0 <= a <= p <= b <= s.len(),
    ensures
        digits_end(s.subrange(a, b), p - a) + a == (if digits_end(s, p) < b {
            digits_end(s, p)
        } else {
            b
        }),
        digits_end(s, p) >= p,
    decreases b - p,
{
    crate::text::lemma_digits_end(s, p);
    if p < b && is_digit(s[p]) {
        lemma_digits_window(s, a, b, p + 1);
    }
}

/// A fraction, seen through a window on the text that holds it.
proof fn lemma_fraction_window(s: Seq<char>, a: int, b: int, p: int)
    requires
        0 <= a <= p <= b <= s.len(),
        read_fraction(s, p) is Ok,
        read_fraction(s, p)->Ok_0 <= b,
    ensures
        read_fraction(s.subrange(a, b), p - a) == Ok::<int, Fault>(read_fraction(s, p)->Ok_0 - a),
        read_fraction(s, p)->Ok_0 >= p,
{
    if char_at(s, p, '.') {
        crate::text::lemma_digits_end(s, p + 1);
        lemma_digits_window(s, a, b, p + 1);
    }
}

/// An exponent, seen through the window on the text that ends with it.
proof fn lemma_exponent_window(s: Seq<char>, a: int, b: int, p: int)
    requires
        0 <= a <= p <= b <= s.len(),
        read_exponent(s, p) == Ok::<int, Fault>(b),
    ensures
        read_exponent(s.subrange(a, b), p - a) == Ok::<int, Fault>(b - a),
{
    if char_at(s, p, 'e') || char_at(s, p, 'E') {
        let start = if char_at(s, p + 1, '+') || char_at(s, p + 1, '-') {
            p + 2
        } else {
            p + 1
        };
        crate::text::lemma_digits_end(s, start);
        lemma_digits_window(s, a, b, start);
    }
}

/// Where a fraction and an exponent end.
proof fn lemma_number_bounds(s: Seq<char>, p: int)
    requires
        0 <= p <= s.len(),
    ensures
        read_fraction(s, p) is Ok ==> p <= read_fraction(s, p)->Ok_0 <= s.len(),
        read_exponent(s, p) is Ok ==> p <= read_exponent(s, p)->Ok_0 <= s.len(),
{
    if p < s.len() {
        crate::text::lemma_digits_end(s, p + 1);
        if p + 1 < s.len() {
            crate::text::lemma_digits_end(s, p + 2);
        }
    }
}

/// A number that reads from the text reads from its own token.
pub proof fn lemma_number_token(s: Seq<char>, p: int, q: int)
    requires
        0 <= p <= s.len(),
        read_number(s, p) == Ok::<int, Fault>(q),
    ensures
        p < q <= s.len(),
        is_number(s.subrange(p, q)),
        s[p] == '-' || is_digit(s[p]),
{
    let start = if char_at(s, p, '-') {
        p + 1
    } else {
        p
    };
    crate::text::lemma_digits_end(s, start);
    let end = digits_end(s, start);
    assert(read_fraction(s, end) is Ok);
    let after = read_fraction(s, end)->Ok_0;
    lemma_number_bounds(s, end);
    lemma_number_bounds(s, after);
    lemma_digits_window(s, p, q, start);
    lemma_fraction_window(s, p, q, end);
    lemma_exponent_window(s, p, q, after);
    let t = s.subrange(p, q);
    assert(t.len() == q - p);
    assert(t[start - p] == s[start]);
    assert(char_at(t, 0, '-') == char_at(s, p, '-'));
}

/// A run of digits that ends within a window, or at its end before a character
/// that is no digit.
proof fn lemma_digits_stand(s: Seq<char>, a: int, b: int, p: int)
    requires
        0 <= a <= p <= b <= s.len(),
        b < s.len() ==> !is_digit(s[b]),
    ensures
        digits_end(s, p) == digits_end(s.subrange(a, b), p - a) + a,
        p <= digits_end(s, p) <= b,
{
    lemma_digits_window(s, a, b, p);
    crate::text::lemma_digits_end(s, p);
    if digits_end(s, p) > b {
        assert(is_digit(s.subrange(p, digits_end(s, p))[b - p]));
    }
}

/// A number token that stands in a text, with no character of a number right
/// behind it, reads from there.
pub proof fn lemma_number_stands(s: Seq<char>, p: int, q: int)
    requires
        0 <= p <= q <= s.len(),
        is_number(s.subrange(p, q)),
        q < s.len() ==> !is_digit(s[q]) && s[q] != '.' && s[q] != 'e' && s[q] != 'E',
    ensures
        read_number(s, p) == Ok::<int, Fault>(q),
        p < q,
        s[p] == '-' || is_digit(s[p]),
{
    let t = s.subrange(p, q);
    lemma_number_token(t, 0, t.len() as int);
    let start = if char_at(t, 0, '-') {
        p + 1
    } else {
        p
    };
    lemma_digits_stand(s, p, q, start);
    let end = digits_end(s, start);
    lemma_number_bounds(t, end - p);
    assert(read_fraction(t, end - p) is Ok);
    let after = read_fraction(t, end - p)->Ok_0 + p;
    assert(read_fraction(s, end) == Ok::<int, Fault>(after)) by {
        if char_at(t, end - p, '.') {
            lemma_digits_stand(s, p, q, end + 1);
        }
    }
    assert(read_exponent(t, after - p) == Ok::<int, Fault>(q - p));
    assert(read_exponent(s, after) == Ok::<int, Fault>(q)) by {
        lemma_exponent_stands(s, p, q, after);
    }
    assert(t[start - p] == s[start]);
}

/// An exponent that ends a window, before a character that does not go on with
/// it.
proof fn lemma_exponent_stands(s: Seq<char>, a: int, b: int, p: int)
    requires
        0 <= a <= p <= b <= s.len(),
        read_exponent(s.subrange(a, b), p - a) == Ok::<int, Fault>(b - a),
        b < s.len() ==> !is_digit(s[b]) && s[b] != 'e' && s[b] != 'E',
    ensures
        read_exponent(s, p) == Ok::<int, Fault>(b),
{
    let t = s.subrange(a, b);
    if char_at(t, p - a, 'e') || char_at(t, p - a, 'E') {
        let exp = if char_at(t, p + 1 - a, '+') || char_at(t, p + 1 - a, '-') {
            p + 2
        } else {
            p + 1
        };
        lemma_digits_stand(s, a, b, exp);
        assert(digits_end(t, exp - a) != exp - a);
        assert(p + 1 < b);
        assert(t[p + 1 - a] == s[p + 1]);
    }
}

/// The value of a literal word at `p`.
pub open spec fn read_word(
    s: Seq<char>,
    p: int,
    word: Seq<char>,
    complaint: Seq<char>,
    value: Json,
) -> Read<Json> {
    if stands_at(s, p, word) {
        Ok((value, p + word.len()))
    } else {
        Err(malformed(s, complaint, p))
    }
}

/// The value that starts at `p`, inside `depth` arrays and objects.
#[verifier::opaque]
pub open spec fn read_value(s: Seq<char>, p: int, depth: int) -> Read<Json>
    decreases MAX_DEPTH + 2 - depth, 0int, 0int,
{
    if depth > MAX_DEPTH {
        Err(malformed(s, "nested deeper than 128"@, p))
    } else if !(0 <= p < s.len()) {
        Err(malformed(s, "unexpected end of input"@, p))
    } else if s[p] == 'n' {
        read_word(s, p, "null"@, "expected \"null\""@, Json::Null)
    } else if s[p] == 't' {
        read_word(s, p, "true"@, "expected \"true\""@, Json::Bool(true))
    } else if s[p] == 'f' {
        read_word(s, p, "false"@, "expected \"false\""@, Json::Bool(false))
    } else if s[p] == '"' {
        match read_string(s, p) {
            Err(e) => Err(e),
            Ok((t, q)) => Ok((Json::Str(t), q)),
        }
    } else if s[p] == '[' {
        let q = skip_space(s, p + 1);
        if char_at(s, q, ']') {
            Ok((Json::Array(Seq::empty()), q + 1))
        } else {
            read_items(s, q, depth + 1, Seq::empty())
        }
    } else if s[p] == '{' {
        let q = skip_space(s, p + 1);
        if char_at(s, q, '}') {
            Ok((Json::Object(Seq::empty()), q + 1))
        } else {
            read_entries(s, q, depth + 1, Seq::empty())
        }
    } else if s[p] == '-' || is_digit(s[p]) {
        match read_number(s, p) {
            Err(e) => Err(e),
            Ok(q) => Ok((Json::Number(s.subrange(p, q)), q)),
        }
    } else {
        Err(
            malformed(
                s,
                "unexpected byte "@ + debug_char_text((lead_byte(s[p]) as u8) as char),
                p,
            ),
        )
    }
}

/// The items of an array from `p` on, after those in `acc`, up to and with its
/// closing bracket.
#[verifier::opaque]
pub open spec fn read_items(s: Seq<char>, p: int, depth: int, acc: Seq<Json>) -> Read<Json>
    decreases MAX_DEPTH + 2 - depth, 1int, s.len() - p,
{
    match read_value(s, skip_space(s, p), depth) {
        Err(e) => Err(e),
        Ok((v, after)) => {
            let q = skip_space(s, after);
            if p <= q && char_at(s, q, ',') {
                read_items(s, q + 1, depth, acc.push(v))
            } else if char_at(s, q, ']') {
                Ok((Json::Array(acc.push(v)), q + 1))
            } else {
                Err(malformed(s, "expected ',' or ']'"@, q))
            }
        },
    }
}

/// The entries of an object from `p` on, after those in `acc`, up to and with
/// its closing brace.
#[verifier::opaque]
pub open spec fn read_entries(
    s: Seq<char>,
    p: int,
    depth: int,
    acc: Seq<(Seq<char>, Json)>,
) -> Read<Json>
    decreases MAX_DEPTH + 2 - depth, 1int, s.len() - p,
{
    match read_string(s, skip_space(s, p)) {
        Err(e) => Err(e),
        Ok((key, after_key)) => {
            let colon = skip_space(s, after_key);
            if !char_at(s, colon, ':') {
                Err(malformed(s, "expected ':'"@, colon))
            } else {
                match read_value(s, skip_space(s, colon + 1), depth) {
                    Err(e) => Err(e),
                    Ok((v, after)) => {
                        let q = skip_space(s, after);
                        if p <= q && char_at(s, q, ',') {
                            read_entries(s, q + 1, depth, acc.push((key, v)))
                        } else if char_at(s, q, '}') {
                            Ok((Json::Object(acc.push((key, v))), q + 1))
                        } else {
                            Err(malformed(s, "expected ',' or '}'"@, q))
                        }
                    },
                }
            }
        },
    }
}

/// An opening bracket at `p` opens an array.
pub proof fn lemma_read_array(s: Seq<char>, p: int, depth: int)
    requires
        depth <= MAX_DEPTH,
        char_at(s, p, '['),
    ensures
        read_value(s, p, depth) == (if char_at(s, skip_space(s, p + 1), ']') {
            Ok::<(Json, int), Fault>((Json::Array(Seq::empty()), skip_space(s, p + 1) + 1))
        } else {
            read_items(s, skip_space(s, p + 1), depth + 1, Seq::empty())
        }),
{
    reveal(read_value);
    reveal(read_items);
    reveal(read_entries);
}

/// An opening brace at `p` opens an object.
pub proof fn lemma_read_object(s: Seq<char>, p: int, depth: int)
    requires
        depth <= MAX_DEPTH,
        char_at(s, p, '{'),
    ensures
        read_value(s, p, depth) == (if char_at(s, skip_space(s, p + 1), '}') {
            Ok::<(Json, int), Fault>((Json::Object(Seq::empty()), skip_space(s, p + 1) + 1))
        } else {
            read_entries(s, skip_space(s, p + 1), depth + 1, Seq::empty())
        }),
{
    reveal(read_value);
    reveal(read_items);
    reveal(read_entries);
}

/// One item of an array, and what follows it.
pub proof fn lemma_read_items(s: Seq<char>, p: int, depth: int, acc: Seq<Json>)
    ensures
        read_items(s, p, depth, acc) == (match read_value(s, skip_space(s, p), depth) {
            Err(e) => Err::<(Json, int), Fault>(e),
            Ok((v, after)) => {
                let q = skip_space(s, after);
                if p <= q && char_at(s, q, ',') {
                    read_items(s, q + 1, depth, acc.push(v))
                } else if char_at(s, q, ']') {
                    Ok((Json::Array(acc.push(v)), q + 1))
                } else {
                    Err(malformed(s, "expected ',' or ']'"@, q))
                }
            },
        }),
{
    reveal(read_value);
    reveal(read_items);
}

/// One entry of an object, and what follows it.
pub proof fn lemma_read_entries(s: Seq<char>, p: int, depth: int, acc: Seq<(Seq<char>, Json)>)
    ensures
        read_entries(s, p, depth, acc) == (match read_string(s, skip_space(s, p)) {
            Err(e) => Err::<(Json, int), Fault>(e),
            Ok((key, after_key)) => {
                let colon = skip_space(s, after_key);
                if !char_at(s, colon, ':') {
                    Err(malformed(s, "expected ':'"@, colon))
                } else {
                    match read_value(s, skip_space(s, colon + 1), depth) {
                        Err(e) => Err(e),
                        Ok((v, after)) => {
                            let q = skip_space(s, after);
                            if p <= q && char_at(s, q, ',') {
                                read_entries(s, q + 1, depth, acc.push((key, v)))
                            } else if char_at(s, q, '}') {
                                Ok((Json::Object(acc.push((key, v))), q + 1))
                            } else {
                                Err(malformed(s, "expected ',' or '}'"@, q))
                            }
                        },
                    }
                }
            },
        }),
{
    reveal(read_value);
    reveal(read_entries);
}

/// The document that a whole text holds.
pub open spec fn read_document(s: Seq<char>) -> Result<Json, Fault> {
    match read_value(s, skip_space(s, 0), 0) {
        Err(e) => Err(e),
        Ok((v, after)) => {
            let q = skip_space(s, after);
            if q != s.len() {
                Err(malformed_at("trailing input"@, byte_offset(s, q)))
            } else {
                Ok(v)
            }
        },
    }
}


/// Whether what was read, or why it could not be, is what `expected` says.
pub open spec fn reads<T: View>(
    got: Result<(T, usize), CanonicalError>,
    expected: Read<T::V>,
) -> bool {
    match got {
        Ok((v, q)) => expected == Ok::<(T::V, int), Fault>((v@, q as int)),
        Err(e) => expected == Err::<(T::V, int), Fault>(e@),
    }
}

/// The recursive-descent reader behind [`RawJson::parse`].
struct Reader<'a> {
    chars: &'a Vec<char>,
}

impl<'a> Reader<'a> {
    /// A complaint about the character at `p`.
    fn malformed(&self, what: &str, p: usize) -> (e: CanonicalError)
        requires
            p <= self.chars@.len(),
        ensures
            e@ == malformed(self.chars@, what@, p as int),
    {
        self.malformed_past(what, p, 0)
    }

    /// A complaint about the byte `past` bytes after the start of the character
    /// at `p`.
    fn malformed_past(&self, what: &str, p: usize, past: u8) -> (e: CanonicalError)
        requires
            p <= self.chars@.len(),
        ensures
            e@ == malformed_at(what@, byte_offset(self.chars@, p as int) + past as nat),
    {
        let mut detail: String = what.to_owned();
        detail.append(" at byte ");
        let byte: u128 = byte_offset_of(self.chars.as_slice(), p) + past as u128;
        detail.append(decimal_text(byte).as_str());
        CanonicalError::Malformed { detail }
    }

    fn is_at(&self, p: usize, c: char) -> (yes: bool)
        ensures
            yes == char_at(self.chars@, p as int, c),
            yes ==> p < usize::MAX,
    {
        p < self.chars.len() && self.chars[p] == c
    }

    fn skip_whitespace(&self, p: usize) -> (q: usize)
        requires
            p <= self.chars@.len(),
        ensures
            q == skip_space(self.chars@, p as int),
            p <= q <= self.chars@.len(),
    {
        let mut q: usize = p;
        while q < self.chars.len() && (self.chars[q] == ' ' || self.chars[q] == '\t'
            || self.chars[q] == '\n' || self.chars[q] == '\r')
            invariant
                p <= q <= self.chars@.len(),
                skip_space(self.chars@, p as int) == skip_space(self.chars@, q as int),
            decreases self.chars@.len() - q,
        {
            q = q + 1;
        }
        q
    }

    /// Whether `word` stands at `p`.
    fn eat(&self, word: &str, p: usize) -> (end: Option<usize>)
        requires
            p <= self.chars@.len(),
        ensures
            end is Some <==> stands_at(self.chars@, p as int, word@),
            end is Some ==> end->0 == p + word@.len(),
    {
        let letters: Vec<char> = chars_of(word);
        let count: usize = self.chars.len();
        if count - p < letters.len() {
            return None;
        }
        let mut i: usize = 0;
        while i < letters.len()
            invariant
                i <= letters@.len() <= count - p,
                letters@ == word@,
                p <= self.chars@.len() == count,
                forall|k: int| 0 <= k < i ==> self.chars@[p + k] == #[trigger] word@[k],
            decreases letters.len() - i,
        {
            if self.chars[p + i] != letters[i] {
                assert(self.chars@.subrange(p as int, p + word@.len())[i as int] != word@[i as int]);
                return None;
            }
            i = i + 1;
        }
        assert(self.chars@.subrange(p as int, p + word@.len()) =~= word@);
        Some(p + letters.len())
    }

    /// The value of the word at `p`, or a complaint that another was expected.
    fn word(&self, p: usize, word: &str, complaint: &str, value: RawJson) -> (got: Result<
        (RawJson, usize),
        CanonicalError,
    >)
        requires
            p <= self.chars@.len(),
            word@.len() > 0,
        ensures
            reads(got, read_word(self.chars@, p as int, word@, complaint@, value@)),
            got is Ok ==> p < got->Ok_0.1 <= self.chars@.len(),
    {
        match self.eat(word, p) {
            Some(q) => Ok((value, q)),
            None => Err(self.malformed(complaint, p)),
        }
    }

    /// The value of a hexadecimal digit.
    fn hex_digit(c: char) -> (v: Option<u32>)
        ensures
            v is Some <==> hex_value(c) is Some,
            v is Some ==> v->0 == hex_value(c)->0 && v->0 < 16,
    {
        let code: u32 = c as u32;
        if '0' <= c && c <= '9' {
            Some(code - 48)
        } else if 'a' <= c && c <= 'f' {
            Some(code - 97 + 10)
        } else if 'A' <= c && c <= 'F' {
            Some(code - 65 + 10)
        } else {
            None
        }
    }

    fn hex4(&self, p: usize) -> (got: Result<u32, CanonicalError>)
        requires
            p <= self.chars@.len(),
        ensures
            got is Ok ==> read_hex4(self.chars@, p as int) == Ok::<nat, Fault>(got->Ok_0 as nat)
                && p + 4 <= self.chars.len() && got->Ok_0 < 0x10000,
            got is Err ==> read_hex4(self.chars@, p as int) == Err::<nat, Fault>(got->Err_0@),
    {
        let before: u128 = byte_offset_of(self.chars.as_slice(), p);
        let all: u128 = byte_offset_of(self.chars.as_slice(), self.chars.len());
        if all < before + 4 {
            return Err(self.malformed("truncated \\u escape", p));
        }
        if self.chars.len() - p < 4 {
            return Err(self.malformed("bad \\u escape", p));
        }
        let top: Option<u32> = Self::hex_digit(self.chars[p]);
        let second: Option<u32> = Self::hex_digit(self.chars[p + 1]);
        let third: Option<u32> = Self::hex_digit(self.chars[p + 2]);
        let fourth: Option<u32> = Self::hex_digit(self.chars[p + 3]);
        match (top, second, third, fourth) {
            (Some(a), Some(b), Some(c), Some(d)) => Ok(a * 0x1000 + b * 0x100 + c * 0x10 + d),
            _ => Err(self.malformed("bad \\u escape", p)),
        }
    }

    /// A `\uXXXX` escape, joining a surrogate pair when it is one.
    fn unicode_escape(&self, p: usize) -> (got: Result<(char, usize), CanonicalError>)
        requires
            p <= self.chars@.len(),
        ensures
            got is Ok ==> read_unicode(self.chars@, p as int) == Ok::<(char, int), Fault>(
                (got->Ok_0.0, got->Ok_0.1 as int),
            ) && p < got->Ok_0.1 <= self.chars@.len(),
            got is Err ==> read_unicode(self.chars@, p as int) == Err::<(char, int), Fault>(
                got->Err_0@,
            ),
    {
        let first: u32 = match self.hex4(p) {
            Ok(v) => v,
            Err(e) => return Err(e),
        };
        if 0xd800 <= first && first < 0xdc00 {
            if self.chars.len() - p < 6 || !(self.is_at(p + 4, '\\') && self.is_at(p + 5, 'u')) {
                return Err(
                    self.malformed("a high surrogate with no low surrogate after it", p + 4),
                );
            }
            let second: u32 = match self.hex4(p + 6) {
                Ok(v) => v,
                Err(e) => return Err(e),
            };
            if !(0xdc00 <= second && second < 0xe000) {
                return Err(
                    self.malformed("a high surrogate followed by a non-surrogate", p + 10),
                );
            }
            let combined: u32 = 0x10000 + (first - 0xd800) * 0x400 + (second - 0xdc00);
            return match char::from_u32(combined) {
                Some(c) => Ok((c, p + 10)),
                None => Err(self.malformed("bad surrogate pair", p + 10)),
            };
        }
        match char::from_u32(first) {
            Some(c) => Ok((c, p + 4)),
            None => Err(self.malformed("a lone low surrogate", p + 4)),
        }
    }

    /// What a backslash and `c` stand for, where that is one character.
    fn escaped(c: char) -> (out: Option<char>)
        ensures
            out == plain_escape(c),
    {
        match c {
            '"' | '\\' | '/' => Some(c),
            'b' => Some('\u{8}'),
            'f' => Some('\u{c}'),
            'n' => Some('\n'),
            'r' => Some('\r'),
            't' => Some('\t'),
            _ => None,
        }
    }

    fn string(&self, start: usize) -> (got: Result<(String, usize), CanonicalError>)
        requires
            start <= self.chars@.len(),
        ensures
            reads(got, read_string(self.chars@, start as int)),
            got is Ok ==> start < got->Ok_0.1 <= self.chars@.len(),
    {
        if !self.is_at(start, '"') {
            return Err(self.malformed("expected a string", start));
        }
        let mut out: String = String::new();
        let mut p: usize = start + 1;
        loop
            invariant
                start < p <= self.chars@.len(),
                read_string(self.chars@, start as int) == read_string_rest(
                    self.chars@,
                    p as int,
                    out@,
                ),
            decreases self.chars@.len() - p,
        {
            if p >= self.chars.len() {
                return Err(self.malformed("unterminated string", p));
            }
            let c: char = self.chars[p];
            if c == '"' {
                return Ok((out, p + 1));
            }
            if c == '\\' {
                if p + 1 >= self.chars.len() {
                    return Err(self.malformed("unterminated escape", p + 1));
                }
                let escape: char = self.chars[p + 1];
                match Self::escaped(escape) {
                    Some(plain) => {
                        out.push(plain);
                        p = p + 2;
                    },
                    None => {
                        if escape == 'u' {
                            match self.unicode_escape(p + 2) {
                                Ok((joined, q)) => {
                                    out.push(joined);
                                    p = q;
                                },
                                Err(e) => return Err(e),
                            }
                        } else {
                            let mut what: String = "unknown escape \\".to_owned();
                            what.push(lead_byte_of(escape) as char);
                            return Err(self.malformed_past(what.as_str(), p + 1, 1));
                        }
                    },
                }
            } else if (c as u32) < 0x20 {
                return Err(self.malformed("raw control character in a string", p));
            } else {
                out.push(c);
                p = p + 1;
            }
        }
    }

    /// A number token, taken as text and never as a value.
    fn number(&self, p: usize) -> (got: Result<(RawJson, usize), CanonicalError>)
        requires
            p < self.chars@.len(),
        ensures
            got is Ok ==> read_number(self.chars@, p as int) == Ok::<int, Fault>(
                got->Ok_0.1 as int,
            ) && p < got->Ok_0.1 <= self.chars@.len() && got->Ok_0.0@ == Json::Number(
                self.chars@.subrange(p as int, got->Ok_0.1 as int),
            ) && numbers_valid(got->Ok_0.0@),
            got is Err ==> read_number(self.chars@, p as int) == Err::<int, Fault>(got->Err_0@),
    {
        let start: usize = if self.is_at(p, '-') {
            p + 1
        } else {
            p
        };
        let mut end: usize = skip_digits(self.chars.as_slice(), start);
        if end == start {
            return Err(self.malformed("a number with no integer part", end));
        }
        if self.chars[start] == '0' && end - start > 1 {
            return Err(self.malformed("a number with a leading zero", end));
        }
        if self.is_at(end, '.') {
            let fraction: usize = end + 1;
            end = skip_digits(self.chars.as_slice(), fraction);
            if end == fraction {
                return Err(self.malformed("a number with an empty fraction", end));
            }
        }
        if self.is_at(end, 'e') || self.is_at(end, 'E') {
            let mut exponent: usize = end + 1;
            if self.is_at(exponent, '+') || self.is_at(exponent, '-') {
                exponent = exponent + 1;
            }
            end = skip_digits(self.chars.as_slice(), exponent);
            if end == exponent {
                return Err(self.malformed("a number with an empty exponent", end));
            }
        }
        proof {
            lemma_number_token(self.chars@, p as int, end as int);
        }
        Ok((RawJson::Number(text_between(self.chars.as_slice(), p, end)), end))
    }

    fn value(&self, p: usize, depth: usize) -> (got: Result<(RawJson, usize), CanonicalError>)
        requires
            p <= self.chars@.len(),
            depth <= MAX_DEPTH + 1,
        ensures
            reads(got, read_value(self.chars@, p as int, depth as int)),
            got is Ok ==> p < got->Ok_0.1 <= self.chars@.len() && numbers_valid(got->Ok_0.0@),
        decreases MAX_DEPTH + 2 - depth, 0int,
    {
        proof {
            reveal(read_value);
            reveal_strlit("null");
            reveal_strlit("true");
            reveal_strlit("false");
        }
        if depth > MAX_DEPTH {
            return Err(self.malformed("nested deeper than 128", p));
        }
        if p >= self.chars.len() {
            return Err(self.malformed("unexpected end of input", p));
        }
        let c: char = self.chars[p];
        if c == 'n' {
            self.word(p, "null", "expected \"null\"", RawJson::Null)
        } else if c == 't' {
            self.word(p, "true", "expected \"true\"", RawJson::Bool(true))
        } else if c == 'f' {
            self.word(p, "false", "expected \"false\"", RawJson::Bool(false))
        } else if c == '"' {
            match self.string(p) {
                Ok((text, q)) => Ok((RawJson::Str(text), q)),
                Err(e) => Err(e),
            }
        } else if c == '[' {
            self.array(p, depth)
        } else if c == '{' {
            self.object(p, depth)
        } else if c == '-' || ('0' <= c && c <= '9') {
            self.number(p)
        } else {
            let mut what: String = "unexpected byte ".to_owned();
            what.append(debug_char(lead_byte_of(c) as char).as_str());
            Err(self.malformed(what.as_str(), p))
        }
    }

    #[verifier::spinoff_prover]
    #[verifier::rlimit(60)]
    fn array(&self, start: usize, depth: usize) -> (got: Result<(RawJson, usize), CanonicalError>)
        requires
            start < self.chars.len(),
            self.chars@[start as int] == '[',
            depth <= MAX_DEPTH,
        ensures
            reads(got, read_value(self.chars@, start as int, depth as int)),
            got is Ok ==> start < got->Ok_0.1 <= self.chars@.len() && numbers_valid(got->Ok_0.0@),
        decreases MAX_DEPTH + 2 - depth - 1, 1int,
    {
        proof {
            lemma_read_array(self.chars@, start as int, depth as int);
        }
        let mut items: Vec<RawJson> = Vec::new();
        let mut p: usize = self.skip_whitespace(start + 1);
        let ghost mut acc: Seq<Json> = Seq::empty();
        if self.is_at(p, ']') {
            let empty = RawJson::Array(items);
            assert(empty@->Array_0 =~= Seq::<Json>::empty());
            return Ok((empty, p + 1));
        }
        loop
            invariant
                start < p <= self.chars@.len(),
                depth <= MAX_DEPTH,
                items.len() == acc.len(),
                forall|k: int|
                    0 <= k < items.len() ==> (#[trigger] items[k])@ == acc[k] && numbers_valid(
                        acc[k],
                    ),
                read_value(self.chars@, start as int, depth as int) == read_items(
                    self.chars@,
                    p as int,
                    depth + 1,
                    acc,
                ),
            decreases self.chars@.len() - p,
        {
            proof {
                lemma_read_items(self.chars@, p as int, depth + 1, acc);
            }
            let at: usize = self.skip_whitespace(p);
            match self.value(at, depth + 1) {
                Err(e) => return Err(e),
                Ok((item, after)) => {
                    let q: usize = self.skip_whitespace(after);
                    let ghost grown = acc.push(item@);
                    items.push(item);
                    if self.is_at(q, ',') {
                        proof {
                            acc = grown;
                        }
                        p = q + 1;
                    } else if self.is_at(q, ']') {
                        let all = RawJson::Array(items);
                        assert(all@->Array_0 =~= grown);
                        assert forall|k: int| 0 <= k < grown.len() implies numbers_valid(
                            #[trigger] grown[k],
                        ) by {
                            if k < acc.len() {
                                assert(items@[k]@ == acc[k]);
                            }
                        }
                        return Ok((all, q + 1));
                    } else {
                        return Err(self.malformed("expected ',' or ']'", q));
                    }
                },
            }
        }
    }

    #[verifier::spinoff_prover]
    #[verifier::rlimit(60)]
    fn object(&self, start: usize, depth: usize) -> (got: Result<(RawJson, usize), CanonicalError>)
        requires
            start < self.chars.len(),
            self.chars@[start as int] == '{',
            depth <= MAX_DEPTH,
        ensures
            reads(got, read_value(self.chars@, start as int, depth as int)),
            got is Ok ==> start < got->Ok_0.1 <= self.chars@.len() && numbers_valid(got->Ok_0.0@),
        decreases MAX_DEPTH + 2 - depth - 1, 1int,
    {
        proof {
            lemma_read_object(self.chars@, start as int, depth as int);
        }
        let mut entries: Vec<(String, RawJson)> = Vec::new();
        let mut p: usize = self.skip_whitespace(start + 1);
        let ghost mut acc: Seq<(Seq<char>, Json)> = Seq::empty();
        if self.is_at(p, '}') {
            let empty = RawJson::Object(entries);
            assert(empty@->Object_0 =~= Seq::<(Seq<char>, Json)>::empty());
            return Ok((empty, p + 1));
        }
        loop
            invariant
                start < p <= self.chars@.len(),
                depth <= MAX_DEPTH,
                entries.len() == acc.len(),
                forall|k: int|
                    0 <= k < entries.len() ==> (#[trigger] entries[k]).0@ == acc[k].0
                        && entries[k].1@ == acc[k].1 && numbers_valid(acc[k].1),
                read_value(self.chars@, start as int, depth as int) == read_entries(
                    self.chars@,
                    p as int,
                    depth + 1,
                    acc,
                ),
            decreases self.chars@.len() - p,
        {
            proof {
                lemma_read_entries(self.chars@, p as int, depth + 1, acc);
            }
            let at: usize = self.skip_whitespace(p);
            let (key, after_key) = match self.string(at) {
                Err(e) => return Err(e),
                Ok(pair) => pair,
            };
            let colon: usize = self.skip_whitespace(after_key);
            if !self.is_at(colon, ':') {
                return Err(self.malformed("expected ':'", colon));
            }
            let value_at: usize = self.skip_whitespace(colon + 1);
            match self.value(value_at, depth + 1) {
                Err(e) => return Err(e),
                Ok((value, after)) => {
                    let q: usize = self.skip_whitespace(after);
                    let ghost grown = acc.push((key@, value@));
                    entries.push((key, value));
                    if self.is_at(q, ',') {
                        proof {
                            acc = grown;
                        }
                        p = q + 1;
                    } else if self.is_at(q, '}') {
                        let all = RawJson::Object(entries);
                        assert(all@->Object_0 =~= grown);
                        assert forall|k: int| 0 <= k < grown.len() implies numbers_valid(
                            (#[trigger] grown[k]).1,
                        ) by {
                            if k < acc.len() {
                                assert(entries@[k].1@ == acc[k].1);
                            }
                        }
                        return Ok((all, q + 1));
                    } else {
                        return Err(self.malformed("expected ',' or '}'", q));
                    }
                },
            }
        }
    }
}

impl RawJson {
    /// Read JSON text, keeping every number token verbatim.
    pub fn parse(text: &str) -> (got: Result<RawJson, CanonicalError>)
        ensures
            got is Ok ==> read_document(text@) == Ok::<Json, Fault>(got->Ok_0@) && numbers_valid(
                got->Ok_0@,
            ),
            got is Err ==> read_document(text@) == Err::<Json, Fault>(got->Err_0@),
    {
        let chars: Vec<char> = chars_of(text);
        let reader = Reader { chars: &chars };
        let start: usize = reader.skip_whitespace(0);
        match reader.value(start, 0) {
            Err(e) => Err(e),
            Ok((value, after)) => {
                let end: usize = reader.skip_whitespace(after);
                if end != chars.len() {
                    Err(reader.malformed("trailing input", end))
                } else {
                    Ok(value)
                }
            },
        }
    }
}


/// The index of the first entry with `key` from `i` on, or the number of
/// entries.
pub open spec fn key_index(entries: Seq<(Seq<char>, Json)>, key: Seq<char>, i: int) -> int
    decreases entries.len() - i,
{
    if 0 <= i < entries.len() && entries[i].0 != key {
        key_index(entries, key, i + 1)
    } else {
        i
    }
}

/// The value at `key`: that of the first entry with it.
pub open spec fn lookup(t: Json, key: Seq<char>) -> Option<Json> {
    match t {
        Json::Object(entries) => {
            let i = key_index(entries, key, 0);
            if i < entries.len() {
                Some(entries[i].1)
            } else {
                None
            }
        },
        _ => None,
    }
}

/// The entries whose key is not `key`.
pub open spec fn without_key(entries: Seq<(Seq<char>, Json)>, key: Seq<char>) -> Seq<
    (Seq<char>, Json),
>
    decreases entries.len(),
{
    if entries.len() == 0 {
        entries
    } else if entries.last().0 == key {
        without_key(entries.drop_last(), key)
    } else {
        without_key(entries.drop_last(), key).push(entries.last())
    }
}

/// A tree without the entries at `key`.
pub open spec fn removed(t: Json, key: Seq<char>) -> Json {
    match t {
        Json::Object(entries) => Json::Object(without_key(entries, key)),
        _ => t,
    }
}

/// A tree with `value` at `key`: in the place of the first entry with it, or
/// behind the others.
pub open spec fn inserted(t: Json, key: Seq<char>, value: Json) -> Json {
    match t {
        Json::Object(entries) => {
            let i = key_index(entries, key, 0);
            if i < entries.len() {
                Json::Object(entries.update(i, (entries[i].0, value)))
            } else {
                Json::Object(entries.push((key, value)))
            }
        },
        _ => t,
    }
}

/// The text of a string value.
pub open spec fn str_of(t: Json) -> Option<Seq<char>> {
    match t {
        Json::Str(s) => Some(s),
        _ => None,
    }
}

impl RawJson {
    /// The index of the first entry with `key`, or the number of entries.
    fn find_key(entries: &Vec<(String, RawJson)>, key: &str) -> (i: usize)
        ensures
            i == key_index(RawJson::Object(*entries)@->Object_0, key@, 0),
            i <= entries@.len(),
    {
        let ghost model = RawJson::Object(*entries)@->Object_0;
        let mut i: usize = 0;
        while i < entries.len() && !same_text(entries[i].0.as_str(), key)
            invariant
                i <= entries@.len(),
                model == RawJson::Object(*entries)@->Object_0,
                key_index(model, key@, 0) == key_index(model, key@, i as int),
            decreases entries@.len() - i,
        {
            i = i + 1;
        }
        i
    }

    /// The value at `key`, when this is an object that has one.
    pub fn get(&self, key: &str) -> (got: Option<&RawJson>)
        ensures
            got is Some <==> lookup(self@, key@) is Some,
            got is Some ==> got->0@ == lookup(self@, key@)->0,
    {
        match self {
            RawJson::Object(entries) => {
                let i: usize = Self::find_key(entries, key);
                if i < entries.len() {
                    Some(&entries[i].1)
                } else {
                    None
                }
            },
            _ => None,
        }
    }

    /// The string, when this is one.
    pub fn as_str(&self) -> (got: Option<&str>)
        ensures
            got is Some <==> str_of(self@) is Some,
            got is Some ==> got->0@ == str_of(self@)->0,
    {
        match self {
            RawJson::Str(s) => Some(s.as_str()),
            _ => None,
        }
    }

    /// Drop `key`, if this is an object.
    pub fn remove(&mut self, key: &str)
        ensures
            final(self)@ == removed(old(self)@, key@),
    {
        match self {
            RawJson::Object(entries) => {
                let mut kept: Vec<(String, RawJson)> = Vec::new();
                let mut rest: Vec<(String, RawJson)> = Vec::new();
                core::mem::swap(entries, &mut rest);
                let ghost model = RawJson::Object(rest)@->Object_0;
                let ghost mut kept_model = Seq::<(Seq<char>, Json)>::empty();
                assert(model.take(0) =~= Seq::<(Seq<char>, Json)>::empty());
                for entry in it: rest
                    invariant
                        it.seq().len() == model.len(),
                        forall|k: int|
                            0 <= k < model.len() ==> (#[trigger] it.seq()[k]).0@ == model[k].0
                                && it.seq()[k].1@ == model[k].1,
                        kept_model == without_key(model.take(it.index() as int), key@),
                        kept@.len() == kept_model.len(),
                        forall|k: int|
                            0 <= k < kept@.len() ==> (#[trigger] kept@[k]).0@ == kept_model[k].0
                                && kept@[k].1@ == kept_model[k].1,
                {
                    let ghost n = it.index() as int;
                    assert(model.take(n + 1).drop_last() =~= model.take(n));
                    if !same_text(entry.0.as_str(), key) {
                        proof {
                            kept_model = kept_model.push((entry.0@, entry.1@));
                        }
                        kept.push(entry);
                    }
                }
                assert(model.take(model.len() as int) =~= model);
                core::mem::swap(entries, &mut kept);
                assert(RawJson::Object(*entries)@->Object_0 =~= kept_model);
            },
            _ => {},
        }
    }

    /// Set `key`, replacing it in place if it is already there so that the file
    /// order does not shuffle when a document is re-sealed.
    pub fn insert(&mut self, key: &str, value: RawJson)
        ensures
            final(self)@ == inserted(old(self)@, key@, value@),
    {
        match self {
            RawJson::Object(entries) => {
                let i: usize = Self::find_key(entries, key);
                let ghost expected = inserted(RawJson::Object(*entries)@, key@, value@);
                if i < entries.len() {
                    let kept: String = entries[i].0.clone();
                    entries.set(i, (kept, value));
                } else {
                    entries.push((key.to_owned(), value));
                }
                assert(RawJson::Object(*entries)@->Object_0 =~= expected->Object_0);
            },
            _ => {},
        }
    }
}

} // verus!
