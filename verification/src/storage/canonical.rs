//! The canonical form of a JSON tree.
//!
//! Object keys ascend, arrays stay as they are, a number with no fractional
//! part prints as a plain integer, and every other number prints the digits it
//! was written with. A document that two languages would spell differently is
//! refused instead: a key outside ASCII, a key that occurs twice, a number that
//! JavaScript prints in exponent form, an integer that it cannot hold.

use crate::storage::json::{
    char_at, is_number, lemma_number_token, numbers_valid, CanonicalError, Fault, Json, RawJson,
};
use crate::text::{
    all_digits, chars_of, concat3, decimal, decimal_text, digits_end, digits_value, hex_char,
    hex_digit_of, is_digit, key_order, lemma_digits_end, skip_digits, sorted_indices, text_of,
    texts, trim_back_zeros, trim_front_zeros, zeros,
};
use vstd::prelude::*;
use vstd::utf8::is_ascii_chars;

verus! {

/// Largest integer a JavaScript `Number` holds exactly, `2^53 - 1`.
pub const MAX_SAFE_INTEGER: i64 = 9_007_199_254_740_991;

/// A number token, taken apart at its point and its exponent marker.
pub struct NumberParts {
    /// The token starts with a minus sign.
    pub negative: bool,
    /// The digits before the point.
    pub whole: Seq<char>,
    /// The digits after the point.
    pub frac: Seq<char>,
    /// What follows the exponent marker, where there is one.
    pub exponent: Option<Seq<char>>,
}

/// Where the fraction of a token ends, and an exponent may start.
pub open spec fn mantissa_end(token: Seq<char>) -> int {
    let int_end = digits_end(token, if char_at(token, 0, '-') { 1 } else { 0 });
    if char_at(token, int_end, '.') {
        digits_end(token, int_end + 1)
    } else {
        int_end
    }
}

/// Whether an exponent marker follows the digits of a token.
pub open spec fn has_exponent(token: Seq<char>) -> bool {
    char_at(token, mantissa_end(token), 'e') || char_at(token, mantissa_end(token), 'E')
}

/// Whether a token goes on after its exponent marker, where it has one.
pub open spec fn is_complete(token: Seq<char>) -> bool {
    has_exponent(token) ==> mantissa_end(token) + 1 < token.len()
}

/// The parts of a number token.
pub open spec fn number_parts(token: Seq<char>) -> NumberParts {
    let negative = char_at(token, 0, '-');
    let int_start: int = if negative {
        1
    } else {
        0
    };
    let int_end = digits_end(token, int_start);
    let end = mantissa_end(token);
    NumberParts {
        negative,
        whole: token.subrange(int_start, int_end),
        frac: if char_at(token, int_end, '.') {
            token.subrange(int_end + 1, end)
        } else {
            Seq::empty()
        },
        exponent: if has_exponent(token) {
            Some(token.skip(end + 1))
        } else {
            None
        },
    }
}

/// Whether `s` starts with a sign.
pub open spec fn starts_with_sign(s: Seq<char>) -> bool {
    s.len() > 0 && (s[0] == '-' || s[0] == '+')
}

/// The integer that `s` spells: digits, with at most one sign before them.
pub open spec fn integer_value(s: Seq<char>) -> Option<int> {
    let digits = if starts_with_sign(s) {
        s.skip(1)
    } else {
        s
    };
    if digits.len() == 0 || !all_digits(digits) {
        None
    } else if s[0] == '-' {
        Some(-(digits_value(digits) as int))
    } else {
        Some(digits_value(digits) as int)
    }
}

/// The exponent that `s` spells: an integer, with at most one sign more before it.
/// JSON knows one sign; a token that was put together by hand may have both.
pub open spec fn signed_value(s: Seq<char>) -> Option<int> {
    if starts_with_sign(s) {
        match integer_value(s.skip(1)) {
            Some(v) => Some(
                if s[0] == '-' {
                    -v
                } else {
                    v
                },
            ),
            None => None,
        }
    } else {
        integer_value(s)
    }
}

/// The digits left of the point, once it stands behind `point` of `digits`.
pub open spec fn whole_digits(digits: Seq<char>, point: int) -> Seq<char> {
    if point <= 0 {
        Seq::empty()
    } else if point >= digits.len() {
        digits + zeros((point - digits.len()) as nat)
    } else {
        digits.take(point)
    }
}

/// The digits right of the point, once it stands behind `point` of `digits`.
pub open spec fn fraction_digits(digits: Seq<char>, point: int) -> Seq<char> {
    if point <= 0 {
        zeros((-point) as nat) + digits
    } else if point >= digits.len() {
        Seq::empty()
    } else {
        digits.skip(point)
    }
}

/// How many zeros `s` starts with.
pub open spec fn leading_zeros(s: Seq<char>) -> nat {
    (s.len() - trim_front_zeros(s).len()) as nat
}

/// A sign, the digits before the point (none stand for a single zero) and those
/// after it.
pub open spec fn number_text(negative: bool, whole: Seq<char>, fraction: Seq<char>) -> Seq<char> {
    (if negative {
        "-"@
    } else {
        ""@
    }) + (if whole.len() == 0 {
        "0"@
    } else {
        whole
    }) + (if fraction.len() == 0 {
        ""@
    } else {
        "."@ + fraction
    })
}

/// The spelling of `token`, once its point stands between `whole_part` and
/// `fraction_part`: without idle zeros, and refused where two languages would
/// not agree on it. `as_integer` says that it was written with neither a
/// fraction nor an exponent.
pub open spec fn spelled(
    token: Seq<char>,
    path: Seq<char>,
    negative: bool,
    as_integer: bool,
    whole_part: Seq<char>,
    fraction_part: Seq<char>,
) -> Result<Seq<char>, Fault> {
    let whole = trim_front_zeros(whole_part);
    let fraction = trim_back_zeros(fraction_part);
    if whole.len() == 0 && fraction.len() == 0 {
        Ok("0"@)
    } else if whole.len() >= 22 || (whole.len() == 0 && leading_zeros(fraction) >= 6) {
        Err(Fault::OutOfPlainRange { path, token })
    } else if as_integer && digits_value(whole) > MAX_SAFE_INTEGER {
        Err(Fault::UnsafeInteger { path, value: token })
    } else {
        Ok(number_text(negative, whole, fraction))
    }
}

/// The canonical spelling of a number token, worked out by moving its decimal
/// point rather than by parsing it.
pub open spec fn canonical_number_of(token: Seq<char>, path: Seq<char>) -> Result<Seq<char>, Fault> {
    let parts = number_parts(token);
    let out_of_range = Err::<Seq<char>, Fault>(Fault::OutOfPlainRange { path, token });
    let exponent = match parts.exponent {
        Some(e) => signed_value(e),
        None => Some(0),
    };
    match exponent {
        None => out_of_range,
        Some(e) => {
            let digits = parts.whole + parts.frac;
            let point = parts.whole.len() + e;
            spelled(
                token,
                path,
                parts.negative,
                parts.frac.len() == 0 && parts.exponent is None,
                whole_digits(digits, point),
                fraction_digits(digits, point),
            )
        },
    }
}

/// How a string spells one of its characters.
pub open spec fn escaped_char(c: char) -> Seq<char> {
    if c == '"' {
        "\\\""@
    } else if c == '\\' {
        "\\\\"@
    } else if c == '\u{8}' {
        "\\b"@
    } else if c == '\u{c}' {
        "\\f"@
    } else if c == '\n' {
        "\\n"@
    } else if c == '\r' {
        "\\r"@
    } else if c == '\t' {
        "\\t"@
    } else if (c as u32) < 0x20 {
        "\\u00"@.push(hex_char(c as nat / 16)).push(hex_char(c as nat % 16))
    } else {
        seq![c]
    }
}

/// How a string spells its characters.
pub open spec fn escaped(s: Seq<char>) -> Seq<char>
    decreases s.len(),
{
    if s.len() == 0 {
        Seq::empty()
    } else {
        escaped(s.drop_last()) + escaped_char(s.last())
    }
}

/// A string as `JSON.stringify` would write it.
pub open spec fn quoted(s: Seq<char>) -> Seq<char> {
    seq!['"'] + escaped(s) + seq!['"']
}

/// Texts joined by commas, or the first fault among them.
pub open spec fn comma_joined(parts: Seq<Result<Seq<char>, Fault>>) -> Result<Seq<char>, Fault>
    decreases parts.len(),
{
    if parts.len() == 0 {
        Ok(Seq::empty())
    } else {
        match comma_joined(parts.drop_last()) {
            Err(e) => Err(e),
            Ok(before) => match parts.last() {
                Err(e) => Err(e),
                Ok(text) => Ok(
                    if parts.len() == 1 {
                        text
                    } else {
                        before.push(',') + text
                    },
                ),
            },
        }
    }
}

/// The first index from `i` on whose key is not ASCII, or the number of keys.
pub open spec fn first_non_ascii(keys: Seq<Seq<char>>, i: int) -> int
    decreases keys.len() - i,
{
    if 0 <= i < keys.len() && is_ascii_chars(keys[i]) {
        first_non_ascii(keys, i + 1)
    } else {
        i
    }
}

/// The first place from `k` on at which the order names a key that the next
/// place names too, or the last place.
pub open spec fn first_repeat(keys: Seq<Seq<char>>, order: Seq<int>, k: int) -> int
    decreases order.len() - k,
{
    if 0 <= k < order.len() - 1 && keys[order[k]] != keys[order[k + 1]] {
        first_repeat(keys, order, k + 1)
    } else {
        k
    }
}

/// One key and its value, as an object spells them.
pub open spec fn field_text(key: Seq<char>, value: Result<Seq<char>, Fault>) -> Result<
    Seq<char>,
    Fault,
> {
    match value {
        Err(e) => Err(e),
        Ok(text) => Ok(quoted(key).push(':') + text),
    }
}

/// The keys and their values, in the given order.
pub open spec fn field_texts(
    keys: Seq<Seq<char>>,
    order: Seq<int>,
    values: Seq<Result<Seq<char>, Fault>>,
) -> Seq<Result<Seq<char>, Fault>> {
    Seq::new(order.len(), |k: int| field_text(keys[order[k]], values[order[k]]))
}

/// An object at `path` with these keys, whose values have these canonical texts.
pub open spec fn object_text(
    path: Seq<char>,
    keys: Seq<Seq<char>>,
    values: Seq<Result<Seq<char>, Fault>>,
) -> Result<Seq<char>, Fault> {
    let order = key_order(keys);
    let foreign = first_non_ascii(keys, 0);
    let repeat = first_repeat(keys, order, 0);
    if foreign < keys.len() {
        Err(Fault::NonAsciiKey { path, key: keys[foreign] })
    } else if repeat + 1 < order.len() {
        Err(Fault::DuplicateKey { path, key: keys[order[repeat]] })
    } else {
        match comma_joined(field_texts(keys, order, values)) {
            Err(e) => Err(e),
            Ok(text) => Ok("{"@ + text + "}"@),
        }
    }
}

/// The path of the item `i` of the array at `path`.
pub open spec fn item_path(path: Seq<char>, i: int) -> Seq<char> {
    path + "["@ + decimal(i as nat) + "]"@
}

/// The path of the entry `key` of the object at `path`.
pub open spec fn entry_path(path: Seq<char>, key: Seq<char>) -> Seq<char> {
    path + "."@ + key
}

/// The keys of an object, in file order.
pub open spec fn keys_of(entries: Seq<(Seq<char>, Json)>) -> Seq<Seq<char>> {
    Seq::new(entries.len(), |i: int| entries[i].0)
}

/// The canonical text of the value at `path`.
pub open spec fn canonical_at(t: Json, path: Seq<char>) -> Result<Seq<char>, Fault>
    decreases t,
{
    match t {
        Json::Null => Ok("null"@),
        Json::Bool(true) => Ok("true"@),
        Json::Bool(false) => Ok("false"@),
        Json::Number(token) => canonical_number_of(token, path),
        Json::Str(s) => Ok(quoted(s)),
        Json::Array(items) => {
            match comma_joined(item_texts(items, path)) {
                Err(e) => Err(e),
                Ok(text) => Ok("["@ + text + "]"@),
            }
        },
        Json::Object(entries) => object_text(path, keys_of(entries), value_texts(entries, path)),
    }
}

/// The canonical texts of the items of the array at `path`.
pub open spec fn item_texts(items: Seq<Json>, path: Seq<char>) -> Seq<Result<Seq<char>, Fault>>
    decreases items,
{
    Seq::new(
        items.len(),
        |i: int|
            if 0 <= i < items.len() {
                canonical_at(items[i], item_path(path, i))
            } else {
                Ok(Seq::empty())
            },
    )
}

/// The canonical texts of the values of the object at `path`, in file order.
pub open spec fn value_texts(entries: Seq<(Seq<char>, Json)>, path: Seq<char>) -> Seq<
    Result<Seq<char>, Fault>,
>
    decreases entries,
{
    Seq::new(
        entries.len(),
        |i: int|
            if 0 <= i < entries.len() {
                canonical_at(entries[i].1, entry_path(path, entries[i].0))
            } else {
                Ok(Seq::empty())
            },
    )
}

/// The canonical text of a document.
pub open spec fn canonical_text(t: Json) -> Result<Seq<char>, Fault> {
    canonical_at(t, "$"@)
}

/// Whether every number token of a tree goes on after its exponent marker.
pub open spec fn tokens_complete(t: Json) -> bool
    decreases t,
{
    match t {
        Json::Number(token) => is_complete(token),
        Json::Array(items) => forall|i: int|
            0 <= i < items.len() ==> tokens_complete(#[trigger] items[i]),
        Json::Object(entries) => forall|i: int|
            0 <= i < entries.len() ==> tokens_complete((#[trigger] entries[i]).1),
        _ => true,
    }
}


/// Whether a text, or why there is none, is what `expected` says.
pub open spec fn is_text(got: Result<String, CanonicalError>, expected: Result<Seq<char>, Fault>) -> bool {
    match got {
        Ok(text) => expected == Ok::<Seq<char>, Fault>(text@),
        Err(e) => expected == Err::<Seq<char>, Fault>(e@),
    }
}

/// More than any number of digits.
pub const HUGE: u128 = 1_000_000_000_000_000_000_000_000_000_000;

/// The number that digits spell, or one above [`HUGE`] where theirs is.
fn capped_value(s: &[char], from: usize) -> (v: Option<u128>)
    requires
        from <= s@.len(),
    ensures
        v is Some <==> s@.skip(from as int).len() > 0 && all_digits(s@.skip(from as int)),
        v is Some ==> v->0 <= 20 * HUGE && (v->0 <= HUGE ==> v->0 == digits_value(
            s@.skip(from as int),
        )) && (v->0 > HUGE ==> digits_value(s@.skip(from as int)) > HUGE),
{
    let ghost digits = s@.skip(from as int);
    if from == s.len() {
        return None;
    }
    let mut v: u128 = 0;
    let mut i: usize = from;
    while i < s.len()
        invariant
            from <= i <= s@.len(),
            digits == s@.skip(from as int),
            all_digits(digits.take(i - from)),
            v <= 20 * HUGE,
            v <= HUGE ==> v == digits_value(digits.take(i - from)),
            v > HUGE ==> digits_value(digits.take(i - from)) > HUGE,
        decreases s@.len() - i,
    {
        let c: char = s[i];
        if !('0' <= c && c <= '9') {
            assert(!is_digit(digits[i - from]));
            return None;
        }
        let d: u128 = (c as u32 - 48) as u128;
        proof {
            assert(digits.take(i - from + 1).drop_last() =~= digits.take(i - from));
            assert forall|k: int| 0 <= k < i - from + 1 implies is_digit(
                #[trigger] digits.take(i - from + 1)[k],
            ) by {
                if k < i - from {
                    assert(digits.take(i - from)[k] == digits.take(i - from + 1)[k]);
                }
            }
        }
        if v <= HUGE {
            v = v * 10 + d;
        }
        i = i + 1;
    }
    assert(digits.take(i - from) =~= digits);
    Some(v)
}

/// The power of ten that stands behind the exponent marker before `from`, or one
/// beyond [`HUGE`] of the same sign where it is.
fn exponent_of(token: &[char], from: usize) -> (e: Option<i128>)
    requires
        from < token@.len(),
    ensures
        e is Some <==> signed_value(token@.skip(from as int)) is Some,
        e is Some ==> ({
            let v = signed_value(token@.skip(from as int))->0;
            &&& -20 * HUGE <= e->0 <= 20 * HUGE
            &&& -HUGE <= e->0 <= HUGE ==> e->0 == v
            &&& e->0 > HUGE ==> v > HUGE
            &&& e->0 < -HUGE ==> v < -HUGE
        }),
{
    let ghost after = token@.skip(from as int);
    let outer: bool = token[from] == '-';
    let inner: usize = if outer || token[from] == '+' {
        from + 1
    } else {
        from
    };
    assert(after[0] == token@[from as int]);
    let ghost rest = token@.skip(inner as int);
    assert(rest =~= (if starts_with_sign(after) {
        after.skip(1)
    } else {
        after
    }));
    let second: bool = inner > from && inner < token.len() && token[inner] == '-';
    let start: usize = if inner > from && inner < token.len() && (second || token[inner] == '+') {
        inner + 1
    } else {
        inner
    };
    assert(inner < token@.len() ==> rest[0] == token@[inner as int]);
    assert(token@.skip(start as int) =~= (if starts_with_sign(rest) {
        rest.skip(1)
    } else {
        rest
    }));
    match capped_value(token, start) {
        None => None,
        Some(v) => Some(
            if outer != second {
                -(v as i128)
            } else {
                v as i128
            },
        ),
    }
}

/// `out` with the characters `from..to` of `s` behind it.
fn push_chars(out: &mut Vec<char>, s: &[char], from: usize, to: usize)
    requires
        from <= to <= s@.len(),
    ensures
        final(out)@ == old(out)@ + s@.subrange(from as int, to as int),
{
    let mut i: usize = from;
    while i < to
        invariant
            from <= i <= to <= s@.len(),
            out@ == old(out)@ + s@.subrange(from as int, i as int),
        decreases to - i,
    {
        out.push(s[i]);
        i = i + 1;
        assert(out@ =~= old(out)@ + s@.subrange(from as int, i as int));
    }
    assert(out@ =~= old(out)@ + s@.subrange(from as int, to as int));
}

/// `out` with `n` zeros behind it.
fn push_zeros(out: &mut Vec<char>, n: usize)
    ensures
        final(out)@ == old(out)@ + zeros(n as nat),
{
    let mut i: usize = 0;
    while i < n
        invariant
            i <= n,
            out@ == old(out)@ + zeros(i as nat),
        decreases n - i,
    {
        out.push('0');
        i = i + 1;
        assert(out@ =~= old(out)@ + zeros(i as nat));
    }
    assert(out@ =~= old(out)@ + zeros(n as nat));
}

/// How many zeros `s` starts with.
fn count_front_zeros(s: &[char]) -> (n: usize)
    ensures
        n <= s@.len(),
        s@.skip(n as int) == trim_front_zeros(s@),
        forall|k: int| 0 <= k < n ==> #[trigger] s@[k] == '0',
        n < s@.len() ==> s@[n as int] != '0',
{
    let mut n: usize = 0;
    assert(s@.skip(0) =~= s@);
    while n < s.len() && s[n] == '0'
        invariant
            n <= s@.len(),
            forall|k: int| 0 <= k < n ==> #[trigger] s@[k] == '0',
            trim_front_zeros(s@.skip(n as int)) == trim_front_zeros(s@),
        decreases s@.len() - n,
    {
        assert(s@.skip(n as int).skip(1) =~= s@.skip(n + 1));
        n = n + 1;
    }
    n
}

/// `s` without the zeros it starts with.
fn without_front_zeros(s: &[char]) -> (out: Vec<char>)
    ensures
        out@ == trim_front_zeros(s@),
{
    let n: usize = count_front_zeros(s);
    let mut out: Vec<char> = Vec::new();
    push_chars(&mut out, s, n, s.len());
    assert(out@ =~= s@.skip(n as int));
    out
}

/// `s` without the zeros it ends with.
fn without_back_zeros(s: &[char]) -> (out: Vec<char>)
    ensures
        out@ == trim_back_zeros(s@),
{
    let mut n: usize = s.len();
    assert(s@.take(n as int) =~= s@);
    while n > 0 && s[n - 1] == '0'
        invariant
            n <= s@.len(),
            trim_back_zeros(s@.take(n as int)) == trim_back_zeros(s@),
        decreases n,
    {
        assert(s@.take(n as int).drop_last() =~= s@.take(n - 1));
        n = n - 1;
    }
    let mut out: Vec<char> = Vec::new();
    push_chars(&mut out, s, 0, n);
    assert(out@ =~= s@.take(n as int));
    out
}

/// Ten to the power `n`.
pub open spec fn ten_to(n: nat) -> nat
    decreases n,
{
    if n == 0 {
        1
    } else {
        10 * ten_to((n - 1) as nat)
    }
}

/// `n + 1` digits that start with no zero spell at least ten to the power `n`.
pub proof fn lemma_value_power(s: Seq<char>, n: nat)
    requires
        all_digits(s),
        s.len() == n + 1,
        s[0] != '0',
    ensures
        digits_value(s) >= ten_to(n),
    decreases n,
{
    let front = s.drop_last();
    assert(is_digit(s[0]));
    if n == 0 {
        assert(digits_value(front) == 0);
    } else {
        assert(front[0] == s[0]);
        assert forall|k: int| 0 <= k < front.len() implies is_digit(#[trigger] front[k]) by {
            assert(front[k] == s[k]);
        }
        lemma_value_power(front, (n - 1) as nat);
    }
}


/// Ten to a greater power is no less.
pub proof fn lemma_ten_grows(m: nat, n: nat)
    requires
        m <= n,
    ensures
        ten_to(m) <= ten_to(n),
    decreases n,
{
    if m < n {
        lemma_ten_grows(m, (n - 1) as nat);
    }
}

/// Digits spell less than ten to the power of their number.
pub proof fn lemma_value_below(s: Seq<char>)
    requires
        all_digits(s),
    ensures
        digits_value(s) < ten_to(s.len()),
    decreases s.len(),
{
    if s.len() > 0 {
        let front = s.drop_last();
        assert forall|k: int| 0 <= k < front.len() implies is_digit(#[trigger] front[k]) by {
            assert(front[k] == s[k]);
        }
        lemma_value_below(front);
        assert(is_digit(s[s.len() - 1]));
    }
}

/// Whether digits that start with no zero spell more than a JavaScript `Number`
/// holds exactly.
fn beyond_safe(digits: &[char]) -> (beyond: bool)
    requires
        all_digits(digits@),
        digits@.len() > 0 ==> digits@[0] != '0',
    ensures
        beyond == (digits_value(digits@) > MAX_SAFE_INTEGER),
{
    proof {
        reveal_with_fuel(ten_to, 18);
    }
    if digits.len() > 16 {
        proof {
            lemma_value_power(digits@, (digits@.len() - 1) as nat);
            lemma_ten_grows(16, (digits@.len() - 1) as nat);
        }
        return true;
    }
    let mut v: u64 = 0;
    let mut i: usize = 0;
    while i < digits.len()
        invariant
            i <= digits@.len() <= 16,
            all_digits(digits@),
            v == digits_value(digits@.take(i as int)),
            v < ten_to(i as nat),
        decreases digits@.len() - i,
    {
        let c: char = digits[i];
        assert(is_digit(digits@[i as int]));
        let d: u64 = (c as u32 - 48) as u64;
        proof {
            assert(digits@.take(i + 1).drop_last() =~= digits@.take(i as int));
            lemma_ten_grows(i as nat, 15);
            assert(ten_to(15) <= 1_000_000_000_000_000) by {
                reveal_with_fuel(ten_to, 18);
            }
        }
        v = v * 10 + d;
        i = i + 1;
    }
    assert(digits@.take(i as int) =~= digits@);
    v > MAX_SAFE_INTEGER as u64
}

/// Trimming leaves digits, of which the first is no zero.
pub proof fn lemma_trim_front(s: Seq<char>)
    ensures
        all_digits(s) ==> all_digits(trim_front_zeros(s)),
        trim_front_zeros(s).len() > 0 ==> trim_front_zeros(s)[0] != '0',
        trim_front_zeros(s).len() <= s.len(),
    decreases s.len(),
{
    if s.len() > 0 && s[0] == '0' {
        lemma_trim_front(s.skip(1));
        if all_digits(s) {
            assert forall|k: int| 0 <= k < s.skip(1).len() implies is_digit(
                #[trigger] s.skip(1)[k],
            ) by {
                assert(s.skip(1)[k] == s[k + 1]);
            }
        }
    }
}

/// The parts of a token hold digits only.
pub proof fn lemma_parts_are_digits(token: Seq<char>)
    ensures
        all_digits(number_parts(token).whole),
        all_digits(number_parts(token).frac),
        0 <= mantissa_end(token) <= token.len(),
{
    let int_start: int = if char_at(token, 0, '-') {
        1
    } else {
        0
    };
    lemma_digits_end(token, int_start);
    let int_end = digits_end(token, int_start);
    if char_at(token, int_end, '.') {
        lemma_digits_end(token, int_end + 1);
    }
}

/// Digits whose first that is no zero stands at `z` are trimmed to there.
pub proof fn lemma_trim_at(s: Seq<char>, z: int)
    requires
        0 <= z < s.len(),
        forall|k: int| 0 <= k < z ==> #[trigger] s[k] == '0',
        s[z] != '0',
    ensures
        trim_front_zeros(s) == s.skip(z),
    decreases z,
{
    if z > 0 {
        assert(s[0] == '0');
        let rest = s.skip(1);
        assert forall|k: int| 0 <= k < z - 1 implies #[trigger] rest[k] == '0' by {
            assert(rest[k] == s[k + 1]);
        }
        lemma_trim_at(rest, z - 1);
        assert(rest.skip(z - 1) =~= s.skip(z));
    } else {
        assert(s.skip(0) =~= s);
    }
}

/// Nothing is left of zeros.
pub proof fn lemma_trim_zeros(s: Seq<char>)
    requires
        forall|k: int| 0 <= k < s.len() ==> #[trigger] s[k] == '0',
    ensures
        trim_front_zeros(s).len() == 0,
        trim_back_zeros(s).len() == 0,
    decreases s.len(),
{
    if s.len() > 0 {
        assert(s[0] == '0' && s[s.len() - 1] == '0');
        assert forall|k: int| 0 <= k < s.skip(1).len() implies #[trigger] s.skip(1)[k] == '0' by {
            assert(s.skip(1)[k] == s[k + 1]);
        }
        lemma_trim_zeros(s.skip(1));
        lemma_trim_zeros(s.drop_last());
    }
}

/// Trimming zeros off the end keeps the front, up to a digit that is none.
pub proof fn lemma_trim_back_keeps(s: Seq<char>, i: int)
    requires
        0 <= i < s.len(),
        s[i] != '0',
    ensures
        i < trim_back_zeros(s).len() <= s.len(),
        trim_back_zeros(s) == s.take(trim_back_zeros(s).len() as int),
    decreases s.len(),
{
    if s.last() == '0' {
        lemma_trim_back_keeps(s.drop_last(), i);
        let n = trim_back_zeros(s).len() as int;
        assert(s.drop_last().take(n) =~= s.take(n));
    } else {
        assert(s.take(s.len() as int) =~= s);
    }
}

/// A number whose first digit that is no zero stands too far from the point is
/// refused.
proof fn lemma_refused_by_place(
    token: Seq<char>,
    path: Seq<char>,
    negative: bool,
    as_integer: bool,
    digits: Seq<char>,
    point: int,
    z: int,
)
    requires
        0 <= z < digits.len(),
        forall|k: int| 0 <= k < z ==> #[trigger] digits[k] == '0',
        digits[z] != '0',
        point - z >= 22 || point - z <= -6,
    ensures
        spelled(
            token,
            path,
            negative,
            as_integer,
            whole_digits(digits, point),
            fraction_digits(digits, point),
        ) == Err::<Seq<char>, Fault>(Fault::OutOfPlainRange { path, token }),
{
    let whole = whole_digits(digits, point);
    let fraction = fraction_digits(digits, point);
    if point - z >= 22 {
        assert(whole.len() == point);
        assert forall|k: int| 0 <= k < z implies #[trigger] whole[k] == '0' by {
            assert(whole[k] == digits[k]);
        }
        assert(whole[z] == digits[z]);
        lemma_trim_at(whole, z);
    } else {
        assert forall|k: int| 0 <= k < whole.len() implies #[trigger] whole[k] == '0' by {
            assert(whole[k] == digits[k]);
        }
        lemma_trim_zeros(whole);
        let j = z - point;
        assert(fraction[j] == digits[z]);
        lemma_trim_back_keeps(fraction, j);
        let kept = trim_back_zeros(fraction);
        assert forall|k: int| 0 <= k < j implies #[trigger] kept[k] == '0' by {
            if point <= 0 {
                if k >= -point {
                    assert(fraction[k] == digits[k + point]);
                }
            } else {
                assert(fraction[k] == digits[k + point]);
            }
        }
        assert(kept[j] == digits[z]);
        lemma_trim_at(kept, j);
    }
}

/// Every zero prints as `0`, wherever its point stands.
proof fn lemma_zero_spelled(
    token: Seq<char>,
    path: Seq<char>,
    negative: bool,
    as_integer: bool,
    digits: Seq<char>,
    point: int,
)
    requires
        forall|k: int| 0 <= k < digits.len() ==> #[trigger] digits[k] == '0',
    ensures
        spelled(
            token,
            path,
            negative,
            as_integer,
            whole_digits(digits, point),
            fraction_digits(digits, point),
        ) == Ok::<Seq<char>, Fault>("0"@),
{
    lemma_trim_zeros(whole_digits(digits, point));
    lemma_trim_zeros(fraction_digits(digits, point));
}

/// The digits left and right of the point, once it stands behind `point` of
/// `digits`.
fn shift_point(digits: &Vec<char>, point: i128) -> (out: (Vec<char>, Vec<char>))
    requires
        -6 < point < digits@.len() + 22,
        all_digits(digits@),
    ensures
        out.0@ == whole_digits(digits@, point as int),
        out.1@ == fraction_digits(digits@, point as int),
        all_digits(out.0@),
{
    let mut whole: Vec<char> = Vec::new();
    let mut fraction: Vec<char> = Vec::new();
    let count: usize = digits.len();
    if point <= 0 {
        push_zeros(&mut fraction, (-point) as usize);
        push_chars(&mut fraction, digits.as_slice(), 0, count);
    } else if point >= count as i128 {
        push_chars(&mut whole, digits.as_slice(), 0, count);
        push_zeros(&mut whole, (point - count as i128) as usize);
    } else {
        push_chars(&mut whole, digits.as_slice(), 0, point as usize);
        push_chars(&mut fraction, digits.as_slice(), point as usize, count);
    }
    assert(whole@ =~= whole_digits(digits@, point as int));
    assert(fraction@ =~= fraction_digits(digits@, point as int));
    (whole, fraction)
}

/// What is left of `token` to spell, once its point has moved.
fn spell_number(
    token: &str,
    path: &str,
    negative: bool,
    as_integer: bool,
    whole_part: &Vec<char>,
    fraction_part: &Vec<char>,
) -> (got: Result<String, CanonicalError>)
    requires
        all_digits(whole_part@),
    ensures
        is_text(
            got,
            spelled(token@, path@, negative, as_integer, whole_part@, fraction_part@),
        ),
{
    let whole: Vec<char> = without_front_zeros(whole_part.as_slice());
    let fraction: Vec<char> = without_back_zeros(fraction_part.as_slice());
    proof {
        lemma_trim_front(whole_part@);
    }
    if whole.len() == 0 && fraction.len() == 0 {
        return Ok("0".to_owned());
    }
    if whole.len() >= 22 || (whole.len() == 0 && count_front_zeros(fraction.as_slice()) >= 6) {
        return Err(
            CanonicalError::OutOfPlainRange { path: path.to_owned(), token: token.to_owned() },
        );
    }
    if as_integer && beyond_safe(whole.as_slice()) {
        return Err(
            CanonicalError::UnsafeInteger { path: path.to_owned(), value: token.to_owned() },
        );
    }
    let mut out: String = (if negative {
        "-"
    } else {
        ""
    }).to_owned();
    if whole.len() == 0 {
        out.append("0");
    } else {
        out.append(text_of(whole.as_slice()).as_str());
    }
    if fraction.len() > 0 {
        out.append(".");
        out.append(text_of(fraction.as_slice()).as_str());
    }
    proof {
        reveal_strlit("");
        assert(out@ =~= number_text(negative, whole@, fraction@));
    }
    Ok(out)
}

/// The canonical spelling of a number token, worked out by moving its decimal
/// point rather than by parsing it.
///
/// The exponent is applied by shifting the point, which is exact. Leading zeros
/// of the integer part and trailing zeros of the fraction go, and a fraction
/// that empties takes its point with it. Every zero prints as `0`. A magnitude
/// at or above `1e21`, or below `1e-6` and not zero, is refused, and so is a
/// token written as an integer beyond `2^53 - 1`.
fn canonical_number(token: &str, path: &str) -> (got: Result<String, CanonicalError>)
    requires
        is_complete(token@),
    ensures
        is_text(got, canonical_number_of(token@, path@)),
{
    let chars: Vec<char> = chars_of(token);
    let ghost parts = number_parts(token@);
    proof {
        lemma_parts_are_digits(token@);
    }
    let negative = chars.len() > 0 && chars[0] == '-';
    let int_start: usize = if negative {
        1
    } else {
        0
    };
    let int_end: usize = skip_digits(chars.as_slice(), int_start);
    let mut frac_start: usize = int_end;
    let mut end: usize = int_end;
    if int_end < chars.len() && chars[int_end] == '.' {
        frac_start = int_end + 1;
        end = skip_digits(chars.as_slice(), frac_start);
    }
    let marked = end < chars.len() && (chars[end] == 'e' || chars[end] == 'E');
    let mut exponent: i128 = 0;
    if marked {
        match exponent_of(chars.as_slice(), end + 1) {
            Some(e) => {
                exponent = e;
            },
            None => {
                return Err(
                    CanonicalError::OutOfPlainRange {
                        path: path.to_owned(),
                        token: token.to_owned(),
                    },
                );
            },
        }
    }
    let mut digits: Vec<char> = Vec::new();
    push_chars(&mut digits, chars.as_slice(), int_start, int_end);
    push_chars(&mut digits, chars.as_slice(), frac_start, end);
    assert(digits@ =~= parts.whole + parts.frac);
    let as_integer = frac_start == end && !marked;
    let ghost exact = parts.whole.len() + (match parts.exponent {
        Some(e) => signed_value(e)->0,
        None => 0,
    });
    let front: usize = count_front_zeros(digits.as_slice());
    if front == digits.len() {
        proof {
            lemma_zero_spelled(token@, path@, negative, as_integer, digits@, exact);
        }
        return Ok("0".to_owned());
    }
    let point: i128 = (int_end - int_start) as i128 + exponent;
    if point - front as i128 >= 22 || point - front as i128 <= -6 {
        proof {
            lemma_refused_by_place(
                token@,
                path@,
                negative,
                as_integer,
                digits@,
                exact,
                front as int,
            );
        }
        return Err(
            CanonicalError::OutOfPlainRange { path: path.to_owned(), token: token.to_owned() },
        );
    }
    assert(point == exact);
    let (whole, fraction) = shift_point(&digits, point);
    spell_number(token, path, negative, as_integer, &whole, &fraction)
}

/// `out` with the spelling of `c` behind it.
fn push_escaped(out: &mut String, c: char)
    ensures
        final(out)@ == old(out)@ + escaped_char(c),
{
    if c == '"' {
        out.append("\\\"");
    } else if c == '\\' {
        out.append("\\\\");
    } else if c == '\u{8}' {
        out.append("\\b");
    } else if c == '\u{c}' {
        out.append("\\f");
    } else if c == '\n' {
        out.append("\\n");
    } else if c == '\r' {
        out.append("\\r");
    } else if c == '\t' {
        out.append("\\t");
    } else {
        let code: u32 = c as u32;
        if code < 0x20 {
            out.append("\\u00");
            out.push(hex_digit_of(code / 16));
            out.push(hex_digit_of(code % 16));
            assert(out@ =~= old(out)@ + escaped_char(c));
        } else {
            out.push(c);
            assert(out@ =~= old(out)@ + escaped_char(c));
        }
    }
}

/// A string as `JSON.stringify` would write it.
pub(crate) fn canonical_string(s: &str) -> (out: String)
    ensures
        out@ == quoted(s@),
{
    let chars: Vec<char> = chars_of(s);
    let mut out: String = String::new();
    out.push('"');
    let mut i: usize = 0;
    while i < chars.len()
        invariant
            i <= chars@.len(),
            out@ == seq!['"'] + escaped(chars@.take(i as int)),
        decreases chars@.len() - i,
    {
        let c: char = chars[i];
        push_escaped(&mut out, c);
        assert(chars@.take(i + 1).drop_last() =~= chars@.take(i as int));
        i = i + 1;
        assert(out@ =~= seq!['"'] + escaped(chars@.take(i as int)));
    }
    out.push('"');
    assert(chars@.take(i as int) =~= s@);
    assert(out@ =~= quoted(s@));
    out
}

/// The first index from `i` on whose key is not ASCII stays within the keys.
proof fn lemma_first_non_ascii(keys: Seq<Seq<char>>, i: int)
    requires
        0 <= i <= keys.len(),
    ensures
        i <= first_non_ascii(keys, i) <= keys.len(),
    decreases keys.len() - i,
{
    if i < keys.len() && is_ascii_chars(keys[i]) {
        lemma_first_non_ascii(keys, i + 1);
    }
}

/// A fault among the first parts is the fault of the whole.
proof fn lemma_joined_fault(parts: Seq<Result<Seq<char>, Fault>>, n: int)
    requires
        0 <= n <= parts.len(),
        comma_joined(parts.take(n)) is Err,
    ensures
        comma_joined(parts) == comma_joined(parts.take(n)),
    decreases parts.len() - n,
{
    if n < parts.len() {
        assert(parts.take(n + 1).drop_last() =~= parts.take(n));
        lemma_joined_fault(parts, n + 1);
    } else {
        assert(parts.take(n) =~= parts);
    }
}

/// What joining the first `n + 1` parts adds to joining the first `n`.
proof fn lemma_joined_next(parts: Seq<Result<Seq<char>, Fault>>, n: int)
    requires
        0 <= n < parts.len(),
        comma_joined(parts.take(n)) is Ok,
    ensures
        parts[n] is Err ==> comma_joined(parts) == parts[n],
        parts[n] is Ok ==> comma_joined(parts.take(n + 1)) == Ok::<Seq<char>, Fault>(
            if n == 0 {
                parts[n]->Ok_0
            } else {
                comma_joined(parts.take(n))->Ok_0.push(',') + parts[n]->Ok_0
            },
        ),
{
    assert(parts.take(n + 1).drop_last() =~= parts.take(n));
    if parts[n] is Err {
        lemma_joined_fault(parts, n + 1);
    }
}

/// Whether `out` is `before` with the text that `expected` gives behind it, or
/// `got` is the fault that it gives.
pub open spec fn is_appended(
    got: Result<(), CanonicalError>,
    before: Seq<char>,
    after: Seq<char>,
    expected: Result<Seq<char>, Fault>,
) -> bool {
    match got {
        Ok(_) => expected is Ok && after == before + expected->Ok_0,
        Err(e) => expected == Err::<Seq<char>, Fault>(e@),
    }
}

/// The path of the item `i` of the array at `path`.
fn item_path_of(path: &str, i: usize) -> (out: String)
    ensures
        out@ == item_path(path@, i as int),
{
    let mut out: String = concat3(path, "[", decimal_text(i as u128).as_str());
    out.append("]");
    out
}

impl RawJson {
    /// The canonical JSON string for this value.
    pub fn canonical(&self) -> (got: Result<String, CanonicalError>)
        requires
            tokens_complete(self@),
        ensures
            is_text(got, canonical_text(self@)),
    {
        let mut out: String = String::new();
        match self.write_canonical("$", &mut out) {
            Ok(()) => {
                assert(out@ =~= canonical_text(self@)->Ok_0);
                Ok(out)
            },
            Err(e) => Err(e),
        }
    }

    fn write_canonical(&self, path: &str, out: &mut String) -> (got: Result<(), CanonicalError>)
        requires
            tokens_complete(self@),
        ensures
            is_appended(got, old(out)@, final(out)@, canonical_at(self@, path@)),
        decreases *self, 1int,
    {
        match self {
            RawJson::Null => {
                out.append("null");
                Ok(())
            },
            RawJson::Bool(b) => {
                out.append(
                    if *b {
                        "true"
                    } else {
                        "false"
                    },
                );
                Ok(())
            },
            RawJson::Number(token) => {
                match canonical_number(token.as_str(), path) {
                    Ok(text) => {
                        out.append(text.as_str());
                        Ok(())
                    },
                    Err(e) => Err(e),
                }
            },
            RawJson::Str(s) => {
                out.append(canonical_string(s.as_str()).as_str());
                Ok(())
            },
            RawJson::Array(_) => self.write_array(path, out),
            RawJson::Object(_) => self.write_object(path, out),
        }
    }

    fn write_array(&self, path: &str, out: &mut String) -> (got: Result<(), CanonicalError>)
        requires
            *self is Array,
            tokens_complete(self@),
        ensures
            is_appended(got, old(out)@, final(out)@, canonical_at(self@, path@)),
        decreases *self, 0int,
    {
        let items = match self {
            RawJson::Array(items) => items,
            _ => return Ok(()),
        };
        let ghost model = self@->Array_0;
        let ghost parts = item_texts(model, path@);
        let ghost before = out@;
        out.append("[");
        let mut i: usize = 0;
        assert(parts.take(0) =~= Seq::<Result<Seq<char>, Fault>>::empty());
        assert(out@ =~= before + "["@ + comma_joined(parts.take(0))->Ok_0);
        while i < items.len()
            invariant
                i <= items@.len(),
                *self is Array,
                *items == self->Array_0,
                tokens_complete(self@),
                model == self@->Array_0,
                parts == item_texts(model, path@),
                canonical_at(self@, path@) == (match comma_joined(parts) {
                    Err(e) => Err::<Seq<char>, Fault>(e),
                    Ok(text) => Ok("["@ + text + "]"@),
                }),
                comma_joined(parts.take(i as int)) is Ok,
                out@ == before + "["@ + comma_joined(parts.take(i as int))->Ok_0,
            decreases items@.len() - i,
        {
            if i > 0 {
                out.append(",");
            }
            let at: String = item_path_of(path, i);
            let ghost so_far = out@;
            proof {
                assert(model[i as int] == items@[i as int]@);
                assert(tokens_complete(model[i as int]));
                lemma_joined_next(parts, i as int);
                reveal_strlit(",");
            }
            match items[i].write_canonical(at.as_str(), out) {
                Ok(()) => {},
                Err(e) => return Err(e),
            }
            assert(out@ =~= before + "["@ + comma_joined(parts.take(i + 1))->Ok_0);
            i = i + 1;
        }
        assert(parts.take(i as int) =~= parts);
        out.append("]");
        assert(out@ =~= before + ("["@ + comma_joined(parts)->Ok_0 + "]"@));
        Ok(())
    }

    fn write_object(&self, path: &str, out: &mut String) -> (got: Result<(), CanonicalError>)
        requires
            *self is Object,
            tokens_complete(self@),
        ensures
            is_appended(got, old(out)@, final(out)@, canonical_at(self@, path@)),
        decreases *self, 0int,
    {
        let entries = match self {
            RawJson::Object(entries) => entries,
            _ => return Ok(()),
        };
        let ghost model = self@->Object_0;
        let ghost keys = keys_of(model);
        let ghost values = value_texts(model, path@);
        let mut key_chars: Vec<Vec<char>> = Vec::new();
        let mut i: usize = 0;
        while i < entries.len()
            invariant
                i <= entries@.len(),
                *self is Object,
                *entries == self->Object_0,
                model == self@->Object_0,
                keys == keys_of(model),
                canonical_at(self@, path@) == object_text(path@, keys, values),
                first_non_ascii(keys, 0) == first_non_ascii(keys, i as int),
                key_chars@.len() == i,
                forall|k: int| 0 <= k < i ==> (#[trigger] key_chars@[k])@ == keys[k],
            decreases entries@.len() - i,
        {
            let key = entries[i].0.as_str();
            assert(key@ == keys[i as int]);
            if !key.is_ascii() {
                return Err(CanonicalError::NonAsciiKey { path: path.to_owned(), key: key.to_owned() });
            }
            key_chars.push(chars_of(key));
            i = i + 1;
        }
        assert(texts(key_chars@) =~= keys);
        let order: Vec<usize> = sorted_indices(&key_chars);
        let ghost places = key_order(keys);
        let ghost fields = field_texts(keys, places, values);
        let mut k: usize = 0;
        while k < order.len() && k + 1 < order.len()
            invariant
                k <= order@.len(),
                *entries == self->Object_0,
                *self is Object,
                model == self@->Object_0,
                keys == keys_of(model),
                places == key_order(keys),
                places == crate::text::as_ints(order@),
                order@.len() == entries@.len() == keys.len(),
                first_non_ascii(keys, 0) == keys.len(),
                canonical_at(self@, path@) == object_text(path@, keys, values),
                forall|k: int| 0 <= k < order@.len() ==> (#[trigger] order@[k]) < entries@.len(),
                first_repeat(keys, places, 0) == first_repeat(keys, places, k as int),
            decreases order@.len() - k,
        {
            let this = entries[order[k]].0.as_str();
            let next = entries[order[k + 1]].0.as_str();
            assert(this@ == keys[places[k as int]]);
            assert(next@ == keys[places[k + 1]]);
            if crate::text::same_text(this, next) {
                return Err(
                    CanonicalError::DuplicateKey { path: path.to_owned(), key: this.to_owned() },
                );
            }
            k = k + 1;
        }
        let ghost before = out@;
        out.append("{");
        let mut j: usize = 0;
        assert(fields.take(0) =~= Seq::<Result<Seq<char>, Fault>>::empty());
        assert(out@ =~= before + "{"@ + comma_joined(fields.take(0))->Ok_0);
        while j < order.len()
            invariant
                j <= order@.len(),
                *entries == self->Object_0,
                *self is Object,
                tokens_complete(self@),
                model == self@->Object_0,
                keys == keys_of(model),
                places == key_order(keys),
                places == crate::text::as_ints(order@),
                order@.len() == entries@.len() == keys.len(),
                canonical_at(self@, path@) == (match comma_joined(fields) {
                    Err(e) => Err::<Seq<char>, Fault>(e),
                    Ok(text) => Ok("{"@ + text + "}"@),
                }),
                forall|k: int| 0 <= k < order@.len() ==> (#[trigger] order@[k]) < entries@.len(),
                values == value_texts(model, path@),
                fields == field_texts(keys, places, values),
                comma_joined(fields.take(j as int)) is Ok,
                out@ == before + "{"@ + comma_joined(fields.take(j as int))->Ok_0,
            decreases order@.len() - j,
        {
            if j > 0 {
                out.append(",");
            }
            let at: usize = order[j];
            assert(at < entries@.len());
            let key = entries[at].0.as_str();
            out.append(canonical_string(key).as_str());
            out.append(":");
            let inner: String = concat3(path, ".", key);
            proof {
                assert(model[at as int].1 == entries@[at as int].1@);
                assert(tokens_complete(model[at as int].1));
                assert(places[j as int] == at);
                assert(fields[j as int] == field_text(keys[at as int], values[at as int]));
                lemma_joined_next(fields, j as int);
                reveal_strlit(",");
                reveal_strlit(":");
            }
            match entries[at].1.write_canonical(inner.as_str(), out) {
                Ok(()) => {},
                Err(e) => return Err(e),
            }
            assert(out@ =~= before + "{"@ + comma_joined(fields.take(j + 1))->Ok_0);
            j = j + 1;
        }
        assert(fields.take(j as int) =~= fields);
        out.append("}");
        assert(out@ =~= before + ("{"@ + comma_joined(fields)->Ok_0 + "}"@));
        Ok(())
    }
}


/// A number as JSON spells it goes on after its exponent marker.
pub proof fn lemma_number_is_complete(token: Seq<char>)
    requires
        is_number(token),
    ensures
        is_complete(token),
{
    lemma_number_token(token, 0, token.len() as int);
    lemma_parts_are_digits(token);
    if has_exponent(token) && mantissa_end(token) + 1 >= token.len() {
        let start = mantissa_end(token) + 1;
        assert(digits_end(token, start) == start);
    }
}

/// A tree whose numbers are spelled as JSON spells them has only complete tokens.
pub proof fn lemma_valid_is_complete(t: Json)
    requires
        numbers_valid(t),
    ensures
        tokens_complete(t),
    decreases t,
{
    match t {
        Json::Number(token) => lemma_number_is_complete(token),
        Json::Array(items) => {
            assert forall|i: int| 0 <= i < items.len() implies tokens_complete(
                #[trigger] items[i],
            ) by {
                lemma_valid_is_complete(items[i]);
            }
        },
        Json::Object(entries) => {
            assert forall|i: int| 0 <= i < entries.len() implies tokens_complete(
                (#[trigger] entries[i]).1,
            ) by {
                lemma_valid_is_complete(entries[i].1);
            }
        },
        _ => {},
    }
}

} // verus!
