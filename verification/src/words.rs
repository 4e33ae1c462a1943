//! Taking texts apart and putting them together.

use crate::text::{
    all_digits, chars_of, decimal, digit_char, digit_value, digits_end, digits_value, is_digit,
    lemma_digits_end, skip_digits, text_between,
};
use vstd::prelude::*;

verus! {

/// The first place from `p` on that holds `c`, or the length of the text.
pub open spec fn index_of(s: Seq<char>, c: char, p: int) -> int
    decreases s.len() - p,
{
    if 0 <= p < s.len() && s[p] != c {
        index_of(s, c, p + 1)
    } else {
        p
    }
}

/// The first place from `p` on that holds `c`, or the length of the text.
pub fn find_char(s: &[char], c: char, p: usize) -> (q: usize)
    requires
        p <= s@.len(),
    ensures
        q == index_of(s@, c, p as int),
        p <= q <= s@.len(),
{
    let mut q: usize = p;
    while q < s.len() && s[q] != c
        invariant
            p <= q <= s@.len(),
            index_of(s@, c, p as int) == index_of(s@, c, q as int),
        decreases s@.len() - q,
    {
        q = q + 1;
    }
    q
}

/// Where a character is found, it is the first.
pub proof fn lemma_index_of(s: Seq<char>, c: char, p: int)
    requires
        0 <= p <= s.len(),
    ensures
        p <= index_of(s, c, p) <= s.len(),
        index_of(s, c, p) < s.len() ==> s[index_of(s, c, p)] == c,
        forall|k: int| p <= k < index_of(s, c, p) ==> #[trigger] s[k] != c,
    decreases s.len() - p,
{
    if p < s.len() && s[p] != c {
        lemma_index_of(s, c, p + 1);
    }
}

/// A character that stands nowhere before `q`, and at `q`, is found there.
pub proof fn lemma_index_is(s: Seq<char>, c: char, p: int, q: int)
    requires
        0 <= p <= q <= s.len(),
        q < s.len() ==> s[q] == c,
        forall|k: int| p <= k < q ==> #[trigger] s[k] != c,
    ensures
        index_of(s, c, p) == q,
    decreases q - p,
{
    if p < q {
        assert(s[p] != c);
        lemma_index_is(s, c, p + 1, q);
    }
}

/// The parts of `s` from `p` on between the places that hold `sep`.
pub open spec fn parts_from(s: Seq<char>, sep: char, p: int) -> Seq<Seq<char>>
    decreases s.len() - p,
{
    let q = index_of(s, sep, p);
    if p <= q < s.len() {
        seq![s.subrange(p, q)] + parts_from(s, sep, q + 1)
    } else {
        seq![s.subrange(p, s.len() as int)]
    }
}

/// The parts of `s` between the places that hold `sep`: at least one, and one
/// more than there are such places.
pub open spec fn parts_of(s: Seq<char>, sep: char) -> Seq<Seq<char>> {
    parts_from(s, sep, 0)
}

/// The parts of a text between the places that hold `sep`.
pub fn split_text(s: &[char], sep: char) -> (out: Vec<String>)
    ensures
        crate::text::strings(out@) == parts_of(s@, sep),
{
    let mut out: Vec<String> = Vec::new();
    let mut p: usize = 0;
    assert(crate::text::strings(out@) + parts_from(s@, sep, 0) =~= parts_of(s@, sep));
    loop
        invariant
            p <= s@.len(),
            crate::text::strings(out@) + parts_from(s@, sep, p as int) == parts_of(s@, sep),
        decreases s@.len() - p,
    {
        let q: usize = find_char(s, sep, p);
        let ghost before = crate::text::strings(out@);
        let part: String = text_between(s, p, q);
        if q < s.len() {
            out.push(part);
            proof {
                assert(crate::text::strings(out@) =~= before.push(part@));
                assert(crate::text::strings(out@) + parts_from(s@, sep, q + 1) =~= before
                    + parts_from(s@, sep, p as int));
            }
            p = q + 1;
        } else {
            out.push(part);
            assert(crate::text::strings(out@) =~= before.push(part@));
            assert(crate::text::strings(out@) =~= before + parts_from(s@, sep, p as int));
            return out;
        }
    }
}

/// Whether `c` is white space in the sense of Unicode's `White_Space` property.
pub open spec fn is_white(c: char) -> bool {
    let code = c as u32;
    0x9 <= code <= 0xd || code == 0x20 || code == 0x85 || code == 0xa0 || code == 0x1680 || 0x2000
        <= code <= 0x200a || code == 0x2028 || code == 0x2029 || code == 0x202f || code == 0x205f
        || code == 0x3000
}

/// Whether `c` is white space in the sense of Unicode's `White_Space` property.
pub fn white(c: char) -> (yes: bool)
    ensures
        yes == is_white(c),
{
    let code: u32 = c as u32;
    (0x9 <= code && code <= 0xd) || code == 0x20 || code == 0x85 || code == 0xa0 || code == 0x1680
        || (0x2000 <= code && code <= 0x200a) || code == 0x2028 || code == 0x2029 || code == 0x202f
        || code == 0x205f || code == 0x3000
}

/// `s` without the white space it starts with.
pub open spec fn trimmed_front(s: Seq<char>) -> Seq<char>
    decreases s.len(),
{
    if s.len() > 0 && is_white(s[0]) {
        trimmed_front(s.skip(1))
    } else {
        s
    }
}

/// `s` without the white space it ends with.
pub open spec fn trimmed_back(s: Seq<char>) -> Seq<char>
    decreases s.len(),
{
    if s.len() > 0 && is_white(s.last()) {
        trimmed_back(s.drop_last())
    } else {
        s
    }
}

/// `s` without the white space around it.
pub open spec fn trimmed(s: Seq<char>) -> Seq<char> {
    trimmed_back(trimmed_front(s))
}

/// A text without the white space around it.
pub fn trim(s: &[char]) -> (out: String)
    ensures
        out@ == trimmed(s@),
{
    let mut a: usize = 0;
    assert(s@.skip(0) =~= s@);
    while a < s.len() && white(s[a])
        invariant
            a <= s@.len(),
            trimmed_front(s@) == trimmed_front(s@.skip(a as int)),
        decreases s@.len() - a,
    {
        assert(s@.skip(a as int).skip(1) =~= s@.skip(a + 1));
        a = a + 1;
    }
    let mut b: usize = s.len();
    assert(s@.subrange(a as int, b as int) =~= s@.skip(a as int));
    while b > a && white(s[b - 1])
        invariant
            a <= b <= s@.len(),
            trimmed(s@) == trimmed_back(s@.subrange(a as int, b as int)),
        decreases b,
    {
        assert(s@.subrange(a as int, b as int).drop_last() =~= s@.subrange(a as int, b - 1));
        b = b - 1;
    }
    text_between(s, a, b)
}

/// Whether `word` stands somewhere in `s`.
pub open spec fn contains_word(s: Seq<char>, word: Seq<char>) -> bool {
    exists|p: int|
        0 <= p && p + word.len() <= s.len() && #[trigger] s.subrange(p, p + word.len()) == word
}

/// Whether `word` stands at `p`.
fn word_at(s: &[char], p: usize, word: &[char]) -> (yes: bool)
    requires
        p + word@.len() <= s@.len(),
    ensures
        yes == (s@.subrange(p as int, p + word@.len()) == word@),
{
    let count: usize = s.len();
    let mut i: usize = 0;
    while i < word.len()
        invariant
            i <= word@.len(),
            p + word@.len() <= s@.len() == count,
            forall|k: int| 0 <= k < i ==> s@[p + k] == #[trigger] word@[k],
        decreases word@.len() - i,
    {
        let here: char = s[p + i];
        if here != word[i] {
            assert(s@.subrange(p as int, p + word@.len())[i as int] != word@[i as int]);
            return false;
        }
        i = i + 1;
    }
    assert(s@.subrange(p as int, p + word@.len()) =~= word@);
    true
}

/// Whether `word` stands somewhere in `s`.
pub fn has_word(s: &[char], word: &[char]) -> (yes: bool)
    ensures
        yes == contains_word(s@, word@),
{
    if word.len() > s.len() {
        return false;
    }
    let last: usize = s.len() - word.len();
    let mut p: usize = 0;
    loop
        invariant
            p <= last,
            last + word@.len() == s@.len(),
            forall|k: int|
                0 <= k < p ==> #[trigger] s@.subrange(k, k + word@.len()) != word@,
        decreases last - p,
    {
        if word_at(s, p, word) {
            return true;
        }
        if p == last {
            return false;
        }
        p = p + 1;
    }
}

/// Texts with `sep` between each two of them.
pub open spec fn joined(parts: Seq<Seq<char>>, sep: Seq<char>) -> Seq<char>
    decreases parts.len(),
{
    if parts.len() == 0 {
        Seq::empty()
    } else if parts.len() == 1 {
        parts[0]
    } else {
        joined(parts.drop_last(), sep) + sep + parts.last()
    }
}

/// Texts with `sep` between each two of them.
pub fn join(parts: &Vec<String>, sep: &str) -> (out: String)
    ensures
        out@ == joined(crate::text::strings(parts@), sep@),
{
    let ghost all = crate::text::strings(parts@);
    let mut out: String = String::new();
    let mut i: usize = 0;
    assert(all.take(0) =~= Seq::<Seq<char>>::empty());
    while i < parts.len()
        invariant
            i <= parts@.len(),
            all == crate::text::strings(parts@),
            out@ == joined(all.take(i as int), sep@),
        decreases parts@.len() - i,
    {
        assert(all.take(i + 1).drop_last() =~= all.take(i as int));
        assert(all.take(i + 1).last() == parts@[i as int]@);
        if i == 0 {
            out = parts[i].clone();
        } else {
            out.append(sep);
            out.append(parts[i].as_str());
        }
        i = i + 1;
    }
    assert(all.take(i as int) =~= all);
    out
}

/// Whether `c` is an ASCII letter or digit.
pub open spec fn is_alnum(c: char) -> bool {
    '0' <= c <= '9' || 'a' <= c <= 'z' || 'A' <= c <= 'Z'
}

/// The ASCII letters and digits of a text.
pub open spec fn alnum_only(s: Seq<char>) -> Seq<char>
    decreases s.len(),
{
    if s.len() == 0 {
        s
    } else if is_alnum(s.last()) {
        alnum_only(s.drop_last()).push(s.last())
    } else {
        alnum_only(s.drop_last())
    }
}

/// Whether `c` is an ASCII letter or digit.
pub fn alnum(c: char) -> (yes: bool)
    ensures
        yes == is_alnum(c),
{
    ('0' <= c && c <= '9') || ('a' <= c && c <= 'z') || ('A' <= c && c <= 'Z')
}

/// The ASCII letters and digits of a text.
pub fn keep_alnum(s: &[char]) -> (out: String)
    ensures
        out@ == alnum_only(s@),
{
    let mut out: String = String::new();
    let mut i: usize = 0;
    assert(s@.take(0) =~= Seq::<char>::empty());
    while i < s.len()
        invariant
            i <= s@.len(),
            out@ == alnum_only(s@.take(i as int)),
        decreases s@.len() - i,
    {
        assert(s@.take(i + 1).drop_last() =~= s@.take(i as int));
        if alnum(s[i]) {
            out.push(s[i]);
        }
        i = i + 1;
    }
    assert(s@.take(i as int) =~= s@);
    out
}

/// The number that digits spell, where it is within 64 bits.
pub fn digits_to_u64(s: &[char]) -> (got: Option<u64>)
    ensures
        got is Some <==> s@.len() > 0 && all_digits(s@) && digits_value(s@) <= u64::MAX,
        got is Some ==> got->0 == digits_value(s@),
{
    if s.len() == 0 {
        return None;
    }
    let mut v: u64 = 0;
    let mut i: usize = 0;
    while i < s.len()
        invariant
            i <= s@.len(),
            all_digits(s@.take(i as int)),
            v == digits_value(s@.take(i as int)),
        decreases s@.len() - i,
    {
        let c: char = s[i];
        if !('0' <= c && c <= '9') {
            assert(!is_digit(s@[i as int]));
            return None;
        }
        let d: u64 = (c as u32 - 48) as u64;
        proof {
            lemma_digits_step(s@, i as int);
        }
        if v > (u64::MAX - d) / 10 {
            proof {
                lemma_prefix_value(s@, i + 1);
            }
            return None;
        }
        v = v * 10 + d;
        i = i + 1;
    }
    assert(s@.take(i as int) =~= s@);
    Some(v)
}

/// One more digit.
proof fn lemma_digits_step(s: Seq<char>, i: int)
    requires
        0 <= i < s.len(),
        all_digits(s.take(i)),
        is_digit(s[i]),
    ensures
        all_digits(s.take(i + 1)),
        digits_value(s.take(i + 1)) == digits_value(s.take(i)) * 10
            + digit_value(s[i]),
{
    assert(s.take(i + 1).drop_last() =~= s.take(i));
    assert forall|k: int| 0 <= k < i + 1 implies is_digit(
        #[trigger] s.take(i + 1)[k],
    ) by {
        if k < i {
            assert(s.take(i)[k] == s.take(i + 1)[k]);
        }
    }
}

/// Digits spell no less than those they start with.
proof fn lemma_prefix_value(s: Seq<char>, n: int)
    requires
        0 <= n <= s.len(),
    ensures
        digits_value(s) >= digits_value(s.take(n)),
    decreases s.len() - n,
{
    if n < s.len() {
        assert(s.take(n + 1).drop_last() =~= s.take(n));
        lemma_prefix_value(s, n + 1);
    } else {
        assert(s.take(n) =~= s);
    }
}

/// The number that a text spells: digits, with at most a plus sign before them.
pub open spec fn unsigned_value(s: Seq<char>) -> Option<nat> {
    let digits = if s.len() > 0 && s[0] == '+' {
        s.skip(1)
    } else {
        s
    };
    if digits.len() > 0 && all_digits(digits) {
        Some(digits_value(digits))
    } else {
        None
    }
}

/// The number that a text spells, where it is at most `max`.
pub open spec fn bounded_value(s: Seq<char>, max: nat) -> Option<nat> {
    match unsigned_value(s) {
        Some(v) => if v <= max {
            Some(v)
        } else {
            None
        },
        None => None,
    }
}

/// The number that a text spells, where it is within 64 bits.
pub fn parse_u64(s: &[char]) -> (got: Option<u64>)
    ensures
        got is Some <==> bounded_value(s@, u64::MAX as nat) is Some,
        got is Some ==> got->0 == bounded_value(s@, u64::MAX as nat)->0,
{
    if s.len() > 0 && s[0] == '+' {
        let rest: &[char] = vstd::slice::slice_subrange(s, 1, s.len());
        assert(rest@ =~= s@.skip(1));
        digits_to_u64(rest)
    } else {
        digits_to_u64(s)
    }
}

/// The number that a text spells, where it is within 32 bits.
pub fn parse_u32(s: &[char]) -> (got: Option<u32>)
    ensures
        got is Some <==> bounded_value(s@, u32::MAX as nat) is Some,
        got is Some ==> got->0 == bounded_value(s@, u32::MAX as nat)->0,
{
    match parse_u64(s) {
        Some(v) => if v <= u32::MAX as u64 {
            Some(v as u32)
        } else {
            None
        },
        None => None,
    }
}

/// A text cut in two at the first place that holds `c`, which goes.
pub open spec fn cut(s: Seq<char>, c: char) -> Option<(Seq<char>, Seq<char>)> {
    let at = index_of(s, c, 0);
    if at < s.len() {
        Some((s.take(at), s.skip(at + 1)))
    } else {
        None
    }
}

/// A text cut in two at the first place that holds `c`, which goes.
pub fn split_once<'a>(s: &'a [char], c: char) -> (got: Option<(&'a [char], &'a [char])>)
    ensures
        got is Some <==> cut(s@, c) is Some,
        got is Some ==> (got->0).0@ == (cut(s@, c)->0).0 && (got->0).1@ == (cut(s@, c)->0).1,
{
    let at: usize = find_char(s, c, 0);
    if at < s.len() {
        let front: &[char] = vstd::slice::slice_subrange(s, 0, at);
        let back: &[char] = vstd::slice::slice_subrange(s, at + 1, s.len());
        assert(front@ =~= s@.take(at as int));
        assert(back@ =~= s@.skip(at + 1));
        Some((front, back))
    } else {
        None
    }
}

/// A number written in decimal reads as that number.
pub proof fn lemma_decimal_reads_back(n: nat)
    ensures
        all_digits(decimal(n)),
        decimal(n).len() > 0,
        digits_value(decimal(n)) == n,
        unsigned_value(decimal(n)) == Some(n),
    decreases n,
{
    let d = decimal(n);
    if n < 10 {
        assert(d.drop_last() =~= Seq::<char>::empty());
        assert(digits_value(d.drop_last()) == 0);
        assert(d.last() == digit_char(n));
    } else {
        lemma_decimal_reads_back(n / 10);
        let front = decimal(n / 10);
        assert(d.drop_last() =~= front);
        assert(d.last() == digit_char(n % 10));
        assert forall|i: int| 0 <= i < d.len() implies is_digit(#[trigger] d[i]) by {
            if i < front.len() {
                assert(d[i] == front[i]);
            }
        }
    }
    assert(is_digit(d[0]));
}

/// A text without `c`, then `c` and another text, is cut there.
pub proof fn lemma_cut(front: Seq<char>, c: char, back: Seq<char>)
    requires
        forall|i: int| 0 <= i < front.len() ==> #[trigger] front[i] != c,
    ensures
        cut(front.push(c) + back, c) == Some((front, back)),
{
    let s = front.push(c) + back;
    assert forall|k: int| 0 <= k < front.len() implies #[trigger] s[k] != c by {
        assert(s[k] == front[k]);
    }
    lemma_index_is(s, c, 0, front.len() as int);
    assert(s.take(front.len() as int) =~= front);
    assert(s.skip((front.len() + 1) as int) =~= back);
}


/// Whether `s` starts with `prefix`.
pub open spec fn has_prefix(s: Seq<char>, prefix: Seq<char>) -> bool {
    prefix.len() <= s.len() && s.take(prefix.len() as int) == prefix
}

/// Whether `s` starts with `prefix`.
pub fn starts_with(s: &[char], prefix: &[char]) -> (yes: bool)
    ensures
        yes == has_prefix(s@, prefix@),
{
    if prefix.len() > s.len() {
        return false;
    }
    let yes = word_at(s, 0, prefix);
    assert(s@.subrange(0, prefix@.len() as int) =~= s@.take(prefix@.len() as int));
    yes
}

/// Whether `s` is a word, in any mix of its small and its capital letters.
pub open spec fn is_word_in_any_case(s: Seq<char>, small: Seq<char>, capital: Seq<char>) -> bool {
    &&& s.len() == small.len()
    &&& forall|i: int|
        0 <= i < s.len() ==> (#[trigger] s[i]) == small[i] || s[i] == capital[i]
}

/// Where the digits of a decimal number end: those before the point, the point
/// and those after it.
pub open spec fn decimals_end(s: Seq<char>) -> int {
    let w = digits_end(s, 0);
    if 0 <= w < s.len() && s[w] == '.' {
        digits_end(s, w + 1)
    } else {
        w
    }
}

/// Whether what stands from `p` on is the exponent of a number: a marker, a sign
/// or none, and digits to the end.
pub open spec fn is_exponent(s: Seq<char>, p: int) -> bool {
    let start = if p + 1 < s.len() && is_sign(s[p + 1]) {
        p + 2
    } else {
        p + 1
    };
    &&& 0 <= p < s.len()
    &&& s[p] == 'e' || s[p] == 'E'
    &&& start < s.len()
    &&& digits_end(s, start) == s.len()
}

/// Whether `s` is a number without a sign: digits with at most one point among
/// them, at least one digit, and an exponent or none.
pub open spec fn is_decimal_number(s: Seq<char>) -> bool {
    let end = decimals_end(s);
    &&& exists|i: int| 0 <= i < end && is_digit(#[trigger] s[i])
    &&& end == s.len() || is_exponent(s, end)
}

/// Whether `c` is a sign.
pub open spec fn is_sign(c: char) -> bool {
    c == '+' || c == '-'
}

/// A text without the sign it may start with.
pub open spec fn unsigned(s: Seq<char>) -> Seq<char> {
    if s.len() > 0 && is_sign(s[0]) {
        s.skip(1)
    } else {
        s
    }
}

/// Whether `s` spells a floating-point number: a sign or none, and a decimal
/// number or a word for infinity or for no number.
pub open spec fn is_float(s: Seq<char>) -> bool {
    let bare = unsigned(s);
    ||| is_decimal_number(bare)
    ||| is_word_in_any_case(bare, "inf"@, "INF"@)
    ||| is_word_in_any_case(bare, "infinity"@, "INFINITY"@)
    ||| is_word_in_any_case(bare, "nan"@, "NAN"@)
}

/// Whether `s` is a word, in any mix of its small and its capital letters.
fn word_in_any_case(s: &[char], small: &str, capital: &str) -> (yes: bool)
    requires
        small@.len() == capital@.len(),
    ensures
        yes == is_word_in_any_case(s@, small@, capital@),
{
    let low: Vec<char> = chars_of(small);
    let high: Vec<char> = chars_of(capital);
    if s.len() != low.len() {
        return false;
    }
    let mut i: usize = 0;
    while i < s.len()
        invariant
            i <= s@.len(),
            s@.len() == low@.len() == high@.len(),
            low@ == small@,
            high@ == capital@,
            forall|k: int| 0 <= k < i ==> (#[trigger] s@[k]) == small@[k] || s@[k] == capital@[k],
        decreases s@.len() - i,
    {
        if s[i] != low[i] && s[i] != high[i] {
            return false;
        }
        i = i + 1;
    }
    true
}

/// Whether `c` is a sign.
fn sign(c: char) -> (yes: bool)
    ensures
        yes == is_sign(c),
{
    c == '+' || c == '-'
}

/// Whether `s` is a number without a sign.
fn decimal_number(s: &[char]) -> (yes: bool)
    ensures
        yes == is_decimal_number(s@),
{
    let w: usize = skip_digits(s, 0);
    let end: usize = if w < s.len() && s[w] == '.' {
        skip_digits(s, w + 1)
    } else {
        w
    };
    proof {
        lemma_digits_end(s@, 0);
        if w < s@.len() && s@[w as int] == '.' {
            lemma_digits_end(s@, w + 1);
            if end > w + 1 {
                assert(is_digit(s@.subrange(w + 1, end as int)[0]));
                assert(is_digit(s@[w + 1]));
            }
        }
        if w > 0 {
            assert(is_digit(s@.subrange(0, w as int)[0]));
            assert(is_digit(s@[0]));
        }
    }
    // Without a digit before the point and one after it, there is none.
    if w == 0 && end <= 1 {
        return false;
    }
    if end == s.len() {
        return true;
    }
    if s[end] != 'e' && s[end] != 'E' {
        return false;
    }
    let start: usize = if end + 1 < s.len() && sign(s[end + 1]) {
        end + 2
    } else {
        end + 1
    };
    start < s.len() && skip_digits(s, start) == s.len()
}

/// Whether `s` spells a floating-point number.
pub fn spells_float(s: &str) -> (yes: bool)
    ensures
        yes == is_float(s@),
{
    let chars: Vec<char> = chars_of(s);
    let all: &[char] = chars.as_slice();
    let bare: &[char] = if all.len() > 0 && sign(all[0]) {
        vstd::slice::slice_subrange(all, 1, all.len())
    } else {
        all
    };
    assert(bare@ =~= unsigned(s@));
    proof {
        reveal_strlit("inf");
        reveal_strlit("INF");
        reveal_strlit("infinity");
        reveal_strlit("INFINITY");
        reveal_strlit("nan");
        reveal_strlit("NAN");
    }
    decimal_number(bare) || word_in_any_case(bare, "inf", "INF") || word_in_any_case(
        bare,
        "infinity",
        "INFINITY",
    ) || word_in_any_case(bare, "nan", "NAN")
}

/// A spelled number is not empty, and holds no white space.
pub proof fn lemma_float_is_a_word(s: Seq<char>)
    requires
        is_float(s),
    ensures
        s.len() > 0,
        forall|i: int| 0 <= i < s.len() ==> !is_white(#[trigger] s[i]),
{
    reveal_strlit("inf");
    reveal_strlit("INF");
    reveal_strlit("infinity");
    reveal_strlit("INFINITY");
    reveal_strlit("nan");
    reveal_strlit("NAN");
    let bare = unsigned(s);
    if is_decimal_number(bare) {
        lemma_decimal_is_a_word(bare);
    }
    assert forall|i: int| 0 <= i < s.len() implies !is_white(#[trigger] s[i]) by {
        if s.len() > 0 && is_sign(s[0]) {
            if i > 0 {
                assert(bare[i - 1] == s[i]);
                assert(!is_white(bare[i - 1]));
            }
        } else {
            assert(!is_white(bare[i]));
        }
    }
}

/// The same of a number without a sign.
proof fn lemma_decimal_is_a_word(s: Seq<char>)
    requires
        is_decimal_number(s),
    ensures
        s.len() > 0,
        forall|i: int| 0 <= i < s.len() ==> !is_white(#[trigger] s[i]),
{
    let w = digits_end(s, 0);
    let end = decimals_end(s);
    lemma_digits_end(s, 0);
    if w < s.len() && s[w] == '.' {
        lemma_digits_end(s, w + 1);
    }
    let start = if end + 1 < s.len() && is_sign(s[end + 1]) {
        end + 2
    } else {
        end + 1
    };
    if end < s.len() {
        lemma_digits_end(s, start);
    }
    assert forall|i: int| 0 <= i < s.len() implies !is_white(#[trigger] s[i]) by {
        if i < w {
            assert(is_digit(s.subrange(0, w)[i]));
        } else if w < i && i < end {
            assert(is_digit(s.subrange(w + 1, end)[i - w - 1]));
        } else if i >= start {
            assert(is_digit(s.subrange(start, s.len() as int)[i - start]));
        }
    }
}

/// A last part behind a separator is one part more.
pub proof fn lemma_parts_push(s: Seq<char>, sep: char, last: Seq<char>, p: int)
    requires
        0 <= p <= s.len(),
        forall|i: int| 0 <= i < last.len() ==> #[trigger] last[i] != sep,
    ensures
        parts_from(s + seq![sep] + last, sep, p) == parts_from(s, sep, p).push(last),
    decreases s.len() - p,
{
    let all = s + seq![sep] + last;
    let n = s.len() as int;
    let q = index_of(s, sep, p);
    lemma_index_of(s, sep, p);
    assert forall|k: int| p <= k < q implies #[trigger] all[k] != sep by {
        assert(all[k] == s[k]);
    }
    if q < n {
        assert(all[q] == sep);
        lemma_index_is(all, sep, p, q);
        assert(all.subrange(p, q) =~= s.subrange(p, q));
        lemma_parts_push(s, sep, last, q + 1);
        assert(parts_from(all, sep, p) =~= parts_from(s, sep, p).push(last));
    } else {
        assert(all[n] == sep);
        lemma_index_is(all, sep, p, n);
        assert(all.subrange(p, n) =~= s.subrange(p, n));
        let end = all.len() as int;
        assert forall|k: int| n + 1 <= k < end implies #[trigger] all[k] != sep by {
            assert(all[k] == last[k - n - 1]);
        }
        lemma_index_is(all, sep, n + 1, end);
        assert(all.subrange(n + 1, end) =~= last);
        assert(parts_from(all, sep, n + 1) == seq![last]);
        assert(parts_from(s, sep, p) == seq![s.subrange(p, n)]);
        assert(parts_from(all, sep, p) == seq![all.subrange(p, n)] + parts_from(all, sep, n + 1));
        assert(parts_from(all, sep, p) =~= parts_from(s, sep, p).push(last));
    }
}

/// Texts that hold no separator are the parts of what they are joined to.
pub proof fn lemma_joined_parts(parts: Seq<Seq<char>>, sep: char)
    requires
        parts.len() > 0,
        forall|i: int, k: int|
            0 <= i < parts.len() && 0 <= k < parts[i].len() ==> #[trigger] parts[i][k] != sep,
    ensures
        parts_of(joined(parts, seq![sep]), sep) == parts,
    decreases parts.len(),
{
    let last = parts.last();
    assert forall|k: int| 0 <= k < last.len() implies #[trigger] last[k] != sep by {
        assert(parts[parts.len() - 1][k] != sep);
    }
    if parts.len() == 1 {
        lemma_index_is(last, sep, 0, last.len() as int);
        assert(last.subrange(0, last.len() as int) =~= last);
        assert(parts_of(joined(parts, seq![sep]), sep) =~= parts);
    } else {
        let front = parts.drop_last();
        assert forall|i: int, k: int|
            0 <= i < front.len() && 0 <= k < front[i].len() implies #[trigger] front[i][k]
            != sep by {
            assert(parts[i][k] != sep);
        }
        lemma_joined_parts(front, sep);
        lemma_parts_push(joined(front, seq![sep]), sep, last, 0);
        assert(front.push(last) =~= parts);
    }
}

} // verus!
