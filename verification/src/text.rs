//! Text as a sequence of characters.
//!
//! Contracts speak of a string as the sequence of its characters. This module
//! holds what the rest of the library needs to build, take apart and compare
//! such sequences.

use vstd::prelude::*;

verus! {

/// `String::push` adds the character at the end.
pub assume_specification[ String::push ](s: &mut String, c: char)
    ensures
        final(s)@ == old(s)@.push(c),
;

/// Whether `code` is a Unicode scalar value.
pub open spec fn is_scalar(code: nat) -> bool {
    code < 0xd800 || 0xe000 <= code <= 0x10ffff
}

/// `char::from_u32` gives the character of a Unicode scalar value, and nothing
/// for any other number.
pub assume_specification[ char::from_u32 ](i: u32) -> (c: Option<char>)
    ensures
        c is Some <==> is_scalar(i as nat),
        c is Some ==> c->0 == i as char,
;

/// What `{:?}` prints for a character.
pub uninterp spec fn debug_char_text(c: char) -> Seq<char>;

/// `format!("{:?}")` of a character: the quoted, escaped spelling that the
/// standard library gives it. Which characters it escapes is left unsaid.
#[verifier::external_body]
pub(crate) fn debug_char(c: char) -> (out: String)
    ensures
        out@ == debug_char_text(c),
{
    format!("{c:?}")
}

/// What `{:?}` prints for a text.
pub uninterp spec fn debug_str_text(s: Seq<char>) -> Seq<char>;

/// `format!("{:?}")` of a string: the quoted, escaped spelling that the
/// standard library gives it. Which characters it escapes is left unsaid.
#[verifier::external_body]
pub(crate) fn debug_str(s: &str) -> (out: String)
    ensures
        out@ == debug_str_text(s@),
{
    format!("{s:?}")
}

/// The characters of `s`, in order.
pub fn chars_of(s: &str) -> (out: Vec<char>)
    ensures
        out@ == s@,
{
    let mut out: Vec<char> = Vec::new();
    for c in it: s.chars()
        invariant
            out@ == it.seq().take(it.index() as int),
            it.seq() == s@,
    {
        out.push(c);
    }
    out
}

/// The characters `from..to` of `chars`, as a string.
pub fn text_between(chars: &[char], from: usize, to: usize) -> (out: String)
    requires
        from <= to <= chars@.len(),
    ensures
        out@ == chars@.subrange(from as int, to as int),
{
    let mut out: String = String::new();
    let mut i: usize = from;
    while i < to
        invariant
            from <= i <= to <= chars@.len(),
            out@ == chars@.subrange(from as int, i as int),
        decreases to - i,
    {
        out.push(chars[i]);
        i = i + 1;
    }
    out
}

/// `chars` as a string.
pub fn text_of(chars: &[char]) -> (out: String)
    ensures
        out@ == chars@,
{
    text_between(chars, 0, chars.len())
}

/// Whether two texts hold the same characters.
pub fn same_text(a: &str, b: &str) -> (same: bool)
    ensures
        same == (a@ == b@),
{
    a.to_owned() == b.to_owned()
}

/// Two texts, one after the other.
pub fn concat2(a: &str, b: &str) -> (out: String)
    ensures
        out@ == a@ + b@,
{
    let mut out: String = a.to_owned();
    out.append(b);
    out
}

/// Three texts, one after the other.
pub fn concat3(a: &str, b: &str, c: &str) -> (out: String)
    ensures
        out@ == a@ + b@ + c@,
{
    let mut out: String = a.to_owned();
    out.append(b);
    out.append(c);
    out
}

/// The character of a decimal digit.
pub open spec fn digit_char(d: nat) -> char {
    (('0' as u32 + d) as u32) as char
}

/// `n` written in decimal, without leading zeros.
pub open spec fn decimal(n: nat) -> Seq<char>
    decreases n,
{
    if n < 10 {
        seq![digit_char(n)]
    } else {
        decimal(n / 10).push(digit_char(n % 10))
    }
}

/// `n` written in decimal, without leading zeros.
pub fn decimal_text(n: u128) -> (out: String)
    ensures
        out@ == decimal(n as nat),
    decreases n,
{
    let d: u32 = (n % 10) as u32;
    let c: char = digit_of(d);
    if n < 10 {
        let mut out: String = String::new();
        out.push(c);
        assert(out@ =~= decimal(n as nat));
        out
    } else {
        let mut out: String = decimal_text(n / 10);
        out.push(c);
        out
    }
}

/// The character of a decimal digit.
pub fn digit_of(d: u32) -> (c: char)
    requires
        d < 10,
    ensures
        c == digit_char(d as nat),
{
    let b: u8 = (48 + d) as u8;
    b as char
}

/// Whether `c` is one of `0` to `9`.
pub open spec fn is_digit(c: char) -> bool {
    '0' <= c <= '9'
}

/// The value of a decimal digit.
pub open spec fn digit_value(c: char) -> nat {
    (c as u32 - '0' as u32) as nat
}

/// The number that a run of decimal digits spells.
pub open spec fn digits_value(s: Seq<char>) -> nat
    decreases s.len(),
{
    if s.len() == 0 {
        0
    } else {
        digits_value(s.drop_last()) * 10 + digit_value(s.last())
    }
}

/// Whether every character of `s` is a decimal digit.
pub open spec fn all_digits(s: Seq<char>) -> bool {
    forall|i: int| 0 <= i < s.len() ==> is_digit(#[trigger] s[i])
}

/// The end of the run of decimal digits that starts at `p`.
pub open spec fn digits_end(s: Seq<char>, p: int) -> int
    decreases s.len() - p,
{
    if 0 <= p < s.len() && is_digit(s[p]) {
        digits_end(s, p + 1)
    } else {
        p
    }
}

/// The run of digits stays within the text and holds digits only.
pub proof fn lemma_digits_end(s: Seq<char>, p: int)
    requires
        0 <= p <= s.len(),
    ensures
        p <= digits_end(s, p) <= s.len(),
        all_digits(s.subrange(p, digits_end(s, p))),
        digits_end(s, p) < s.len() ==> !is_digit(s[digits_end(s, p)]),
    decreases s.len() - p,
{
    if p < s.len() && is_digit(s[p]) {
        lemma_digits_end(s, p + 1);
        let e = digits_end(s, p + 1);
        assert forall|i: int| 0 <= i < e - p implies is_digit(#[trigger] s.subrange(p, e)[i]) by {
            if i > 0 {
                assert(s.subrange(p, e)[i] == s.subrange(p + 1, e)[i - 1]);
            }
        }
    }
}

/// The end of the run of decimal digits that starts at `p`.
pub fn skip_digits(s: &[char], p: usize) -> (q: usize)
    requires
        p <= s@.len(),
    ensures
        q == digits_end(s@, p as int),
        p <= q <= s@.len(),
{
    let mut q: usize = p;
    while q < s.len() && '0' <= s[q] && s[q] <= '9'
        invariant
            p <= q <= s@.len(),
            digits_end(s@, p as int) == digits_end(s@, q as int),
        decreases s@.len() - q,
    {
        q = q + 1;
    }
    q
}

/// How many bytes UTF-8 takes for `c`.
pub open spec fn utf8_len(c: char) -> nat {
    if c as u32 <= 0x7f {
        1
    } else if c as u32 <= 0x7ff {
        2
    } else if c as u32 <= 0xffff {
        3
    } else {
        4
    }
}

/// The first byte of the UTF-8 encoding of `c`.
pub open spec fn lead_byte(c: char) -> nat {
    if c as u32 <= 0x7f {
        c as nat
    } else if c as u32 <= 0x7ff {
        0xc0 + c as nat / 0x40
    } else if c as u32 <= 0xffff {
        0xe0 + c as nat / 0x1000
    } else {
        0xf0 + c as nat / 0x40000
    }
}

/// How many bytes of UTF-8 come before the character at `p`.
pub open spec fn byte_offset(s: Seq<char>, p: int) -> nat
    decreases p,
{
    if p <= 0 {
        0
    } else {
        byte_offset(s, p - 1) + utf8_len(s[p - 1])
    }
}

/// How many bytes UTF-8 takes for `c`.
pub fn utf8_len_of(c: char) -> (n: u128)
    ensures
        n == utf8_len(c),
{
    let code: u32 = c as u32;
    if code <= 0x7f {
        1
    } else if code <= 0x7ff {
        2
    } else if code <= 0xffff {
        3
    } else {
        4
    }
}

/// How many bytes of UTF-8 come before the character at `p`.
pub fn byte_offset_of(s: &[char], p: usize) -> (n: u128)
    requires
        p <= s@.len(),
    ensures
        n == byte_offset(s@, p as int),
        n <= 4 * p,
{
    let mut n: u128 = 0;
    let mut i: usize = 0;
    while i < p
        invariant
            i <= p <= s@.len(),
            n == byte_offset(s@, i as int),
            n <= 4 * i,
        decreases p - i,
    {
        n = n + utf8_len_of(s[i]);
        i = i + 1;
    }
    n
}

/// The first byte of the UTF-8 encoding of `c`.
pub fn lead_byte_of(c: char) -> (b: u8)
    ensures
        b == lead_byte(c),
{
    let code: u32 = c as u32;
    if code <= 0x7f {
        code as u8
    } else if code <= 0x7ff {
        (0xc0 + code / 0x40) as u8
    } else if code <= 0xffff {
        (0xe0 + code / 0x1000) as u8
    } else {
        (0xf0 + code / 0x40000) as u8
    }
}

/// Whether `a` comes before `b` in code point order.
pub open spec fn text_less(a: Seq<char>, b: Seq<char>) -> bool
    decreases a.len(),
{
    if b.len() == 0 {
        false
    } else if a.len() == 0 {
        true
    } else if a[0] != b[0] {
        a[0] < b[0]
    } else {
        text_less(a.skip(1), b.skip(1))
    }
}

/// Whether `a` comes before `b` in code point order.
pub fn is_less(a: &[char], b: &[char]) -> (less: bool)
    ensures
        less == text_less(a@, b@),
{
    let mut i: usize = 0;
    assert(a@.skip(0) =~= a@);
    assert(b@.skip(0) =~= b@);
    while i < a.len() && i < b.len()
        invariant
            i <= a@.len(),
            i <= b@.len(),
            text_less(a@, b@) == text_less(a@.skip(i as int), b@.skip(i as int)),
        decreases a@.len() - i,
    {
        if a[i] != b[i] {
            return a[i] < b[i];
        }
        assert(a@.skip(i as int).skip(1) =~= a@.skip(i + 1));
        assert(b@.skip(i as int).skip(1) =~= b@.skip(i + 1));
        i = i + 1;
    }
    i < b.len()
}

/// No text comes before itself.
pub proof fn lemma_less_irreflexive(a: Seq<char>)
    ensures
        !text_less(a, a),
    decreases a.len(),
{
    if a.len() > 0 {
        lemma_less_irreflexive(a.skip(1));
    }
}

/// Of two different texts one comes before the other.
pub proof fn lemma_less_total(a: Seq<char>, b: Seq<char>)
    ensures
        text_less(a, b) || text_less(b, a) || a == b,
    decreases a.len(),
{
    if a.len() > 0 && b.len() > 0 {
        if a[0] == b[0] {
            lemma_less_total(a.skip(1), b.skip(1));
            if a.skip(1) == b.skip(1) {
                assert(a =~= seq![a[0]] + a.skip(1));
                assert(b =~= seq![b[0]] + b.skip(1));
            }
        }
    } else if a.len() == 0 && b.len() == 0 {
        assert(a =~= b);
    }
}

/// The order of texts is transitive.
pub proof fn lemma_less_transitive(a: Seq<char>, b: Seq<char>, c: Seq<char>)
    requires
        text_less(a, b),
        text_less(b, c),
    ensures
        text_less(a, c),
    decreases a.len(),
{
    if a.len() > 0 && b.len() > 0 && c.len() > 0 && a[0] == b[0] && b[0] == c[0] {
        lemma_less_transitive(a.skip(1), b.skip(1), c.skip(1));
    }
}

/// `order` with the index `i` put behind every index whose key does not come
/// after `keys[i]`.
pub open spec fn place(keys: Seq<Seq<char>>, order: Seq<int>, i: int) -> Seq<int>
    decreases order.len(),
{
    if order.len() == 0 || !text_less(keys[i], keys[order.last()]) {
        order.push(i)
    } else {
        place(keys, order.drop_last(), i).push(order.last())
    }
}

/// The indices of `keys` in ascending order of their keys; equal keys keep the
/// order they came in.
pub open spec fn key_order(keys: Seq<Seq<char>>) -> Seq<int>
    decreases keys.len(),
{
    if keys.len() == 0 {
        Seq::empty()
    } else {
        place(keys, key_order(keys.drop_last()), keys.len() - 1)
    }
}

/// The indices of `order`, as numbers.
pub open spec fn as_ints(order: Seq<usize>) -> Seq<int> {
    Seq::new(order.len(), |k: int| order[k] as int)
}

/// The keys, as character sequences.
pub open spec fn texts(keys: Seq<Vec<char>>) -> Seq<Seq<char>> {
    Seq::new(keys.len(), |k: int| keys[k]@)
}

/// Where `place` puts the index, where the position is known.
proof fn lemma_place(keys: Seq<Seq<char>>, order: Seq<int>, i: int, at: int)
    requires
        0 <= at <= order.len(),
        forall|k: int| at <= k < order.len() ==> text_less(keys[i], keys[#[trigger] order[k]]),
        at > 0 ==> !text_less(keys[i], keys[order[at - 1]]),
    ensures
        place(keys, order, i) == order.take(at).push(i) + order.skip(at),
    decreases order.len() - at,
{
    if at < order.len() {
        lemma_place(keys, order.drop_last(), i, at);
        assert(order.drop_last().take(at) =~= order.take(at));
        assert(place(keys, order, i) =~= order.take(at).push(i) + order.skip(at));
    } else {
        assert(place(keys, order, i) =~= order.take(at).push(i) + order.skip(at));
    }
}

/// Placing an index reads only the keys that the order names, and `keys[i]`.
proof fn lemma_place_prefix(keys: Seq<Seq<char>>, n: int, order: Seq<int>, i: int)
    requires
        0 <= i < n <= keys.len(),
        forall|k: int| 0 <= k < order.len() ==> 0 <= #[trigger] order[k] < n,
    ensures
        place(keys.take(n), order, i) == place(keys, order, i),
    decreases order.len(),
{
    if order.len() > 0 {
        assert(0 <= order[order.len() - 1] < n);
        assert forall|k: int| 0 <= k < order.drop_last().len() implies 0
            <= #[trigger] order.drop_last()[k] < n by {
            assert(order.drop_last()[k] == order[k]);
        }
        lemma_place_prefix(keys, n, order.drop_last(), i);
    }
}

/// The indices of `keys` in ascending order of their keys; equal keys keep the
/// order they came in.
pub fn sorted_indices(keys: &Vec<Vec<char>>) -> (order: Vec<usize>)
    ensures
        as_ints(order@) == key_order(texts(keys@)),
        order@.len() == keys@.len(),
        forall|k: int| 0 <= k < order@.len() ==> (#[trigger] order@[k]) < keys@.len(),
{
    let mut order: Vec<usize> = Vec::new();
    let mut i: usize = 0;
    let ghost all = texts(keys@);
    assert(all.take(0) =~= Seq::<Seq<char>>::empty());
    assert(as_ints(order@) =~= key_order(all.take(0)));
    while i < keys.len()
        invariant
            i <= keys@.len(),
            all == texts(keys@),
            as_ints(order@) == key_order(all.take(i as int)),
            order@.len() == i,
            forall|k: int| 0 <= k < order@.len() ==> (#[trigger] order@[k]) < i,
        decreases keys@.len() - i,
    {
        let mut at: usize = order.len();
        while at > 0 && is_less(keys[i].as_slice(), keys[order[at - 1]].as_slice())
            invariant
                i < keys@.len(),
                all == texts(keys@),
                at <= order@.len(),
                forall|k: int| 0 <= k < order@.len() ==> (#[trigger] order@[k]) < i,
                forall|k: int|
                    at <= k < order@.len() ==> text_less(all[i as int], all[#[trigger] as_ints(
                        order@,
                    )[k]]),
            decreases at,
        {
            at = at - 1;
        }
        let ghost before = as_ints(order@);
        let ghost was = order@;
        order.insert(at, i);
        proof {
            lemma_place(all, before, i as int, at as int);
            lemma_place_prefix(all, i + 1, before, i as int);
            assert(all.take(i + 1).drop_last() =~= all.take(i as int));
            assert(as_ints(order@) =~= before.take(at as int).push(i as int) + before.skip(
                at as int,
            ));
            assert forall|k: int| 0 <= k < order@.len() implies (#[trigger] order@[k]) < i + 1 by {
                if k < at {
                    assert(order@[k] == was[k]);
                } else if k > at {
                    assert(order@[k] == was[k - 1]);
                }
            }
        }
        i = i + 1;
    }
    assert(all.take(i as int) =~= all);
    order
}

/// `n` zeros.
pub open spec fn zeros(n: nat) -> Seq<char> {
    Seq::new(n, |i: int| '0')
}

/// `s` without the zeros it starts with.
pub open spec fn trim_front_zeros(s: Seq<char>) -> Seq<char>
    decreases s.len(),
{
    if s.len() > 0 && s[0] == '0' {
        trim_front_zeros(s.skip(1))
    } else {
        s
    }
}

/// `s` without the zeros it ends with.
pub open spec fn trim_back_zeros(s: Seq<char>) -> Seq<char>
    decreases s.len(),
{
    if s.len() > 0 && s.last() == '0' {
        trim_back_zeros(s.drop_last())
    } else {
        s
    }
}


/// The texts of a list of strings.
pub open spec fn strings(v: Seq<String>) -> Seq<Seq<char>> {
    Seq::new(v.len(), |i: int| v[i]@)
}

/// The texts of a list of string slices.
pub open spec fn slices(v: Seq<&'static str>) -> Seq<Seq<char>> {
    Seq::new(v.len(), |i: int| v[i]@)
}


/// Whether `order` names its keys in ascending order.
pub open spec fn ascends(keys: Seq<Seq<char>>, order: Seq<int>) -> bool {
    forall|a: int, b: int|
        0 <= a < b < order.len() ==> !text_less(keys[#[trigger] order[b]], keys[#[trigger] order[a]])
}

/// Not coming before is transitive.
pub proof fn lemma_not_less_transitive(a: Seq<char>, b: Seq<char>, c: Seq<char>)
    requires
        !text_less(a, b),
        !text_less(b, c),
    ensures
        !text_less(a, c),
{
    lemma_less_total(a, b);
    lemma_less_total(b, c);
    if text_less(a, c) {
        if text_less(b, a) {
            lemma_less_transitive(b, a, c);
        }
    }
}

/// Placing an index keeps the order ascending, and adds that index alone.
proof fn lemma_place_ascends(keys: Seq<Seq<char>>, order: Seq<int>, i: int)
    requires
        ascends(keys, order),
    ensures
        ascends(keys, place(keys, order, i)),
        place(keys, order, i).len() == order.len() + 1,
        forall|x: int|
            #![trigger place(keys, order, i).contains(x)]
            #![trigger order.contains(x)]
            place(keys, order, i).contains(x) <==> order.contains(x) || x == i,
        !order.contains(i) && order.no_duplicates() ==> place(keys, order, i).no_duplicates(),
    decreases order.len(),
{
    let out = place(keys, order, i);
    if order.len() == 0 || !text_less(keys[i], keys[order.last()]) {
        assert forall|a: int, b: int| 0 <= a < b < out.len() implies !text_less(
            keys[#[trigger] out[b]],
            keys[#[trigger] out[a]],
        ) by {
            if b == order.len() && a < order.len() - 1 {
                let l = order.len() - 1;
                assert(!text_less(keys[order[l]], keys[order[a]]));
                lemma_not_less_transitive(keys[i], keys[order[l]], keys[order[a]]);
            }
        }
        assert forall|x: int|
            #![trigger out.contains(x)]
            #![trigger order.contains(x)]
            out.contains(x) <==> order.contains(x) || x == i by {
            if order.contains(x) {
                let k = choose|k: int| 0 <= k < order.len() && order[k] == x;
                assert(out[k] == x);
            }
            assert(out[order.len() as int] == i);
        }
        if !order.contains(i) && order.no_duplicates() {
            assert forall|a: int, b: int|
                0 <= a < out.len() && 0 <= b < out.len() && a != b implies out[a] != out[b] by {
                if a < order.len() {
                    assert(order.contains(order[a]));
                }
                if b < order.len() {
                    assert(order.contains(order[b]));
                }
            }
        }
    } else {
        let front = order.drop_last();
        let last = order.last();
        let inner = place(keys, front, i);
        assert forall|a: int, b: int| 0 <= a < b < front.len() implies !text_less(
            keys[#[trigger] front[b]],
            keys[#[trigger] front[a]],
        ) by {
            assert(front[a] == order[a] && front[b] == order[b]);
        }
        lemma_place_ascends(keys, front, i);
        assert forall|a: int, b: int| 0 <= a < b < out.len() implies !text_less(
            keys[#[trigger] out[b]],
            keys[#[trigger] out[a]],
        ) by {
            if b < inner.len() {
                assert(out[a] == inner[a] && out[b] == inner[b]);
            } else {
                assert(out[a] == inner[a]);
                assert(inner.contains(inner[a]));
                if inner[a] == i {
                    lemma_less_asymmetric(keys[i], keys[last]);
                } else {
                    let k = choose|k: int| 0 <= k < front.len() && front[k] == inner[a];
                    assert(order[k] == inner[a]);
                    assert(!text_less(keys[order[order.len() - 1]], keys[order[k]]));
                }
            }
        }
        assert forall|x: int|
            #![trigger out.contains(x)]
            #![trigger order.contains(x)]
            out.contains(x) <==> order.contains(x) || x == i by {
            if out.contains(x) {
                let k = choose|k: int| 0 <= k < out.len() && out[k] == x;
                if k < inner.len() {
                    assert(inner[k] == x);
                    assert(inner.contains(x));
                    if x != i {
                        let j = choose|j: int| 0 <= j < front.len() && front[j] == x;
                        assert(order[j] == x);
                    }
                } else {
                    assert(order[order.len() - 1] == x);
                }
            }
            if order.contains(x) || x == i {
                if x == last {
                    assert(out[out.len() - 1] == x);
                } else {
                    if order.contains(x) {
                        let j = choose|j: int| 0 <= j < order.len() && order[j] == x;
                        assert(front[j] == x);
                    }
                    assert(inner.contains(x));
                    let k = choose|k: int| 0 <= k < inner.len() && inner[k] == x;
                    assert(out[k] == x);
                }
            }
        }
        if !order.contains(i) && order.no_duplicates() {
            assert(!front.contains(i)) by {
                if front.contains(i) {
                    let j = choose|j: int| 0 <= j < front.len() && front[j] == i;
                    assert(order[j] == i);
                }
            }
            assert forall|a: int, b: int|
                0 <= a < front.len() && 0 <= b < front.len() && a != b implies front[a]
                != front[b] by {
                assert(order[a] != order[b]);
            }
            assert(order[order.len() - 1] == last);
            assert(order.contains(last));
            assert forall|a: int, b: int|
                0 <= a < out.len() && 0 <= b < out.len() && a != b implies out[a] != out[b] by {
                if a < inner.len() && b < inner.len() {
                    assert(inner[a] != inner[b]);
                } else {
                    let c = if a < inner.len() {
                        a
                    } else {
                        b
                    };
                    assert(inner.contains(inner[c]));
                    if inner[c] == last {
                        assert(front.contains(last));
                        let j = choose|j: int| 0 <= j < front.len() && front[j] == last;
                        assert(order[j] == last);
                    }
                }
            }
        }
    }
}

/// Of two texts at most one comes before the other.
pub proof fn lemma_less_asymmetric(a: Seq<char>, b: Seq<char>)
    ensures
        !(text_less(a, b) && text_less(b, a)),
{
    if text_less(a, b) && text_less(b, a) {
        lemma_less_transitive(a, b, a);
        lemma_less_irreflexive(a);
    }
}

/// Placing reads only the keys that are named.
proof fn lemma_place_same(a: Seq<Seq<char>>, b: Seq<Seq<char>>, order: Seq<int>)
    requires
        forall|k: int| 0 <= k < order.len() ==> a[#[trigger] order[k]] == b[order[k]],
        ascends(a, order),
    ensures
        ascends(b, order),
{
}

/// The key order names every index once, and its keys ascend.
pub proof fn law_key_order_sorts(keys: Seq<Seq<char>>)
    ensures
        ascends(keys, key_order(keys)),
        key_order(keys).len() == keys.len(),
        key_order(keys).no_duplicates(),
        forall|x: int| #[trigger] key_order(keys).contains(x) <==> 0 <= x < keys.len(),
    decreases keys.len(),
{
    if keys.len() > 0 {
        let front = keys.drop_last();
        law_key_order_sorts(front);
        let order = key_order(front);
        assert forall|k: int| 0 <= k < order.len() implies front[#[trigger] order[k]]
            == keys[order[k]] by {
            assert(order.contains(order[k]));
        }
        lemma_place_same(front, keys, order);
        lemma_place_ascends(keys, order, keys.len() - 1);
        assert forall|x: int| #[trigger] key_order(keys).contains(x) <==> 0 <= x < keys.len() by {
            assert(order.contains(x) <==> 0 <= x < front.len());
        }
    }
}


/// The character of a hexadecimal digit, in lower case.
pub open spec fn hex_char(d: nat) -> char {
    if d < 10 {
        (('0' as u32 + d) as u32) as char
    } else {
        (('a' as u32 + d - 10) as u32) as char
    }
}

/// The character of a hexadecimal digit, in lower case.
pub fn hex_digit_of(d: u32) -> (c: char)
    requires
        d < 16,
    ensures
        c == hex_char(d as nat),
{
    if d < 10 {
        (48 + d) as u8 as char
    } else {
        (97 + d - 10) as u8 as char
    }
}

/// `n` written in hexadecimal, without leading zeros.
pub open spec fn hexadecimal(n: nat) -> Seq<char>
    decreases n,
{
    if n < 16 {
        seq![hex_char(n)]
    } else {
        hexadecimal(n / 16).push(hex_char(n % 16))
    }
}

/// `n` written in hexadecimal, without leading zeros.
pub fn hex_text(n: u64) -> (out: String)
    ensures
        out@ == hexadecimal(n as nat),
    decreases n,
{
    let c: char = hex_digit_of((n % 16) as u32);
    if n < 16 {
        let mut out: String = String::new();
        out.push(c);
        assert(out@ =~= hexadecimal(n as nat));
        out
    } else {
        let mut out: String = hex_text(n / 16);
        out.push(c);
        out
    }
}

/// Texts in ascending order.
pub open spec fn sorted_texts(keys: Seq<Seq<char>>) -> Seq<Seq<char>> {
    keys_at(keys, key_order(keys))
}

/// The keys that an order names.
pub open spec fn keys_at(keys: Seq<Seq<char>>, order: Seq<int>) -> Seq<Seq<char>> {
    Seq::new(order.len(), |k: int| keys[order[k]])
}

/// Placing an index adds its key and no other.
proof fn lemma_place_adds(keys: Seq<Seq<char>>, order: Seq<int>, i: int)
    ensures
        keys_at(keys, place(keys, order, i)).to_multiset() == keys_at(
            keys,
            order,
        ).to_multiset().insert(keys[i]),
    decreases order.len(),
{
    broadcast use vstd::seq_lib::group_to_multiset_ensures;

    let was = keys_at(keys, order);
    if order.len() == 0 || !text_less(keys[i], keys[order.last()]) {
        assert(keys_at(keys, order.push(i)) =~= was.push(keys[i]));
    } else {
        let front = order.drop_last();
        let last = keys[order.last()];
        lemma_place_adds(keys, front, i);
        let placed = keys_at(keys, place(keys, front, i));
        assert(keys_at(keys, place(keys, order, i)) =~= placed.push(last));
        assert(was =~= keys_at(keys, front).push(last));
        let m = keys_at(keys, front).to_multiset();
        assert(m.insert(keys[i]).insert(last) =~= m.insert(last).insert(keys[i]));
    }
}

/// Sorting loses no text and adds none.
pub proof fn law_sorting_keeps_texts(keys: Seq<Seq<char>>)
    ensures
        sorted_texts(keys).to_multiset() == keys.to_multiset(),
    decreases keys.len(),
{
    broadcast use vstd::seq_lib::group_to_multiset_ensures;

    if keys.len() == 0 {
        assert(sorted_texts(keys) =~= keys);
    } else {
        let front = keys.drop_last();
        law_sorting_keeps_texts(front);
        let order = key_order(front);
        law_key_order_sorts(front);
        assert forall|k: int| 0 <= k < order.len() implies 0 <= #[trigger] order[k]
            < front.len() by {
            assert(order.contains(order[k]));
        }
        assert(keys_at(keys, order) =~= keys_at(front, order));
        lemma_place_adds(keys, order, keys.len() - 1);
        assert(keys =~= front.push(keys.last()));
    }
}

/// Whether a text does not come after another.
pub open spec fn no_later() -> spec_fn(Seq<char>, Seq<char>) -> bool {
    |a: Seq<char>, b: Seq<char>| !text_less(b, a)
}

/// Texts are totally ordered.
pub proof fn lemma_texts_ordered()
    ensures
        vstd::relations::total_ordering(no_later()),
{
    let leq = no_later();
    assert forall|a: Seq<char>| #[trigger] leq(a, a) by {
        lemma_less_irreflexive(a);
    }
    assert forall|a: Seq<char>, b: Seq<char>| #[trigger] leq(a, b) && #[trigger] leq(b, a) implies a
        == b by {
        lemma_less_total(a, b);
    }
    assert forall|a: Seq<char>, b: Seq<char>, c: Seq<char>| #[trigger]
        leq(a, b) && #[trigger] leq(b, c) implies leq(a, c) by {
        lemma_not_less_transitive(c, b, a);
    }
    assert forall|a: Seq<char>, b: Seq<char>| #[trigger] leq(a, b) || #[trigger] leq(b, a) by {
        lemma_less_asymmetric(a, b);
    }
}

/// The order in which texts came does not show once they are sorted.
pub proof fn law_sorting_forgets_the_order(a: Seq<Seq<char>>, b: Seq<Seq<char>>)
    requires
        a.to_multiset() == b.to_multiset(),
    ensures
        sorted_texts(a) == sorted_texts(b),
{
    lemma_texts_ordered();
    law_sorting_keeps_texts(a);
    law_sorting_keeps_texts(b);
    law_key_order_sorts(a);
    law_key_order_sorts(b);
    let (sa, sb) = (sorted_texts(a), sorted_texts(b));
    let leq = no_later();
    assert forall|i: int, j: int| 0 <= i < j < sa.len() implies #[trigger] leq(sa[i], sa[j]) by {
        assert(!text_less(a[key_order(a)[j]], a[key_order(a)[i]]));
    }
    assert forall|i: int, j: int| 0 <= i < j < sb.len() implies #[trigger] leq(sb[i], sb[j]) by {
        assert(!text_less(b[key_order(b)[j]], b[key_order(b)[i]]));
    }
    vstd::seq_lib::lemma_sorted_unique(sa, sb, leq);
}

/// Whether a text is in a list.
pub(crate) fn lists(names: &Vec<String>, name: &str) -> (yes: bool)
    ensures
        yes == strings(names@).contains(name@),
{
    let ghost model = strings(names@);
    let mut i: usize = 0;
    while i < names.len()
        invariant
            i <= names@.len(),
            model == strings(names@),
            forall|k: int| 0 <= k < i ==> #[trigger] model[k] != name@,
        decreases names@.len() - i,
    {
        assert(model[i as int] == names@[i as int]@);
        if same_text(names[i].as_str(), name) {
            return true;
        }
        i = i + 1;
    }
    false
}

/// A run of digits before something else ends there.
pub proof fn lemma_run_ends(s: Seq<char>, p: int, run: Seq<char>)
    requires
        0 <= p,
        p + run.len() <= s.len(),
        s.subrange(p, p + run.len()) == run,
        all_digits(run),
        p + run.len() < s.len() ==> !is_digit(s[p + run.len()]),
    ensures
        digits_end(s, p) == p + run.len(),
    decreases run.len(),
{
    if run.len() > 0 {
        let rest = run.skip(1);
        assert(s.subrange(p, p + run.len())[0] == s[p]);
        assert(is_digit(run[0]));
        assert(s.subrange(p + 1, p + 1 + rest.len()) =~= rest);
        assert forall|i: int| 0 <= i < rest.len() implies is_digit(#[trigger] rest[i]) by {
            assert(rest[i] == run[i + 1]);
        }
        lemma_run_ends(s, p + 1, rest);
    }
}

} // verus!
