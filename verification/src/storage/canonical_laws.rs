//! What the canonical form keeps of a number, and of an object.

use crate::storage::canonical::{
    canonical_at, canonical_number_of, comma_joined, entry_path, field_text,
    field_texts, first_non_ascii, first_repeat, fraction_digits, keys_of, lemma_parts_are_digits,
    lemma_trim_front, number_parts, number_text, object_text, signed_value, ten_to, value_texts, whole_digits,
};
use crate::storage::json::{Fault, Json};
use crate::text::{
    all_digits, digits_value, is_digit, key_order, law_key_order_sorts, lemma_less_asymmetric,
    lemma_less_irreflexive, lemma_less_total, lemma_run_ends, place, text_less, trim_back_zeros,
    trim_front_zeros, zeros,
};
use vstd::prelude::*;
use vstd::utf8::is_ascii_chars;

verus! {

/// The number that the digits of a token spell, its point left aside.
pub open spec fn significand(token: Seq<char>) -> nat {
    digits_value(number_parts(token).whole + number_parts(token).frac)
}

/// How many places the digits of a token stand behind the point.
pub open spec fn scale(token: Seq<char>) -> int {
    let parts = number_parts(token);
    parts.frac.len() - (match parts.exponent {
        Some(e) => signed_value(e)->0,
        None => 0,
    })
}

/// The magnitude of a token, counted in units of ten to the power `-m`.
pub open spec fn magnitude(token: Seq<char>, m: int) -> nat {
    significand(token) * ten_to((m - scale(token)) as nat)
}

/// Powers of ten add up.
pub(crate) proof fn lemma_ten_adds(a: nat, b: nat)
    ensures
        ten_to(a + b) == ten_to(a) * ten_to(b),
        ten_to(a) > 0,
    decreases a,
{
    if a > 0 {
        lemma_ten_adds((a - 1) as nat, b);
        assert(ten_to((a + b) as nat) == 10 * ten_to((a - 1 + b) as nat));
        assert(10 * (ten_to((a - 1) as nat) * ten_to(b)) == (10 * ten_to((a - 1) as nat)) * ten_to(
            b,
        )) by (nonlinear_arith);
    } else {
        assert(ten_to(a + b) == ten_to(b));
        assert(ten_to(a) == 1);
    }
}

/// Two products that are equal stay equal in a finer unit.
proof fn lemma_finer_unit(d: nat, v: nat, a: nat, b: nat, k: nat)
    requires
        d * ten_to(a) == v * ten_to(b),
    ensures
        d * ten_to(a + k) == v * ten_to(b + k),
{
    lemma_ten_adds(a, k);
    lemma_ten_adds(b, k);
    let (x, y, z) = (ten_to(a), ten_to(b), ten_to(k));
    assert(d * (x * z) == (d * x) * z) by (nonlinear_arith);
    assert(v * (y * z) == (v * y) * z) by (nonlinear_arith);
}

/// Zeros before digits change nothing.
proof fn lemma_value_zeros_front(n: nat, s: Seq<char>)
    ensures
        digits_value(zeros(n) + s) == digits_value(s),
    decreases n + s.len(),
{
    let all = zeros(n) + s;
    if s.len() > 0 {
        assert(all.drop_last() =~= zeros(n) + s.drop_last());
        lemma_value_zeros_front(n, s.drop_last());
    } else if n > 0 {
        assert(all.drop_last() =~= zeros((n - 1) as nat) + s);
        lemma_value_zeros_front((n - 1) as nat, s);
    } else {
        assert(all =~= s);
    }
}

/// Zeros behind digits multiply by ten each.
proof fn lemma_value_zeros_back(s: Seq<char>, n: nat)
    ensures
        digits_value(s + zeros(n)) == digits_value(s) * ten_to(n),
    decreases n,
{
    let all = s + zeros(n);
    if n > 0 {
        assert(all.drop_last() =~= s + zeros((n - 1) as nat));
        lemma_value_zeros_back(s, (n - 1) as nat);
        assert(digits_value(s) * ten_to((n - 1) as nat) * 10 == digits_value(s) * (10 * ten_to(
            (n - 1) as nat,
        ))) by (nonlinear_arith);
    } else {
        assert(all =~= s);
        assert(digits_value(s) * 1 == digits_value(s));
    }
}

/// Trimming zeros off the front keeps the value.
pub(crate) proof fn lemma_value_trim_front(w: Seq<char>, f: Seq<char>)
    ensures
        digits_value(trim_front_zeros(w) + f) == digits_value(w + f),
    decreases w.len(),
{
    if w.len() > 0 && w[0] == '0' {
        lemma_value_trim_front(w.skip(1), f);
        assert(w + f =~= zeros(1) + (w.skip(1) + f));
        lemma_value_zeros_front(1, w.skip(1) + f);
    }
}

/// Trimming zeros off the back takes their powers of ten off the value.
proof fn lemma_value_trim_back(w: Seq<char>, f: Seq<char>)
    ensures
        trim_back_zeros(f).len() <= f.len(),
        digits_value(w + f) == digits_value(w + trim_back_zeros(f)) * ten_to(
            (f.len() - trim_back_zeros(f).len()) as nat,
        ),
    decreases f.len(),
{
    let kept = trim_back_zeros(f);
    if f.len() > 0 && f.last() == '0' {
        lemma_value_trim_back(w, f.drop_last());
        assert((w + f).drop_last() =~= w + f.drop_last());
        let v = digits_value(w + kept);
        let n = (f.drop_last().len() - kept.len()) as nat;
        assert((f.len() - kept.len()) as nat == n + 1);
        assert(v * ten_to(n) * 10 == v * (10 * ten_to(n))) by (nonlinear_arith);
    } else {
        assert(digits_value(w + f) * 1 == digits_value(w + f));
    }
}

/// Shifting the point keeps the digits, but for zeros at the ends.
proof fn lemma_value_shift(digits: Seq<char>, point: int)
    ensures
        digits_value(whole_digits(digits, point) + fraction_digits(digits, point)) == digits_value(
            digits,
        ) * ten_to(
            (if point > digits.len() {
                point - digits.len()
            } else {
                0
            }) as nat,
        ),
        fraction_digits(digits, point).len() == (if point > digits.len() {
            0
        } else {
            digits.len() - point
        }),
{
    let all = whole_digits(digits, point) + fraction_digits(digits, point);
    if point <= 0 {
        assert(all =~= zeros((-point) as nat) + digits);
        lemma_value_zeros_front((-point) as nat, digits);
        assert(digits_value(digits) * 1 == digits_value(digits));
    } else if point >= digits.len() {
        assert(all =~= digits + zeros((point - digits.len()) as nat));
        lemma_value_zeros_back(digits, (point - digits.len()) as nat);
    } else {
        assert(all =~= digits);
        assert(digits_value(digits) * 1 == digits_value(digits));
    }
}

/// The parts of a spelled number are the parts it was spelled from.
pub(crate) proof fn lemma_spelled_parts(negative: bool, whole: Seq<char>, fraction: Seq<char>)
    requires
        all_digits(whole),
        all_digits(fraction),
    ensures
        ({
            let parts = number_parts(number_text(negative, whole, fraction));
            &&& parts.negative == negative
            &&& parts.whole == (if whole.len() == 0 {
                "0"@
            } else {
                whole
            })
            &&& parts.frac == fraction
            &&& parts.exponent is None
        }),
{
    reveal_strlit("-");
    reveal_strlit("");
    reveal_strlit("0");
    reveal_strlit(".");
    let text = number_text(negative, whole, fraction);
    let first = if whole.len() == 0 {
        "0"@
    } else {
        whole
    };
    let sign: int = if negative {
        1
    } else {
        0
    };
    assert(all_digits("0"@));
    assert(all_digits(first));
    assert(is_digit(first[0]));
    assert(text.subrange(sign, sign + first.len()) =~= first);
    if !negative {
        assert(text[0] == first[0]);
    }
    let end = sign + first.len();
    if fraction.len() > 0 {
        assert(text[end] == '.');
        assert(text.subrange(end + 1, end + 1 + fraction.len()) =~= fraction);
        lemma_run_ends(text, sign, first);
        lemma_run_ends(text, end + 1, fraction);
        assert(text.len() == end + 1 + fraction.len());
    } else {
        assert(text.len() == end);
        lemma_run_ends(text, sign, first);
        assert(number_parts(text).frac =~= fraction);
    }
}

/// Digits without the zeros at their end are digits.
proof fn lemma_trim_back_digits(s: Seq<char>)
    requires
        all_digits(s),
    ensures
        all_digits(trim_back_zeros(s)),
        trim_back_zeros(s).len() > 0 ==> trim_back_zeros(s).last() != '0',
    decreases s.len(),
{
    if s.len() > 0 && s.last() == '0' {
        let front = s.drop_last();
        assert forall|k: int| 0 <= k < front.len() implies is_digit(#[trigger] front[k]) by {
            assert(front[k] == s[k]);
        }
        lemma_trim_back_digits(front);
    }
}

/// The digits that are spelled come to the digits of the token, in a unit that
/// holds both.
pub(crate) proof fn lemma_spelled_value(digits: Seq<char>, point: int, m: int)
    requires
        all_digits(digits),
        m >= digits.len() - point,
        m >= trim_back_zeros(fraction_digits(digits, point)).len(),
    ensures
        ({
            let whole = trim_front_zeros(whole_digits(digits, point));
            let fraction = trim_back_zeros(fraction_digits(digits, point));
            &&& digits_value(digits) * ten_to((m - (digits.len() - point)) as nat) == digits_value(
                whole + fraction,
            ) * ten_to((m - fraction.len()) as nat)
            &&& all_digits(whole)
            &&& all_digits(fraction)
            &&& whole.len() > 0 ==> whole[0] != '0'
            &&& fraction.len() > 0 ==> fraction.last() != '0'
        }),
{
    let wide_whole = whole_digits(digits, point);
    let wide_fraction = fraction_digits(digits, point);
    let whole = trim_front_zeros(wide_whole);
    let fraction = trim_back_zeros(wide_fraction);
    assert(all_digits(wide_whole));
    assert(all_digits(wide_fraction));
    lemma_value_shift(digits, point);
    lemma_value_trim_front(wide_whole, wide_fraction);
    lemma_value_trim_back(whole, wide_fraction);
    lemma_trim_front(wide_whole);
    lemma_trim_back_digits(wide_fraction);
    let shifted: nat = (if point > digits.len() {
        point - digits.len()
    } else {
        0
    }) as nat;
    let cut = (wide_fraction.len() - fraction.len()) as nat;
    let k = (m - wide_fraction.len()) as nat;
    lemma_finer_unit(digits_value(digits), digits_value(whole + fraction), shifted, cut, k);
}

/// The digits of a spelled number are those it was spelled from.
proof fn lemma_spelled_significand(negative: bool, whole: Seq<char>, fraction: Seq<char>)
    requires
        all_digits(whole),
        all_digits(fraction),
    ensures
        significand(number_text(negative, whole, fraction)) == digits_value(whole + fraction),
        scale(number_text(negative, whole, fraction)) == fraction.len(),
        number_parts(number_text(negative, whole, fraction)).negative == negative,
        number_parts(number_text(negative, whole, fraction)).exponent is None,
{
    lemma_spelled_parts(negative, whole, fraction);
    if whole.len() == 0 {
        reveal_strlit("0");
        assert("0"@ + fraction =~= zeros(1) + fraction);
        lemma_value_zeros_front(1, fraction);
        assert(whole + fraction =~= fraction);
    }
}

/// The canonical spelling of a number has the magnitude of its token, exactly:
/// in whatever unit both are counted, they come to the same number. It has no
/// exponent, and it is negative where the token is and is not zero.
#[verifier::spinoff_prover]
pub proof fn law_canonical_number_keeps_the_value(
    token: Seq<char>,
    path: Seq<char>,
    out: Seq<char>,
    m: int,
)
    requires
        canonical_number_of(token, path) == Ok::<Seq<char>, Fault>(out),
        m >= scale(token),
        m >= scale(out),
    ensures
        magnitude(out, m) == magnitude(token, m),
        number_parts(out).exponent is None,
        number_parts(out).negative <==> number_parts(token).negative && magnitude(token, m) != 0,
{
    let parts = number_parts(token);
    let e = match parts.exponent {
        Some(e) => signed_value(e)->0,
        None => 0,
    };
    let digits = parts.whole + parts.frac;
    let point = parts.whole.len() + e;
    let whole = trim_front_zeros(whole_digits(digits, point));
    let fraction = trim_back_zeros(fraction_digits(digits, point));
    lemma_parts_are_digits(token);
    assert(all_digits(digits));
    assert(digits.len() - point == scale(token));
    let none = Seq::<char>::empty();
    if whole.len() == 0 && fraction.len() == 0 {
        assert(out =~= number_text(false, none, none)) by {
            reveal_strlit("");
            reveal_strlit("0");
        }
        lemma_spelled_significand(false, none, none);
        lemma_spelled_value(digits, point, m);
        assert(whole + fraction =~= none);
        assert(none + none =~= none);
        assert(digits_value(none) == 0);
        assert(magnitude(token, m) == 0 * ten_to(m as nat));
        assert(0 * ten_to(m as nat) == 0) by (nonlinear_arith);
        assert(!number_parts(out).negative);
    } else {
        assert(out == number_text(parts.negative, whole, fraction));
        assert(all_digits(whole) && all_digits(fraction)) by {
            lemma_spelled_value(
                digits,
                point,
                if scale(token) > fraction.len() {
                    scale(token)
                } else {
                    fraction.len() as int
                },
            );
        }
        lemma_spelled_significand(parts.negative, whole, fraction);
        lemma_spelled_value(digits, point, m);
        lemma_not_zero(whole, fraction);
        let unit = ten_to((m - fraction.len()) as nat);
        lemma_ten_adds((m - fraction.len()) as nat, 0);
        assert(digits_value(whole + fraction) * unit != 0) by (nonlinear_arith)
            requires
                digits_value(whole + fraction) > 0,
                unit > 0,
        ;
        assert(magnitude(token, m) == digits_value(whole + fraction) * unit);
        assert(magnitude(token, m) != 0);
        assert(number_parts(out).negative == parts.negative);
    }
}

/// Digits of which one is not zero do not spell zero.
proof fn lemma_value_positive(s: Seq<char>, i: int)
    requires
        all_digits(s),
        0 <= i < s.len(),
        s[i] != '0',
    ensures
        digits_value(s) > 0,
    decreases s.len(),
{
    assert(is_digit(s[s.len() - 1]));
    if i < s.len() - 1 {
        let front = s.drop_last();
        assert forall|k: int| 0 <= k < front.len() implies is_digit(#[trigger] front[k]) by {
            assert(front[k] == s[k]);
        }
        lemma_value_positive(front, i);
    }
}

/// Trimmed digits that are left do not spell zero.
proof fn lemma_not_zero(whole: Seq<char>, fraction: Seq<char>)
    requires
        all_digits(whole),
        all_digits(fraction),
        whole.len() > 0 ==> whole[0] != '0',
        fraction.len() > 0 ==> fraction.last() != '0',
        whole.len() + fraction.len() > 0,
    ensures
        digits_value(whole + fraction) > 0,
{
    let all = whole + fraction;
    assert(all_digits(all));
    if whole.len() > 0 {
        assert(all[0] == whole[0]);
        lemma_value_positive(all, 0);
    } else {
        assert(all[all.len() - 1] == fraction.last());
        lemma_value_positive(all, all.len() - 1);
    }
}


/// Whether texts ascend strictly.
pub(crate) open spec fn climbs(s: Seq<Seq<char>>) -> bool {
    forall|a: int, b: int| 0 <= a < b < s.len() ==> text_less(#[trigger] s[a], #[trigger] s[b])
}

/// Strictly ascending texts are fixed by which texts they are.
pub(crate) proof fn lemma_climb_is_unique(a: Seq<Seq<char>>, b: Seq<Seq<char>>)
    requires
        climbs(a),
        climbs(b),
        forall|x: Seq<char>| #![auto] a.contains(x) <==> b.contains(x),
    ensures
        a == b,
    decreases a.len(),
{
    if a.len() == 0 {
        if b.len() > 0 {
            assert(b.contains(b[0]));
        }
        assert(a =~= b);
    } else {
        let (la, lb) = (a.len() - 1, b.len() - 1);
        assert(a.contains(a[la]));
        let j = choose|j: int| 0 <= j < b.len() && b[j] == a[la];
        assert(b.contains(b[lb]));
        let i = choose|i: int| 0 <= i < a.len() && a[i] == b[lb];
        if j < lb {
            assert(text_less(b[j], b[lb]));
            if i < la {
                assert(text_less(a[i], a[la]));
            }
            lemma_less_asymmetric(a[la], b[lb]);
            lemma_less_irreflexive(a[la]);
        }
        let (fa, fb) = (a.drop_last(), b.drop_last());
        assert forall|x: Seq<char>| #![auto] fa.contains(x) <==> fb.contains(x) by {
            if fa.contains(x) {
                let k = choose|k: int| 0 <= k < fa.len() && fa[k] == x;
                assert(a[k] == x);
                assert(text_less(a[k], a[la]));
                lemma_less_irreflexive(a[la]);
                assert(a.contains(x));
                let m = choose|m: int| 0 <= m < b.len() && b[m] == x;
                assert(fb[m] == x);
            }
            if fb.contains(x) {
                let k = choose|k: int| 0 <= k < fb.len() && fb[k] == x;
                assert(b[k] == x);
                assert(text_less(b[k], b[lb]));
                lemma_less_irreflexive(b[lb]);
                assert(b.contains(x));
                let m = choose|m: int| 0 <= m < a.len() && a[m] == x;
                assert(fa[m] == x);
            }
        }
        lemma_climb_is_unique(fa, fb);
        assert(a =~= fa.push(a[la]));
        assert(b =~= fb.push(b[lb]));
    }
}

/// Whether no two entries have one key.
pub open spec fn keys_distinct(entries: Seq<(Seq<char>, Json)>) -> bool {
    forall|a: int, b: int|
        0 <= a < b < entries.len() ==> (#[trigger] entries[a]).0 != (#[trigger] entries[b]).0
}

/// The keys of an object in canonical order.
pub(crate) open spec fn sorted_keys(entries: Seq<(Seq<char>, Json)>) -> Seq<Seq<char>> {
    let keys = keys_of(entries);
    Seq::new(keys.len(), |k: int| keys[key_order(keys)[k]])
}

/// Keys that are all different ascend strictly in canonical order, and none is
/// lost.
pub(crate) proof fn lemma_sorted_keys(entries: Seq<(Seq<char>, Json)>)
    requires
        keys_distinct(entries),
    ensures
        climbs(sorted_keys(entries)),
        forall|k: int|
            0 <= k < entries.len() ==> 0 <= #[trigger] key_order(keys_of(entries))[k]
                < entries.len(),
        forall|x: Seq<char>|
            #![auto]
            sorted_keys(entries).contains(x) <==> keys_of(entries).contains(x),
        first_repeat(keys_of(entries), key_order(keys_of(entries)), 0) + 1 >= entries.len(),
{
    let keys = keys_of(entries);
    let order = key_order(keys);
    let sorted = sorted_keys(entries);
    law_key_order_sorts(keys);
    assert forall|k: int| 0 <= k < entries.len() implies 0 <= #[trigger] order[k]
        < entries.len() by {
        assert(order.contains(order[k]));
    }
    assert forall|a: int, b: int| 0 <= a < b < sorted.len() implies text_less(
        #[trigger] sorted[a],
        #[trigger] sorted[b],
    ) by {
        let (i, j) = (order[a], order[b]);
        assert(!text_less(keys[order[b]], keys[order[a]]));
        assert(i != j);
        if i < j {
            assert(entries[i].0 != entries[j].0);
        } else {
            assert(entries[j].0 != entries[i].0);
        }
        lemma_less_total(keys[i], keys[j]);
    }
    assert forall|x: Seq<char>| #![auto] sorted.contains(x) <==> keys.contains(x) by {
        if sorted.contains(x) {
            let k = choose|k: int| 0 <= k < sorted.len() && sorted[k] == x;
            assert(keys[order[k]] == x);
        }
        if keys.contains(x) {
            let i = choose|i: int| 0 <= i < keys.len() && keys[i] == x;
            assert(order.contains(i));
            let k = choose|k: int| 0 <= k < order.len() && order[k] == i;
            assert(sorted[k] == x);
        }
    }
    lemma_no_repeat(entries, 0);
}

/// No place names a key that the next place names too.
proof fn lemma_no_repeat(entries: Seq<(Seq<char>, Json)>, k: int)
    requires
        keys_distinct(entries),
        0 <= k,
    ensures
        first_repeat(keys_of(entries), key_order(keys_of(entries)), k) + 1 >= entries.len(),
    decreases entries.len() - k,
{
    let keys = keys_of(entries);
    let order = key_order(keys);
    law_key_order_sorts(keys);
    if k < order.len() - 1 {
        let (i, j) = (order[k], order[k + 1]);
        assert(order.contains(i) && order.contains(j));
        assert(i != j);
        if i < j {
            assert(entries[i].0 != entries[j].0);
        } else {
            assert(entries[j].0 != entries[i].0);
        }
        lemma_no_repeat(entries, k + 1);
    }
}

/// ASCII keys are all passed over.
pub(crate) proof fn lemma_no_foreign(keys: Seq<Seq<char>>, i: int)
    requires
        0 <= i <= keys.len(),
        forall|k: int| 0 <= k < keys.len() ==> is_ascii_chars(#[trigger] keys[k]),
    ensures
        first_non_ascii(keys, i) == keys.len(),
    decreases keys.len() - i,
{
    if i < keys.len() {
        assert(is_ascii_chars(keys[i]));
        lemma_no_foreign(keys, i + 1);
    }
}

/// The file order of an object's entries does not show in its canonical form:
/// two objects with the same entries, whatever their order, are spelled the same.
pub proof fn law_canonical_form_ignores_file_order(
    a: Seq<(Seq<char>, Json)>,
    b: Seq<(Seq<char>, Json)>,
    path: Seq<char>,
)
    requires
        keys_distinct(a),
        keys_distinct(b),
        forall|k: int| 0 <= k < a.len() ==> is_ascii_chars((#[trigger] a[k]).0),
        forall|entry: (Seq<char>, Json)| #![auto] a.contains(entry) <==> b.contains(entry),
    ensures
        canonical_at(Json::Object(a), path) == canonical_at(Json::Object(b), path),
{
    let (ka, kb) = (keys_of(a), keys_of(b));
    let (oa, ob) = (key_order(ka), key_order(kb));
    lemma_sorted_keys(a);
    lemma_sorted_keys(b);
    law_key_order_sorts(ka);
    law_key_order_sorts(kb);
    assert forall|k: int| 0 <= k < kb.len() implies is_ascii_chars(#[trigger] kb[k]) by {
        assert(b.contains(b[k]));
        let j = choose|j: int| 0 <= j < a.len() && a[j] == b[k];
        assert(is_ascii_chars(a[j].0));
    }
    lemma_no_foreign(ka, 0);
    lemma_no_foreign(kb, 0);
    let (sa, sb) = (sorted_keys(a), sorted_keys(b));
    assert forall|x: Seq<char>| #![auto] sa.contains(x) <==> sb.contains(x) by {
        if sa.contains(x) {
            let i = choose|i: int| 0 <= i < ka.len() && ka[i] == x;
            assert(a.contains(a[i]));
            let j = choose|j: int| 0 <= j < b.len() && b[j] == a[i];
            assert(kb[j] == x);
            assert(kb.contains(x));
        }
        if sb.contains(x) {
            let i = choose|i: int| 0 <= i < kb.len() && kb[i] == x;
            assert(b.contains(b[i]));
            let j = choose|j: int| 0 <= j < a.len() && a[j] == b[i];
            assert(ka[j] == x);
            assert(ka.contains(x));
        }
    }
    lemma_climb_is_unique(sa, sb);
    let (va, vb) = (value_texts(a, path), value_texts(b, path));
    let (fa, fb) = (field_texts(ka, oa, va), field_texts(kb, ob, vb));
    assert forall|k: int| 0 <= k < fa.len() implies fa[k] == fb[k] by {
        let (i, j) = (oa[k], ob[k]);
        assert(sa[k] == sb[k]);
        assert(ka[i] == kb[j]);
        assert(b.contains(b[j]));
        let m = choose|m: int| 0 <= m < a.len() && a[m] == b[j];
        if m < i {
            assert(a[m].0 != a[i].0);
        } else if i < m {
            assert(a[i].0 != a[m].0);
        }
        assert(a[i] == b[j]);
        assert(va[i] == canonical_at(a[i].1, entry_path(path, a[i].0)));
        assert(vb[j] == canonical_at(b[j].1, entry_path(path, b[j].0)));
    }
    assert(fa.len() == sa.len() && fb.len() == sb.len());
    assert(fa =~= fb);
    assert(canonical_at(Json::Object(a), path) == object_text(path, ka, va));
    assert(canonical_at(Json::Object(b), path) == object_text(path, kb, vb));
}

/// The characters that the fields of an object take, in the given order, where
/// every value has a text.
spec fn fields_len(
    keys: Seq<Seq<char>>,
    order: Seq<int>,
    values: Seq<Result<Seq<char>, Fault>>,
) -> nat
    decreases order.len(),
{
    if order.len() == 0 {
        0
    } else {
        fields_len(keys, order.drop_last(), values) + field_text(
            keys[order.last()],
            values[order.last()],
        )->Ok_0.len()
    }
}

/// Fields that are spelled take their own characters and the commas between
/// them.
proof fn lemma_fields_len(
    keys: Seq<Seq<char>>,
    order: Seq<int>,
    values: Seq<Result<Seq<char>, Fault>>,
)
    requires
        comma_joined(field_texts(keys, order, values)) is Ok,
    ensures
        comma_joined(field_texts(keys, order, values))->Ok_0.len() == fields_len(
            keys,
            order,
            values,
        ) + (if order.len() > 0 {
            order.len() - 1
        } else {
            0
        }),
    decreases order.len(),
{
    let fields = field_texts(keys, order, values);
    if order.len() > 0 {
        assert(fields.drop_last() =~= field_texts(keys, order.drop_last(), values));
        assert(fields.last() == field_text(keys[order.last()], values[order.last()]));
        lemma_fields_len(keys, order.drop_last(), values);
    }
}

/// Placing an index adds the characters of its field.
proof fn lemma_place_adds_field(
    keys: Seq<Seq<char>>,
    order: Seq<int>,
    i: int,
    values: Seq<Result<Seq<char>, Fault>>,
)
    ensures
        fields_len(keys, place(keys, order, i), values) == fields_len(keys, order, values)
            + field_text(keys[i], values[i])->Ok_0.len(),
    decreases order.len(),
{
    if order.len() == 0 || !text_less(keys[i], keys[order.last()]) {
        assert(order.push(i).drop_last() =~= order);
    } else {
        let front = order.drop_last();
        lemma_place_adds_field(keys, front, i, values);
        assert(place(keys, front, i).push(order.last()).drop_last() =~= place(keys, front, i));
    }
}

/// The characters of fields are those of the entries that the order names.
proof fn lemma_fields_len_same(
    ka: Seq<Seq<char>>,
    kb: Seq<Seq<char>>,
    order: Seq<int>,
    va: Seq<Result<Seq<char>, Fault>>,
    vb: Seq<Result<Seq<char>, Fault>>,
)
    requires
        forall|k: int|
            0 <= k < order.len() ==> ka[#[trigger] order[k]] == kb[order[k]] && va[order[k]]
                == vb[order[k]],
    ensures
        fields_len(ka, order, va) == fields_len(kb, order, vb),
    decreases order.len(),
{
    if order.len() > 0 {
        let front = order.drop_last();
        assert forall|k: int| 0 <= k < front.len() implies ka[#[trigger] front[k]] == kb[front[k]]
            && va[front[k]] == vb[front[k]] by {
            assert(front[k] == order[k]);
        }
        lemma_fields_len_same(ka, kb, front, va, vb);
        assert(ka[order[order.len() - 1]] == kb[order[order.len() - 1]]);
    }
}

/// Absent is not null: an object that has a key with `null` is not spelled like
/// the object without that key.
pub proof fn law_absent_is_not_null(
    entries: Seq<(Seq<char>, Json)>,
    key: Seq<char>,
    path: Seq<char>,
)
    requires
        canonical_at(Json::Object(entries), path) is Ok,
    ensures
        canonical_at(Json::Object(entries.push((key, Json::Null))), path) != canonical_at(
            Json::Object(entries),
            path,
        ),
{
    let more = entries.push((key, Json::Null));
    let (ka, kb) = (keys_of(entries), keys_of(more));
    let (va, vb) = (value_texts(entries, path), value_texts(more, path));
    let (oa, ob) = (key_order(ka), key_order(kb));
    let n = entries.len() as int;
    if canonical_at(Json::Object(more), path) is Ok {
        law_key_order_sorts(ka);
        law_key_order_sorts(kb);
        assert(kb.drop_last() =~= ka);
        assert(ob == place(kb, oa, n));
        assert forall|k: int| 0 <= k < oa.len() implies ka[#[trigger] oa[k]] == kb[oa[k]]
            && va[oa[k]] == vb[oa[k]] by {
            assert(oa.contains(oa[k]));
            assert(more[oa[k]] == entries[oa[k]]);
        }
        lemma_fields_len_same(ka, kb, oa, va, vb);
        lemma_place_adds_field(kb, oa, n, vb);
        lemma_fields_len(ka, oa, va);
        lemma_fields_len(kb, ob, vb);
        assert(more[n].1 == Json::Null);
        assert(vb[n] == Ok::<Seq<char>, Fault>("null"@));
        let one = field_text(kb[n], vb[n])->Ok_0;
        assert(one.len() > 0);
        let (fa, fb) = (field_texts(ka, oa, va), field_texts(kb, ob, vb));
        let (ta, tb) = (comma_joined(fa)->Ok_0, comma_joined(fb)->Ok_0);
        assert(ob.len() == oa.len() + 1);
        assert(tb.len() > ta.len());
        assert(canonical_at(Json::Object(entries), path) == object_text(path, ka, va));
        assert(canonical_at(Json::Object(more), path) == object_text(path, kb, vb));
        assert(canonical_at(Json::Object(entries), path)->Ok_0 == "{"@ + ta + "}"@);
        assert(canonical_at(Json::Object(more), path)->Ok_0 == "{"@ + tb + "}"@);
        assert(("{"@ + tb + "}"@).len() > ("{"@ + ta + "}"@).len());
    }
}

} // verus!
