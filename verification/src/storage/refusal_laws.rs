//! Which numbers and which objects have no canonical text.

use crate::storage::canonical::{
    canonical_at, canonical_number_of, first_non_ascii, first_repeat, keys_of, leading_zeros,
    lemma_ten_grows, lemma_trim_at, lemma_trim_back_keeps, lemma_trim_front, lemma_trim_zeros,
    lemma_value_below, lemma_value_power, number_parts, number_text, signed_value, spelled, ten_to,
};
use crate::storage::canonical_laws::{keys_distinct, lemma_value_trim_front};
use crate::storage::json::{Fault, Json};
use crate::storage::normal_form::lemma_distinct;
use crate::text::{
    all_digits, decimal, digits_value, is_digit, key_order, law_key_order_sorts, lemma_run_ends,
    trim_back_zeros, trim_front_zeros,
};
use vstd::prelude::*;
use vstd::utf8::is_ascii_chars;

verus! {

/// The least number of a length, and the first beyond it.
proof fn lemma_length_bounds(whole: Seq<char>)
    requires
        all_digits(whole),
    ensures
        trim_front_zeros(whole).len() >= 22 <==> digits_value(whole)
            >= 1_000_000_000_000_000_000_000,
        digits_value(trim_front_zeros(whole)) == digits_value(whole),
        trim_front_zeros(whole).len() == 0 <==> digits_value(whole) == 0,
{
    let kept = trim_front_zeros(whole);
    lemma_trim_front(whole);
    lemma_value_trim_front(whole, Seq::empty());
    assert(kept + Seq::<char>::empty() =~= kept);
    assert(whole + Seq::<char>::empty() =~= whole);
    lemma_value_below(kept);
    reveal_with_fuel(ten_to, 22);
    assert(ten_to(21) == 1_000_000_000_000_000_000_000);
    if kept.len() > 0 {
        lemma_value_power(kept, (kept.len() - 1) as nat);
        if kept.len() >= 22 {
            lemma_ten_grows(21, (kept.len() - 1) as nat);
        } else {
            lemma_ten_grows(kept.len(), 21);
        }
        lemma_ten_grows(0, (kept.len() - 1) as nat);
        assert(ten_to(0) == 1);
    }
}

/// How a fraction starts: where any of its first six digits is no zero, it is not too
/// small.
proof fn lemma_small(fraction: Seq<char>)
    ensures
        trim_back_zeros(fraction).len() == 0 <==> forall|k: int|
            0 <= k < fraction.len() ==> #[trigger] fraction[k] == '0',
        trim_back_zeros(fraction).len() > 0 ==> (leading_zeros(trim_back_zeros(fraction)) >= 6
            <==> forall|k: int| 0 <= k < 6 && k < fraction.len() ==> #[trigger] fraction[k] == '0'),
{
    let kept = trim_back_zeros(fraction);
    if forall|k: int| 0 <= k < fraction.len() ==> #[trigger] fraction[k] == '0' {
        lemma_trim_zeros(fraction);
    } else {
        let z = lemma_first_nonzero(fraction, 0);
        lemma_trim_back_keeps(fraction, z);
        assert(kept[z] == fraction[z]);
        assert forall|k: int| 0 <= k < z implies #[trigger] kept[k] == '0' by {
            assert(kept[k] == fraction[k]);
        }
        lemma_trim_at(kept, z);
        assert(leading_zeros(kept) == z);
        if forall|k: int| 0 <= k < 6 && k < fraction.len() ==> #[trigger] fraction[k] == '0' {
            if z < 6 {
                assert(fraction[z] == '0');
            }
        }
    }
}

/// The first digit that is no zero.
proof fn lemma_first_nonzero(s: Seq<char>, i: int) -> (z: int)
    requires
        0 <= i <= s.len(),
        forall|k: int| 0 <= k < i ==> #[trigger] s[k] == '0',
        !(forall|k: int| 0 <= k < s.len() ==> #[trigger] s[k] == '0'),
    ensures
        0 <= z < s.len(),
        s[z] != '0',
        forall|k: int| 0 <= k < z ==> #[trigger] s[k] == '0',
    decreases s.len() - i,
{
    if i < s.len() && s[i] == '0' {
        lemma_first_nonzero(s, i + 1)
    } else {
        i
    }
}

/// A number is refused exactly where no plain spelling of it is safe. It is out of range
/// at ten to the power of twenty-one and above, and below a millionth unless it is
/// nothing; and one that was written as an integer is unsafe above two to the power of
/// fifty-three, less one.
pub proof fn law_number_is_refused_iff_it_is_out_of_range(
    token: Seq<char>,
    path: Seq<char>,
    negative: bool,
    as_integer: bool,
    whole: Seq<char>,
    fraction: Seq<char>,
)
    requires
        all_digits(whole),
        all_digits(fraction),
    ensures
        ({
            let got = spelled(token, path, negative, as_integer, whole, fraction);
            let nothing = digits_value(whole) == 0 && forall|k: int|
                0 <= k < fraction.len() ==> #[trigger] fraction[k] == '0';
            let tiny = digits_value(whole) == 0 && forall|k: int|
                0 <= k < 6 && k < fraction.len() ==> #[trigger] fraction[k] == '0';
            let huge = digits_value(whole) >= 1_000_000_000_000_000_000_000;
            let unsafe_one = as_integer && digits_value(whole) > 9_007_199_254_740_991;
            &&& got is Ok <==> nothing || !(huge || tiny || unsafe_one)
            &&& nothing ==> got == Ok::<Seq<char>, Fault>("0"@)
            &&& !nothing && (huge || tiny) ==> got == Err::<Seq<char>, Fault>(
                Fault::OutOfPlainRange { path, token },
            )
            &&& !nothing && !huge && !tiny && unsafe_one ==> got == Err::<Seq<char>, Fault>(
                Fault::UnsafeInteger { path, value: token },
            )
        }),
{
    lemma_length_bounds(whole);
    lemma_small(fraction);
}

/// The parts of an integer's spelling.
proof fn lemma_integer_parts(negative: bool, digits: Seq<char>)
    requires
        all_digits(digits),
        digits.len() > 0,
    ensures
        ({
            let token = if negative {
                seq!['-'] + digits
            } else {
                digits
            };
            let parts = number_parts(token);
            &&& parts.negative == negative
            &&& parts.whole == digits
            &&& parts.frac.len() == 0
            &&& parts.exponent is None
        }),
{
    let token = if negative {
        seq!['-'] + digits
    } else {
        digits
    };
    let start: int = if negative {
        1
    } else {
        0
    };
    assert(is_digit(digits[0]));
    assert(token.subrange(start, token.len() as int) =~= digits);
    lemma_run_ends(token, start, digits);
}

/// A number falls into its sign, its digits before the point, those behind it, and its
/// exponent, each as it stands.
pub proof fn law_number_falls_into_its_parts(
    negative: bool,
    whole: Seq<char>,
    frac: Seq<char>,
    mark: char,
    exponent: Option<Seq<char>>,
)
    requires
        all_digits(whole),
        all_digits(frac),
        whole.len() > 0,
        mark == 'e' || mark == 'E',
    ensures
        ({
            let sign = if negative {
                seq!['-']
            } else {
                Seq::empty()
            };
            let point = if frac.len() > 0 {
                seq!['.'] + frac
            } else {
                Seq::empty()
            };
            let tail = match exponent {
                Some(e) => seq![mark] + e,
                None => Seq::empty(),
            };
            let parts = number_parts(sign + whole + point + tail);
            &&& parts.negative == negative
            &&& parts.whole == whole
            &&& parts.frac == frac
            &&& parts.exponent == exponent
        }),
{
    let sign = if negative {
        seq!['-']
    } else {
        Seq::<char>::empty()
    };
    let point = if frac.len() > 0 {
        seq!['.'] + frac
    } else {
        Seq::<char>::empty()
    };
    let tail = match exponent {
        Some(e) => seq![mark] + e,
        None => Seq::<char>::empty(),
    };
    let token = sign + whole + point + tail;
    let a = sign.len() as int;
    let b = a + whole.len();
    let c = b + point.len();
    assert(is_digit(whole[0]));
    assert(token[a] == whole[0]);
    assert(token.subrange(a, b) =~= whole);
    if frac.len() > 0 {
        assert(token[b] == '.');
    } else if exponent is Some {
        assert(token[b] == mark);
    }
    lemma_run_ends(token, a, whole);
    if frac.len() > 0 {
        assert(token.subrange(b + 1, c) =~= frac);
        if exponent is Some {
            assert(token[c] == mark);
        }
        lemma_run_ends(token, b + 1, frac);
    }
    if let Some(e) = exponent {
        assert(token[c] == mark);
        assert(token.skip(c + 1) =~= e);
    } else {
        assert(token.len() == c);
    }
    assert(number_parts(token).frac =~= frac);
}

/// An exponent counts up without a sign or with a plus, and down with a minus.
pub proof fn law_exponent_counts_by_its_sign(n: nat)
    ensures
        signed_value(decimal(n)) == Some(n as int),
        signed_value(seq!['+'] + decimal(n)) == Some(n as int),
        signed_value(seq!['-'] + decimal(n)) == Some(-(n as int)),
        signed_value(Seq::<char>::empty()) is None,
{
    let d = decimal(n);
    crate::words::lemma_decimal_reads_back(n);
    assert(is_digit(d[0]));
    assert((seq!['+'] + d).skip(1) =~= d);
    assert((seq!['-'] + d).skip(1) =~= d);
}

/// An integer keeps its digits, with the zeros before them left out, up to two to the
/// power of fifty-three, less one; above it is refused, and so it is with a minus sign.
/// Nothing has no sign.
pub proof fn law_integer_keeps_its_digits(n: nat, negative: bool, path: Seq<char>)
    ensures
        ({
            let token = if negative {
                seq!['-'] + decimal(n)
            } else {
                decimal(n)
            };
            let got = canonical_number_of(token, path);
            &&& got is Ok <==> n <= 9_007_199_254_740_991
            &&& n == 0 ==> got == Ok::<Seq<char>, Fault>("0"@)
            &&& 0 < n <= 9_007_199_254_740_991 ==> got == Ok::<Seq<char>, Fault>(token)
            &&& n > 9_007_199_254_740_991 && n < 1_000_000_000_000_000_000_000 ==> got == Err::<
                Seq<char>,
                Fault,
            >(Fault::UnsafeInteger { path, value: token })
            &&& n >= 1_000_000_000_000_000_000_000 ==> got == Err::<Seq<char>, Fault>(
                Fault::OutOfPlainRange { path, token },
            )
        }),
{
    let digits = decimal(n);
    let token = if negative {
        seq!['-'] + digits
    } else {
        digits
    };
    crate::words::lemma_decimal_reads_back(n);
    lemma_integer_parts(negative, digits);
    let none = Seq::<char>::empty();
    assert(number_parts(token).whole + number_parts(token).frac =~= digits);
    let whole = crate::storage::canonical::whole_digits(digits, digits.len() as int);
    let fraction = crate::storage::canonical::fraction_digits(digits, digits.len() as int);
    assert(whole =~= digits);
    assert(fraction =~= none);
    law_number_is_refused_iff_it_is_out_of_range(token, path, negative, true, digits, none);
    assert(canonical_number_of(token, path) == spelled(
        token,
        path,
        negative,
        true,
        digits,
        none,
    ));
    if 0 < n <= 9_007_199_254_740_991 {
        lemma_decimal_start(n);
        assert(trim_front_zeros(digits) == digits);
        assert(trim_back_zeros(none) == none);
        reveal_strlit("-");
        reveal_strlit("");
        assert(number_text(negative, digits, none) =~= token);
    }
}

/// A number other than nothing starts with no zero.
proof fn lemma_decimal_start(n: nat)
    requires
        n > 0,
    ensures
        decimal(n).len() > 0,
        decimal(n)[0] != '0',
    decreases n,
{
    if n >= 10 {
        lemma_decimal_start(n / 10);
    }
}

/// The first key that is not plain.
proof fn lemma_foreign(keys: Seq<Seq<char>>, i: int)
    requires
        0 <= i <= keys.len(),
    ensures
        i <= first_non_ascii(keys, i) <= keys.len(),
        forall|k: int| i <= k < first_non_ascii(keys, i) ==> is_ascii_chars(#[trigger] keys[k]),
        first_non_ascii(keys, i) < keys.len() ==> !is_ascii_chars(keys[first_non_ascii(keys, i)]),
    decreases keys.len() - i,
{
    if i < keys.len() && is_ascii_chars(keys[i]) {
        lemma_foreign(keys, i + 1);
    }
}

/// A character of a code below 128 is ASCII.
proof fn lemma_plain_char(c: char)
    requires
        c as u32 <= 127,
    ensures
        '\0' <= c <= '\u{7f}',
{
}

/// A text of codes below 128 is ASCII.
proof fn lemma_plain(key: Seq<char>)
    requires
        forall|c: int| 0 <= c < key.len() ==> #[trigger] key[c] as u32 <= 127,
    ensures
        is_ascii_chars(key),
{
    assert forall|c: int| 0 <= c < key.len() implies '\0' <= #[trigger] key[c] <= '\u{7f}' by {
        lemma_plain_char(key[c]);
    }
}

/// An object that says a key twice has no canonical text, nor has one with a key beyond
/// ASCII: the first such key is named, and comes before a repeated one.
pub proof fn law_object_is_refused_for_its_keys(
    entries: Seq<(Seq<char>, Json)>,
    path: Seq<char>,
    i: int,
    j: int,
    k: int,
)
    requires
        0 <= i < entries.len(),
        0 <= j < entries.len(),
    ensures
        i != j && entries[i].0 == entries[j].0 ==> canonical_at(Json::Object(entries), path) is Err,
        0 <= k < entries[i].0.len() && entries[i].0[k] as u32 > 127 ==> (canonical_at(
            Json::Object(entries),
            path,
        ) matches Err(Fault::NonAsciiKey { path: at, key }) && at == path && exists|m: int|
            0 <= m <= i && key == (#[trigger] entries[m]).0),
        i != j && entries[i].0 == entries[j].0 && (forall|m: int, c: int|
            0 <= m < entries.len() && 0 <= c < entries[m].0.len() ==> #[trigger] entries[m].0[c]
                as u32 <= 127) ==> canonical_at(Json::Object(entries), path)->Err_0
            is DuplicateKey,
{
    let keys = keys_of(entries);
    lemma_foreign(keys, 0);
    let foreign = first_non_ascii(keys, 0);
    reveal(canonical_at);
    if 0 <= k < entries[i].0.len() && entries[i].0[k] as u32 > 127 {
        assert(!is_ascii_chars(keys[i]));
        if foreign > i {
            assert(is_ascii_chars(keys[i]));
        }
        assert(keys[foreign] == entries[foreign].0);
    }
    if i != j && entries[i].0 == entries[j].0 {
        assert(!keys_distinct(entries));
        law_key_order_sorts(keys);
        if first_repeat(keys, key_order(keys), 0) + 1 >= entries.len() {
            lemma_distinct(entries);
        }
    }
    if forall|m: int, c: int|
        0 <= m < entries.len() && 0 <= c < entries[m].0.len() ==> #[trigger] entries[m].0[c] as u32
            <= 127 {
        if foreign < keys.len() {
            let key = keys[foreign];
            assert(key == entries[foreign].0);
            assert forall|c: int| 0 <= c < key.len() implies #[trigger] key[c] as u32 <= 127 by {
                assert(entries[foreign].0[c] as u32 <= 127);
            }
            lemma_plain(key);
        }
    }
}

} // verus!
