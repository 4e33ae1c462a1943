//! What holds of texts that are ordered, taken apart and put together.

use crate::text::{all_digits, decimal, digits_value, is_digit, text_less};
use crate::words::{
    alnum_only, bounded_value, index_of, joined, lemma_decimal_reads_back, lemma_index_of,
    parts_from, parts_of,
};
use vstd::prelude::*;

verus! {

/// The first place in which a text that comes before another differs from it.
proof fn lemma_difference(a: Seq<char>, b: Seq<char>) -> (p: int)
    requires
        text_less(a, b),
    ensures
        0 <= p <= a.len(),
        p < b.len(),
        forall|k: int| 0 <= k < p ==> #[trigger] a[k] == b[k],
        p == a.len() || a[p] < b[p],
    decreases a.len(),
{
    if a.len() > 0 && a[0] == b[0] {
        let (x, y) = (a.skip(1), b.skip(1));
        let p = lemma_difference(x, y);
        assert forall|k: int| 0 <= k < p + 1 implies #[trigger] a[k] == b[k] by {
            if k > 0 {
                assert(x[k - 1] == y[k - 1]);
            }
        }
        p + 1
    } else {
        0
    }
}

/// A text whose first difference from another is in order comes before it.
proof fn lemma_difference_decides(a: Seq<char>, b: Seq<char>, p: int)
    requires
        0 <= p <= a.len(),
        p < b.len(),
        forall|k: int| 0 <= k < p ==> #[trigger] a[k] == b[k],
        p == a.len() || a[p] < b[p],
    ensures
        text_less(a, b),
    decreases p,
{
    if p > 0 {
        assert(a[0] == b[0]);
        let (x, y) = (a.skip(1), b.skip(1));
        assert forall|k: int| 0 <= k < p - 1 implies #[trigger] x[k] == y[k] by {
            assert(a[k + 1] == b[k + 1]);
        }
        lemma_difference_decides(x, y, p - 1);
    }
}

/// One text comes before another exactly where it is a shorter start of it, or where
/// the first characters in which they differ are in that order.
pub proof fn law_order_is_that_of_the_first_difference(a: Seq<char>, b: Seq<char>)
    ensures
        text_less(a, b) <==> exists|p: int|
            0 <= p <= a.len() && p < b.len() && #[trigger] a.take(p) == b.take(p) && (p == a.len()
                || a[p] < b[p]),
{
    if text_less(a, b) {
        let p = lemma_difference(a, b);
        assert(a.take(p) =~= b.take(p));
    }
    if exists|p: int|
        0 <= p <= a.len() && p < b.len() && #[trigger] a.take(p) == b.take(p) && (p == a.len()
            || a[p] < b[p]) {
        let p = choose|p: int|
            0 <= p <= a.len() && p < b.len() && #[trigger] a.take(p) == b.take(p) && (p == a.len()
                || a[p] < b[p]);
        assert forall|k: int| 0 <= k < p implies #[trigger] a[k] == b[k] by {
            assert(a.take(p)[k] == b.take(p)[k]);
        }
        lemma_difference_decides(a, b, p);
    }
}

/// The parts of a text, with the separator between each two, are the text again, and
/// none of them holds the separator.
pub proof fn law_parts_are_the_text(s: Seq<char>, sep: char)
    ensures
        joined(parts_of(s, sep), seq![sep]) == s,
        parts_of(s, sep).len() > 0,
        forall|i: int, k: int|
            0 <= i < parts_of(s, sep).len() && 0 <= k < parts_of(s, sep)[i].len()
                ==> #[trigger] parts_of(s, sep)[i][k] != sep,
{
    lemma_parts_rest(s, sep, 0);
    assert(s.skip(0) =~= s);
}

/// The same of what stands from a place on.
proof fn lemma_parts_rest(s: Seq<char>, sep: char, p: int)
    requires
        0 <= p <= s.len(),
    ensures
        joined(parts_from(s, sep, p), seq![sep]) == s.skip(p),
        parts_from(s, sep, p).len() > 0,
        forall|i: int, k: int|
            0 <= i < parts_from(s, sep, p).len() && 0 <= k < parts_from(s, sep, p)[i].len()
                ==> #[trigger] parts_from(s, sep, p)[i][k] != sep,
    decreases s.len() - p,
{
    let q = index_of(s, sep, p);
    lemma_index_of(s, sep, p);
    let all = parts_from(s, sep, p);
    if q < s.len() {
        let rest = parts_from(s, sep, q + 1);
        lemma_parts_rest(s, sep, q + 1);
        let first = s.subrange(p, q);
        assert(all =~= seq![first] + rest);
        lemma_joined_first(first, rest, seq![sep]);
        assert(first + seq![sep] + s.skip(q + 1) =~= s.skip(p));
        assert forall|i: int, k: int| 0 <= i < all.len() && 0 <= k < all[i].len() implies
            #[trigger] all[i][k] != sep by {
            if i > 0 {
                assert(all[i] == rest[i - 1]);
                assert(rest[i - 1][k] != sep);
            } else {
                assert(all[0][k] == s[p + k]);
            }
        }
    } else {
        assert(s.subrange(p, s.len() as int) =~= s.skip(p));
        assert forall|i: int, k: int| 0 <= i < all.len() && 0 <= k < all[i].len() implies
            #[trigger] all[i][k] != sep by {
            assert(all[0][k] == s[p + k]);
        }
    }
}

/// Joined texts, taken from their front.
proof fn lemma_joined_first(first: Seq<char>, rest: Seq<Seq<char>>, sep: Seq<char>)
    requires
        rest.len() > 0,
    ensures
        joined(seq![first] + rest, sep) == first + sep + joined(rest, sep),
    decreases rest.len(),
{
    let all = seq![first] + rest;
    if rest.len() == 1 {
        assert(all.drop_last() =~= seq![first]);
        assert(joined(seq![first], sep) == first);
        assert(all.last() == rest[0]);
    } else {
        lemma_joined_first(first, rest.drop_last(), sep);
        assert(all.drop_last() =~= seq![first] + rest.drop_last());
        assert(joined(all, sep) =~= first + sep + joined(rest, sep));
    }
}

/// Texts are joined one behind the other, with the separator between two and nowhere
/// else.
pub proof fn law_joined_texts_stand_in_order(
    parts: Seq<Seq<char>>,
    more: Seq<Seq<char>>,
    one: Seq<char>,
    sep: Seq<char>,
)
    ensures
        joined(Seq::<Seq<char>>::empty(), sep).len() == 0,
        joined(seq![one], sep) == one,
        parts.len() > 0 && more.len() > 0 ==> joined(parts + more, sep) == joined(parts, sep) + sep
            + joined(more, sep),
    decreases more.len(),
{
    if parts.len() > 0 && more.len() > 0 {
        let front = more.drop_last();
        assert((parts + more).drop_last() =~= parts + front);
        assert((parts + more).last() == more.last());
        if front.len() > 0 {
            law_joined_texts_stand_in_order(parts, front, one, sep);
            assert(joined(parts + more, sep) =~= joined(parts, sep) + sep + joined(more, sep));
        } else {
            assert(parts + front =~= parts);
            assert(more =~= seq![more[0]]);
        }
    }
}

/// Of a text the ASCII letters and digits are kept, in their order, and nothing else.
pub proof fn law_letters_and_digits_are_kept(a: Seq<char>, b: Seq<char>, c: char)
    ensures
        alnum_only(a + b) == alnum_only(a) + alnum_only(b),
        alnum_only(seq![c]) == (if ('0' <= c && c <= '9') || ('a' <= c && c <= 'z') || ('A' <= c
            && c <= 'Z') {
            seq![c]
        } else {
            Seq::empty()
        }),
        alnum_only(Seq::<char>::empty()).len() == 0,
    decreases b.len(),
{
    assert(seq![c].drop_last() =~= Seq::<char>::empty());
    reveal_with_fuel(alnum_only, 2);
    assert(Seq::<char>::empty().push(c) =~= seq![c]);
    assert(alnum_only(seq![c]) =~= (if ('0' <= c && c <= '9') || ('a' <= c && c <= 'z') || ('A' <= c
        && c <= 'Z') {
        seq![c]
    } else {
        Seq::empty()
    }));
    if b.len() > 0 {
        law_letters_and_digits_are_kept(a, b.drop_last(), c);
        assert((a + b).drop_last() =~= a + b.drop_last());
        assert(alnum_only(a + b) =~= alnum_only(a) + alnum_only(b));
    } else {
        assert(a + b =~= a);
        assert(alnum_only(a) + alnum_only(b) =~= alnum_only(a));
    }
}

/// A number is read from its digits, with at most one plus before them, and from
/// nothing else; one that is too large is no number.
pub proof fn law_number_is_read_from_its_digits(n: nat, s: Seq<char>, max: nat)
    ensures
        bounded_value(decimal(n), max) == (if n <= max {
            Some(n)
        } else {
            None
        }),
        bounded_value(seq!['+'] + decimal(n), max) == (if n <= max {
            Some(n)
        } else {
            None
        }),
        bounded_value(s, max) is Some ==> {
            let digits = if s[0] == '+' {
                s.skip(1)
            } else {
                s
            };
            &&& digits.len() > 0
            &&& all_digits(digits)
            &&& digits_value(digits) == bounded_value(s, max)->0 <= max
        },
        s.len() == 0 ==> bounded_value(s, max) is None,
{
    lemma_decimal_reads_back(n);
    let signed = seq!['+'] + decimal(n);
    assert(signed.skip(1) =~= decimal(n));
    assert(signed[0] == '+');
    assert(is_digit(decimal(n)[0]));
}

} // verus!
