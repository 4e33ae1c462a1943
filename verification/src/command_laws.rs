//! What the runners make of their arguments.

use crate::options::{
    asked_from, family_fault, items_in, items_of, levels_in, levels_of, parsed_profile, size_of,
    sizes_in, sizes_of, sweep_from, Asked, SweepAsked,
};
use crate::storage::admission_laws::law_trimming_takes_white_space_alone;
use crate::storage::aggregate::{said_from, Asked as DoorAsked, Said};
use crate::storage::cells::Profile;
use crate::text::{decimal, is_digit};
use crate::words::{
    bounded_value, is_white, lemma_decimal_reads_back, lemma_index_is, lemma_parts_push, parts_of,
    trimmed,
};
use crate::words_laws::law_number_is_read_from_its_digits;
use vstd::prelude::*;

verus! {

/// The words that the door knows are all different.
proof fn lemma_door_words()
    ensures
        "--check"@ != "--archive"@,
        "--check"@ != "--verify"@,
        "--archive"@ != "--verify"@,
        "--provenance"@ != "--check"@,
        "--provenance"@ != "--archive"@,
        "--provenance"@ != "--verify"@,
        "--root"@ != "--check"@,
        "--root"@ != "--archive"@,
        "--root"@ != "--verify"@,
        "--root"@ != "--provenance"@,
        "--scratch"@ != "--check"@,
        "--scratch"@ != "--archive"@,
        "--scratch"@ != "--verify"@,
        "--scratch"@ != "--provenance"@,
        "--scratch"@ != "--root"@,
        "--help"@ != "--check"@,
        "--help"@ != "--archive"@,
        "--help"@ != "--verify"@,
        "--help"@ != "--provenance"@,
        "--help"@ != "--root"@,
        "--help"@ != "--scratch"@,
{
    reveal_strlit("--check");
    reveal_strlit("--archive");
    reveal_strlit("--verify");
    reveal_strlit("--provenance");
    reveal_strlit("--root");
    reveal_strlit("--scratch");
    reveal_strlit("--help");
    assert("--check"@.len() == 7 && "--archive"@.len() == 9 && "--verify"@.len() == 8);
    assert("--provenance"@.len() == 12 && "--root"@.len() == 6 && "--scratch"@.len() == 9);
    assert("--help"@.len() == 6);
    assert("--archive"@[2] == 'a' && "--scratch"@[2] == 's');
    assert("--root"@[2] == 'r' && "--help"@[2] == 'h');
}

/// The door does to a document what its mode says: checks it, files it, under the
/// given directory where one is given, before or behind it, or verifies it.
pub proof fn law_door_does_what_its_mode_says(
    document: Seq<char>,
    dir: Seq<char>,
    temp: Seq<char>,
)
    ensures
        ({
            let said = Said { mode: None, root: None, scratch: temp };
            &&& said_from(seq!["--check"@, document], 0, said) == Ok::<DoorAsked, Seq<char>>(
                DoorAsked::Check { document },
            )
            &&& said_from(seq!["--verify"@, document], 0, said) == Ok::<DoorAsked, Seq<char>>(
                DoorAsked::Verify { document },
            )
            &&& said_from(seq!["--archive"@, document], 0, said) == Ok::<DoorAsked, Seq<char>>(
                DoorAsked::Archive { document, root: None },
            )
            &&& said_from(seq!["--archive"@, document, "--root"@, dir], 0, said) == Ok::<
                DoorAsked,
                Seq<char>,
            >(DoorAsked::Archive { document, root: Some(dir) })
            &&& said_from(seq!["--root"@, dir, "--archive"@, document], 0, said) == Ok::<
                DoorAsked,
                Seq<char>,
            >(DoorAsked::Archive { document, root: Some(dir) })
            &&& said_from(seq!["--provenance"@], 0, said) == Ok::<DoorAsked, Seq<char>>(
                DoorAsked::Provenance { scratch: temp },
            )
            &&& said_from(seq!["--provenance"@, "--scratch"@, dir], 0, said) == Ok::<
                DoorAsked,
                Seq<char>,
            >(DoorAsked::Provenance { scratch: dir })
        }),
{
    lemma_door_words();
    reveal_with_fuel(said_from, 4);
}

/// The door refuses an invocation without a mode, with two of them, with a mode or an
/// option that lacks its value, and with a word that it does not know.
pub proof fn law_door_refuses_what_it_cannot_read(
    document: Seq<char>,
    other: Seq<char>,
    word: Seq<char>,
    temp: Seq<char>,
)
    ensures
        ({
            let said = Said { mode: None, root: None, scratch: temp };
            &&& said_from(Seq::<Seq<char>>::empty(), 0, said) is Err
            &&& said_from(seq!["--root"@, other], 0, said) is Err
            &&& said_from(seq!["--check"@], 0, said) is Err
            &&& said_from(seq!["--archive"@], 0, said) is Err
            &&& said_from(seq!["--verify"@], 0, said) is Err
            &&& said_from(seq!["--root"@], 0, said) is Err
            &&& said_from(seq!["--scratch"@], 0, said) is Err
            &&& said_from(seq!["--check"@, document, "--archive"@, other], 0, said) is Err
            &&& said_from(seq!["--verify"@, document, "--check"@, other], 0, said) is Err
            &&& said_from(seq!["--archive"@, document, "--provenance"@], 0, said) is Err
            &&& said_from(seq!["--provenance"@, "--verify"@, document], 0, said) is Err
            &&& word != "--check"@ && word != "--archive"@ && word != "--verify"@ && word
                != "--provenance"@ && word != "--root"@ && word != "--scratch"@ && word != "-h"@
                && word != "--help"@ ==> said_from(seq![word], 0, said) is Err && said_from(
                seq!["--check"@, document, word],
                0,
                said,
            ) is Err
            &&& said_from(seq!["--help"@], 0, said) == Ok::<DoorAsked, Seq<char>>(DoorAsked::Help)
        }),
{
    lemma_door_words();
    reveal_with_fuel(said_from, 4);
}

/// The words of the sweep are all different.
proof fn lemma_sweep_words()
    ensures
        "--family"@ != "--profile"@,
        "--family"@ != "--out"@,
        "--profile"@ != "--out"@,
        "ci"@ != "full"@,
        "ci"@ != "xl"@,
        "full"@ != "xl"@,
        "storage"@ != "engines"@,
        "storage"@ != "vips"@,
{
    reveal_strlit("--family");
    reveal_strlit("--profile");
    reveal_strlit("--out");
    reveal_strlit("ci");
    reveal_strlit("full");
    reveal_strlit("xl");
    reveal_strlit("storage");
    reveal_strlit("engines");
    reveal_strlit("vips");
    assert("--family"@.len() == 8 && "--profile"@.len() == 9 && "--out"@.len() == 5);
    assert("ci"@.len() == 2 && "full"@.len() == 4 && "xl"@.len() == 2);
    assert("ci"@[0] == 'c' && "xl"@[0] == 'x');
    assert("storage"@.len() == 7 && "engines"@.len() == 7 && "vips"@.len() == 4);
    assert("storage"@[0] == 's' && "engines"@[0] == 'e');
}

/// A sweep measures the storage family and no other, in the profile that is asked for
/// or the given one where none is, and writes where it is told.
pub proof fn law_sweep_does_what_it_is_asked(
    given: Profile,
    path: Seq<char>,
    name: Seq<char>,
    word: Seq<char>,
)
    ensures
        sweep_from(Seq::<Seq<char>>::empty(), 0, given, None) == Ok::<SweepAsked, Seq<char>>(
            SweepAsked::Sweep { profile: given, out: None },
        ),
        sweep_from(seq!["--out"@, path], 0, given, None) == Ok::<SweepAsked, Seq<char>>(
            SweepAsked::Sweep { profile: given, out: Some(path) },
        ),
        sweep_from(seq!["--profile"@, "ci"@, "--out"@, path], 0, given, None) == Ok::<
            SweepAsked,
            Seq<char>,
        >(SweepAsked::Sweep { profile: Profile::Ci, out: Some(path) }),
        sweep_from(seq!["--out"@, path, "--profile"@, "full"@], 0, given, None) == Ok::<
            SweepAsked,
            Seq<char>,
        >(SweepAsked::Sweep { profile: Profile::Full, out: Some(path) }),
        sweep_from(seq!["--profile"@, "xl"@], 0, given, None) == Ok::<SweepAsked, Seq<char>>(
            SweepAsked::Sweep { profile: Profile::Xl, out: None },
        ),
        sweep_from(seq!["--profile"@, name], 0, given, None) is Ok <==> name == "ci"@ || name
            == "full"@ || name == "xl"@,
        sweep_from(seq!["--family"@, name], 0, given, None) is Ok <==> name == "storage"@,
        sweep_from(seq!["--family"@], 0, given, None) is Err,
        sweep_from(seq!["--profile"@], 0, given, None) is Err,
        sweep_from(seq!["--out"@], 0, given, None) is Err,
        word != "--family"@ && word != "--profile"@ && word != "--out"@ && word != "-h"@ && word
            != "--help"@ ==> sweep_from(seq![word], 0, given, None) is Err,
        family_fault(name) is None <==> name == "storage"@,
        parsed_profile(name) == Some(Profile::Ci) <==> name == "ci"@,
        parsed_profile(name) == Some(Profile::Full) <==> name == "full"@,
        parsed_profile(name) == Some(Profile::Xl) <==> name == "xl"@,
{
    lemma_sweep_words();
    reveal_with_fuel(sweep_from, 4);
}

/// The items of two lists, one behind the other.
proof fn lemma_items_add(a: Seq<Seq<char>>, b: Seq<Seq<char>>, n: int)
    requires
        0 <= n <= b.len(),
    ensures
        items_in(a + b, a.len() + n) == items_in(a, a.len() as int) + items_in(b, n),
    decreases n,
{
    if n > 0 {
        lemma_items_add(a, b, n - 1);
        assert((a + b)[a.len() + n - 1] == b[n - 1]);
        assert(items_in(a + b, a.len() + n) =~= items_in(a, a.len() as int) + items_in(b, n));
    } else {
        lemma_items_front(a, b, a.len() as int);
        assert(items_in(a, a.len() as int) + items_in(b, 0) =~= items_in(a, a.len() as int));
    }
}

/// The first items do not depend on what follows.
proof fn lemma_items_front(a: Seq<Seq<char>>, b: Seq<Seq<char>>, n: int)
    requires
        0 <= n <= a.len(),
    ensures
        items_in(a + b, n) == items_in(a, n),
    decreases n,
{
    if n > 0 {
        lemma_items_front(a, b, n - 1);
        assert((a + b)[n - 1] == a[n - 1]);
    }
}

/// A list is split at its commas and each item trimmed, and what is empty then is no
/// item: one more item behind a comma is one more at the end.
pub proof fn law_list_is_split_at_its_commas(list: Seq<char>, item: Seq<char>)
    requires
        forall|k: int| 0 <= k < item.len() ==> #[trigger] item[k] != ',',
    ensures
        items_of(item) == (if trimmed(item).len() > 0 {
            seq![trimmed(item)]
        } else {
            Seq::empty()
        }),
        items_of(list + ","@ + item) == items_of(list) + items_of(item),
{
    reveal_strlit(",");
    lemma_index_is(item, ',', 0, item.len() as int);
    assert(item.subrange(0, item.len() as int) =~= item);
    let one = parts_of(item, ',');
    assert(one =~= seq![item]);
    reveal_with_fuel(items_in, 2);
    assert(items_of(item) =~= (if trimmed(item).len() > 0 {
        seq![trimmed(item)]
    } else {
        Seq::empty()
    }));
    lemma_parts_push(list, ',', item, 0);
    assert(list + ","@ + item =~= list + seq![','] + item);
    let before = parts_of(list, ',');
    assert(before.push(item) =~= before + one);
    lemma_items_add(before, one, 1);
}

/// A text of digits is its own trimmed text.
proof fn lemma_number_is_trimmed(n: nat)
    ensures
        trimmed(decimal(n)) == decimal(n),
{
    let s = decimal(n);
    lemma_decimal_reads_back(n);
    law_trimming_takes_white_space_alone(s);
    let (a, b) = choose|a: int, b: int|
        0 <= a <= b <= s.len() && trimmed(s) == #[trigger] s.subrange(a, b) && (forall|k: int|
            0 <= k < a || b <= k < s.len() ==> is_white(#[trigger] s[k]));
    assert(is_digit(s[0]) && is_digit(s[s.len() - 1]));
    if a > 0 {
        assert(is_white(s[0]));
    }
    if b < s.len() {
        assert(is_white(s[s.len() - 1]));
    }
    assert(s.subrange(a, b) =~= s);
}

/// A size is a width and a height with an `x` between them, small or large; a text
/// without one is no size.
pub proof fn law_size_is_width_by_height(w: u32, h: u32, pair: Seq<char>)
    ensures
        size_of(decimal(w as nat) + "x"@ + decimal(h as nat)) == Ok::<(u32, u32), Seq<char>>((w, h)),
        size_of(decimal(w as nat) + "X"@ + decimal(h as nat)) == Ok::<(u32, u32), Seq<char>>((w, h)),
        size_of(pair) is Ok ==> exists|k: int|
            0 <= k < pair.len() && (#[trigger] pair[k] == 'x' || pair[k] == 'X'),
{
    reveal_strlit("x");
    reveal_strlit("X");
    lemma_size(w, h, 'x');
    lemma_size(w, h, 'X');
    assert(decimal(w as nat) + "x"@ + decimal(h as nat) =~= decimal(w as nat) + seq!['x'] + decimal(
        h as nat,
    ));
    assert(decimal(w as nat) + "X"@ + decimal(h as nat) =~= decimal(w as nat) + seq!['X'] + decimal(
        h as nat,
    ));
    lemma_cross(pair, 0);
}

/// A cross that is found is one.
proof fn lemma_cross(s: Seq<char>, p: int)
    requires
        0 <= p <= s.len(),
    ensures
        p <= crate::options::cross_at(s, p) <= s.len(),
        crate::options::cross_at(s, p) < s.len() ==> (s[crate::options::cross_at(s, p)] == 'x'
            || s[crate::options::cross_at(s, p)] == 'X'),
    decreases s.len() - p,
{
    if p < s.len() && s[p] != 'x' && s[p] != 'X' {
        lemma_cross(s, p + 1);
    }
}

/// Digits hold no cross.
proof fn lemma_cross_behind(s: Seq<char>, p: int, q: int)
    requires
        0 <= p <= q < s.len(),
        forall|k: int| p <= k < q ==> is_digit(#[trigger] s[k]),
        s[q] == 'x' || s[q] == 'X',
    ensures
        crate::options::cross_at(s, p) == q,
    decreases q - p,
{
    if p < q {
        assert(is_digit(s[p]));
        lemma_cross_behind(s, p + 1, q);
    }
}

/// A size with either cross.
proof fn lemma_size(w: u32, h: u32, c: char)
    requires
        c == 'x' || c == 'X',
    ensures
        size_of(decimal(w as nat) + seq![c] + decimal(h as nat)) == Ok::<(u32, u32), Seq<char>>(
            (w, h),
        ),
{
    let (a, b) = (decimal(w as nat), decimal(h as nat));
    let s = a + seq![c] + b;
    lemma_decimal_reads_back(w as nat);
    lemma_decimal_reads_back(h as nat);
    assert forall|k: int| 0 <= k < a.len() implies is_digit(#[trigger] s[k]) by {
        assert(is_digit(a[k]));
    }
    lemma_cross_behind(s, 0, a.len() as int);
    assert(s.take(a.len() as int) =~= a);
    assert(s.skip(a.len() as int + 1) =~= b);
    lemma_number_is_trimmed(w as nat);
    lemma_number_is_trimmed(h as nat);
    law_number_is_read_from_its_digits(w as nat, a, u32::MAX as nat);
    law_number_is_read_from_its_digits(h as nat, b, u32::MAX as nat);
}

/// A list of sizes is read exactly where each of its items is a size, and in their
/// order; so is a list of thread counts, each a number.
pub proof fn law_lists_are_read_item_by_item(items: Seq<Seq<char>>, n: int)
    requires
        0 <= n <= items.len(),
    ensures
        sizes_in(items, n) is Ok <==> forall|i: int|
            0 <= i < n ==> size_of(#[trigger] items[i]) is Ok,
        sizes_in(items, n) matches Ok(sizes) ==> sizes.len() == n && forall|i: int|
            0 <= i < n ==> #[trigger] sizes[i] == size_of(items[i])->Ok_0,
        levels_in(items, n) is Ok <==> forall|i: int|
            0 <= i < n ==> bounded_value(#[trigger] items[i], usize::MAX as nat) is Some,
        levels_in(items, n) matches Ok(levels) ==> levels.len() == n && forall|i: int|
            0 <= i < n ==> #[trigger] levels[i] as nat == bounded_value(
                items[i],
                usize::MAX as nat,
            )->0,
    decreases n,
{
    if n > 0 {
        law_lists_are_read_item_by_item(items, n - 1);
        if forall|i: int| 0 <= i < n ==> size_of(#[trigger] items[i]) is Ok {
            assert(size_of(items[n - 1]) is Ok);
        }
        if forall|i: int|
            0 <= i < n ==> bounded_value(#[trigger] items[i], usize::MAX as nat) is Some {
            assert(bounded_value(items[n - 1], usize::MAX as nat) is Some);
        }
    }
}

/// The words of the release runner are all different.
proof fn lemma_release_words()
    ensures
        "--versions"@ != "--history"@,
        "--versions"@ != "--sizes"@,
        "--versions"@ != "--concurrency"@,
        "--history"@ != "--sizes"@,
        "--history"@ != "--concurrency"@,
        "--sizes"@ != "--concurrency"@,
{
    reveal_strlit("--versions");
    reveal_strlit("--history");
    reveal_strlit("--sizes");
    reveal_strlit("--concurrency");
    assert("--versions"@.len() == 10 && "--history"@.len() == 9 && "--sizes"@.len() == 7);
    assert("--concurrency"@.len() == 13);
}

/// The release runner needs versions, and takes the history, the sizes and the thread
/// counts that it is given, or the defaults where it is given none.
pub proof fn law_release_runner_takes_what_it_is_given(
    start: Asked,
    versions: Seq<char>,
    history: Seq<char>,
    sizes: Seq<char>,
    levels: Seq<char>,
    word: Seq<char>,
)
    requires
        start.versions is None,
    ensures
        asked_from(Seq::<Seq<char>>::empty(), 0, start) is Err,
        asked_from(seq!["--history"@, history], 0, start) is Err,
        asked_from(seq!["--versions"@, versions], 0, start) is Ok <==> items_of(versions).len() > 0,
        items_of(versions).len() > 0 ==> {
            let named = Asked { versions: Some(items_of(versions)), ..start };
            &&& asked_from(seq!["--versions"@, versions], 0, start) == Ok::<Asked, Seq<char>>(named)
            &&& asked_from(seq!["--versions"@, versions, "--history"@, history], 0, start) == Ok::<
                Asked,
                Seq<char>,
            >(Asked { history, ..named })
            &&& asked_from(seq!["--history"@, history, "--versions"@, versions], 0, start) == Ok::<
                Asked,
                Seq<char>,
            >(Asked { history, ..named })
            &&& asked_from(seq!["--versions"@, versions, "--sizes"@, sizes], 0, start) is Ok
                <==> sizes_of(sizes) is Ok
            &&& sizes_of(sizes) matches Ok(s) ==> asked_from(
                seq!["--versions"@, versions, "--sizes"@, sizes],
                0,
                start,
            ) == Ok::<Asked, Seq<char>>(Asked { sizes: Some(s), ..named })
            &&& asked_from(seq!["--versions"@, versions, "--concurrency"@, levels], 0, start) is Ok
                <==> levels_of(levels) is Ok
            &&& levels_of(levels) matches Ok(l) ==> asked_from(
                seq!["--versions"@, versions, "--concurrency"@, levels],
                0,
                start,
            ) == Ok::<Asked, Seq<char>>(Asked { concurrency: Some(l), ..named })
        },
        asked_from(seq!["--versions"@], 0, start) is Err,
        asked_from(seq!["--history"@], 0, start) is Err,
        asked_from(seq!["--sizes"@], 0, start) is Err,
        asked_from(seq!["--concurrency"@], 0, start) is Err,
        word != "--versions"@ && word != "--history"@ && word != "--sizes"@ && word
            != "--concurrency"@ ==> asked_from(seq![word], 0, start) is Err,
{
    lemma_release_words();
    let none = Seq::<Seq<char>>::empty();
    assert(asked_from(none, 0, start) is Err);
    let alone = seq!["--history"@, history];
    assert(alone[0] == "--history"@ && alone[1] == history);
    assert(asked_from(alone, 2, Asked { history, ..start }) is Err);
    let args = seq!["--versions"@, versions];
    assert(args[0] == "--versions"@ && args[1] == versions);
    if items_of(versions).len() > 0 {
        let named = Asked { versions: Some(items_of(versions)), ..start };
        assert(asked_from(args, 2, named) == Ok::<Asked, Seq<char>>(named));
        lemma_release_pair(start, versions, history, sizes, levels);
        let swapped = seq!["--history"@, history, "--versions"@, versions];
        assert(swapped[0] == "--history"@ && swapped[1] == history && swapped[2] == "--versions"@
            && swapped[3] == versions);
        let later = Asked { history, ..start };
        assert(asked_from(swapped, 0, start) == asked_from(swapped, 2, later));
        assert(asked_from(swapped, 2, later) == asked_from(
            swapped,
            4,
            Asked { history, ..named },
        ));
    }
    assert(seq!["--versions"@][0] == "--versions"@);
    assert(seq!["--history"@][0] == "--history"@);
    assert(seq!["--sizes"@][0] == "--sizes"@);
    assert(seq!["--concurrency"@][0] == "--concurrency"@);
    assert(seq![word][0] == word);
}

/// Versions, and one option behind them.
proof fn lemma_release_pair(
    start: Asked,
    versions: Seq<char>,
    history: Seq<char>,
    sizes: Seq<char>,
    levels: Seq<char>,
)
    requires
        start.versions is None,
        items_of(versions).len() > 0,
    ensures
        ({
            let named = Asked { versions: Some(items_of(versions)), ..start };
            &&& asked_from(seq!["--versions"@, versions, "--history"@, history], 0, start) == Ok::<
                Asked,
                Seq<char>,
            >(Asked { history, ..named })
            &&& asked_from(seq!["--versions"@, versions, "--sizes"@, sizes], 0, start) is Ok
                <==> sizes_of(sizes) is Ok
            &&& sizes_of(sizes) matches Ok(s) ==> asked_from(
                seq!["--versions"@, versions, "--sizes"@, sizes],
                0,
                start,
            ) == Ok::<Asked, Seq<char>>(Asked { sizes: Some(s), ..named })
            &&& asked_from(seq!["--versions"@, versions, "--concurrency"@, levels], 0, start) is Ok
                <==> levels_of(levels) is Ok
            &&& levels_of(levels) matches Ok(l) ==> asked_from(
                seq!["--versions"@, versions, "--concurrency"@, levels],
                0,
                start,
            ) == Ok::<Asked, Seq<char>>(Asked { concurrency: Some(l), ..named })
        }),
{
    lemma_release_words();
    let named = Asked { versions: Some(items_of(versions)), ..start };
    let a = seq!["--versions"@, versions, "--history"@, history];
    assert(a[0] == "--versions"@ && a[1] == versions && a[2] == "--history"@ && a[3] == history);
    assert(asked_from(a, 0, start) == asked_from(a, 2, named));
    assert(asked_from(a, 2, named) == asked_from(a, 4, Asked { history, ..named }));
    let b = seq!["--versions"@, versions, "--sizes"@, sizes];
    assert(b[0] == "--versions"@ && b[1] == versions && b[2] == "--sizes"@ && b[3] == sizes);
    assert(asked_from(b, 0, start) == asked_from(b, 2, named));
    if let Ok(s) = sizes_of(sizes) {
        assert(asked_from(b, 2, named) == asked_from(b, 4, Asked { sizes: Some(s), ..named }));
    }
    let c = seq!["--versions"@, versions, "--concurrency"@, levels];
    assert(c[0] == "--versions"@ && c[1] == versions && c[2] == "--concurrency"@ && c[3] == levels);
    assert(asked_from(c, 0, start) == asked_from(c, 2, named));
    if let Ok(l) = levels_of(levels) {
        assert(asked_from(c, 2, named) == asked_from(c, 4, Asked { concurrency: Some(l), ..named }));
    }
}

} // verus!
