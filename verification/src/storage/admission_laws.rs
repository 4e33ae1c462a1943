//! Which documents are refused, and for what: each code of a refusal, in terms of
//! what the document says.

use crate::storage::archive::{
    all_cell_reasons, assertion_reasons, bool_of, build_reasons, cell_reasons, cells_of,
    cells_reasons, count_of, disagreeing_cells, emulation_reasons, field_reasons,
    filesystem_reasons, filled_text, flag_reasons, integrity_reasons, invocation_reasons, is_set,
    lists_text, named_cell, profile_reasons, refusals_of, reps_reasons, scenario_reasons,
    source_reasons, text_in, tree_reasons, unstamped_cells, value_at, walk, Reason,
};
use crate::storage::integrity::{digests_of, findings_of, lemma_key_index, lines_of, stated_seal};
use crate::storage::integrity_laws::law_verifies_iff_all_four_hold;
use crate::storage::json::{lookup, Json};
use crate::text::{all_digits, decimal, digits_value};
use crate::words::{
    contains_word, has_prefix, is_white, lemma_index_is, parts_of, trimmed, trimmed_back,
    trimmed_front,
};
use vstd::prelude::*;

verus! {

/// Whether a reason with this code is among some reasons.
pub open spec fn has_code(reasons: Seq<Reason>, code: Seq<char>) -> bool {
    exists|i: int| 0 <= i < reasons.len() && (#[trigger] reasons[i]).code == code
}

/// Whether a value is a text that holds more than white space.
pub open spec fn says_something(v: Option<Json>) -> bool {
    v matches Some(Json::Str(s)) && exists|k: int| 0 <= k < s.len() && !is_white(#[trigger] s[k])
}

/// The codes of two parts are those of both.
proof fn lemma_has_code_add(a: Seq<Reason>, b: Seq<Reason>, code: Seq<char>)
    ensures
        has_code(a + b, code) <==> has_code(a, code) || has_code(b, code),
{
    if has_code(a, code) {
        let i = choose|i: int| 0 <= i < a.len() && (#[trigger] a[i]).code == code;
        assert((a + b)[i].code == code);
    }
    if has_code(b, code) {
        let i = choose|i: int| 0 <= i < b.len() && (#[trigger] b[i]).code == code;
        assert((a + b)[a.len() + i].code == code);
    }
    if has_code(a + b, code) {
        let i = choose|i: int| 0 <= i < (a + b).len() && (#[trigger] (a + b)[i]).code == code;
        if i < a.len() {
            assert(a[i].code == code);
        } else {
            assert(b[i - a.len()].code == code);
        }
    }
}

/// One reason has its own code, and no reason has none.
proof fn lemma_has_code_one(r: Reason, code: Seq<char>)
    ensures
        has_code(seq![r], code) <==> r.code == code,
        !has_code(Seq::<Reason>::empty(), code),
{
    assert(seq![r][0] == r);
}

/// The codes are all different.
proof fn lemma_codes_differ()
    ensures
        "emulated"@ != "commit"@,
        "emulated"@ != "dirty"@,
        "emulated"@ != "dirty-not-allowed"@,
        "emulated"@ != "dirty-not-stamped"@,
        "emulated"@ != "debug-build"@,
        "emulated"@ != "perturbing-rustflags"@,
        "emulated"@ != "filesystem"@,
        "emulated"@ != "tmpfs"@,
        "emulated"@ != "invocation"@,
        "emulated"@ != "scenarios-unresolved"@,
        "emulated"@ != "reps-disagree"@,
        "emulated"@ != "no-cells"@,
        "emulated"@ != "unattested-cell"@,
        "emulated"@ != "outcome-without-reason"@,
        "emulated"@ != "integrity"@,
        "commit"@ != "dirty"@,
        "commit"@ != "dirty-not-allowed"@,
        "commit"@ != "dirty-not-stamped"@,
        "commit"@ != "debug-build"@,
        "commit"@ != "perturbing-rustflags"@,
        "commit"@ != "filesystem"@,
        "commit"@ != "tmpfs"@,
        "commit"@ != "invocation"@,
        "commit"@ != "scenarios-unresolved"@,
        "commit"@ != "reps-disagree"@,
        "commit"@ != "no-cells"@,
        "commit"@ != "unattested-cell"@,
        "commit"@ != "outcome-without-reason"@,
        "commit"@ != "integrity"@,
        "dirty"@ != "dirty-not-allowed"@,
        "dirty"@ != "dirty-not-stamped"@,
        "dirty"@ != "debug-build"@,
        "dirty"@ != "perturbing-rustflags"@,
        "dirty"@ != "filesystem"@,
        "dirty"@ != "tmpfs"@,
        "dirty"@ != "invocation"@,
        "dirty"@ != "scenarios-unresolved"@,
        "dirty"@ != "reps-disagree"@,
        "dirty"@ != "no-cells"@,
        "dirty"@ != "unattested-cell"@,
        "dirty"@ != "outcome-without-reason"@,
        "dirty"@ != "integrity"@,
        "dirty-not-allowed"@ != "dirty-not-stamped"@,
        "dirty-not-allowed"@ != "debug-build"@,
        "dirty-not-allowed"@ != "perturbing-rustflags"@,
        "dirty-not-allowed"@ != "filesystem"@,
        "dirty-not-allowed"@ != "tmpfs"@,
        "dirty-not-allowed"@ != "invocation"@,
        "dirty-not-allowed"@ != "scenarios-unresolved"@,
        "dirty-not-allowed"@ != "reps-disagree"@,
        "dirty-not-allowed"@ != "no-cells"@,
        "dirty-not-allowed"@ != "unattested-cell"@,
        "dirty-not-allowed"@ != "outcome-without-reason"@,
        "dirty-not-allowed"@ != "integrity"@,
        "dirty-not-stamped"@ != "debug-build"@,
        "dirty-not-stamped"@ != "perturbing-rustflags"@,
        "dirty-not-stamped"@ != "filesystem"@,
        "dirty-not-stamped"@ != "tmpfs"@,
        "dirty-not-stamped"@ != "invocation"@,
        "dirty-not-stamped"@ != "scenarios-unresolved"@,
        "dirty-not-stamped"@ != "reps-disagree"@,
        "dirty-not-stamped"@ != "no-cells"@,
        "dirty-not-stamped"@ != "unattested-cell"@,
        "dirty-not-stamped"@ != "outcome-without-reason"@,
        "dirty-not-stamped"@ != "integrity"@,
        "debug-build"@ != "perturbing-rustflags"@,
        "debug-build"@ != "filesystem"@,
        "debug-build"@ != "tmpfs"@,
        "debug-build"@ != "invocation"@,
        "debug-build"@ != "scenarios-unresolved"@,
        "debug-build"@ != "reps-disagree"@,
        "debug-build"@ != "no-cells"@,
        "debug-build"@ != "unattested-cell"@,
        "debug-build"@ != "outcome-without-reason"@,
        "debug-build"@ != "integrity"@,
        "perturbing-rustflags"@ != "filesystem"@,
        "perturbing-rustflags"@ != "tmpfs"@,
        "perturbing-rustflags"@ != "invocation"@,
        "perturbing-rustflags"@ != "scenarios-unresolved"@,
        "perturbing-rustflags"@ != "reps-disagree"@,
        "perturbing-rustflags"@ != "no-cells"@,
        "perturbing-rustflags"@ != "unattested-cell"@,
        "perturbing-rustflags"@ != "outcome-without-reason"@,
        "perturbing-rustflags"@ != "integrity"@,
        "filesystem"@ != "tmpfs"@,
        "filesystem"@ != "invocation"@,
        "filesystem"@ != "scenarios-unresolved"@,
        "filesystem"@ != "reps-disagree"@,
        "filesystem"@ != "no-cells"@,
        "filesystem"@ != "unattested-cell"@,
        "filesystem"@ != "outcome-without-reason"@,
        "filesystem"@ != "integrity"@,
        "tmpfs"@ != "invocation"@,
        "tmpfs"@ != "scenarios-unresolved"@,
        "tmpfs"@ != "reps-disagree"@,
        "tmpfs"@ != "no-cells"@,
        "tmpfs"@ != "unattested-cell"@,
        "tmpfs"@ != "outcome-without-reason"@,
        "tmpfs"@ != "integrity"@,
        "invocation"@ != "scenarios-unresolved"@,
        "invocation"@ != "reps-disagree"@,
        "invocation"@ != "no-cells"@,
        "invocation"@ != "unattested-cell"@,
        "invocation"@ != "outcome-without-reason"@,
        "invocation"@ != "integrity"@,
        "scenarios-unresolved"@ != "reps-disagree"@,
        "scenarios-unresolved"@ != "no-cells"@,
        "scenarios-unresolved"@ != "unattested-cell"@,
        "scenarios-unresolved"@ != "outcome-without-reason"@,
        "scenarios-unresolved"@ != "integrity"@,
        "reps-disagree"@ != "no-cells"@,
        "reps-disagree"@ != "unattested-cell"@,
        "reps-disagree"@ != "outcome-without-reason"@,
        "reps-disagree"@ != "integrity"@,
        "no-cells"@ != "unattested-cell"@,
        "no-cells"@ != "outcome-without-reason"@,
        "no-cells"@ != "integrity"@,
        "unattested-cell"@ != "outcome-without-reason"@,
        "unattested-cell"@ != "integrity"@,
        "outcome-without-reason"@ != "integrity"@,
{
    reveal_strlit("emulated");
    reveal_strlit("commit");
    reveal_strlit("dirty");
    reveal_strlit("dirty-not-allowed");
    reveal_strlit("dirty-not-stamped");
    reveal_strlit("debug-build");
    reveal_strlit("perturbing-rustflags");
    reveal_strlit("filesystem");
    reveal_strlit("tmpfs");
    reveal_strlit("invocation");
    reveal_strlit("scenarios-unresolved");
    reveal_strlit("reps-disagree");
    reveal_strlit("no-cells");
    reveal_strlit("unattested-cell");
    reveal_strlit("outcome-without-reason");
    reveal_strlit("integrity");
    assert("emulated"@.len() == 8);
    assert("commit"@.len() == 6);
    assert("dirty"@.len() == 5);
    assert("dirty-not-allowed"@.len() == 17);
    assert("dirty-not-stamped"@.len() == 17);
    assert("debug-build"@.len() == 11);
    assert("perturbing-rustflags"@.len() == 20);
    assert("filesystem"@.len() == 10);
    assert("tmpfs"@.len() == 5);
    assert("invocation"@.len() == 10);
    assert("scenarios-unresolved"@.len() == 20);
    assert("reps-disagree"@.len() == 13);
    assert("no-cells"@.len() == 8);
    assert("unattested-cell"@.len() == 15);
    assert("outcome-without-reason"@.len() == 22);
    assert("integrity"@.len() == 9);
    assert("emulated"@[0] == 'e' && "no-cells"@[0] == 'n');
    assert("dirty"@[0] == 'd' && "tmpfs"@[0] == 't');
    assert("dirty-not-allowed"@[10] == 'a' && "dirty-not-stamped"@[10] == 's');
    assert("perturbing-rustflags"@[0] == 'p' && "scenarios-unresolved"@[0] == 's');
    assert("filesystem"@[0] == 'f' && "invocation"@[0] == 'i');
}

/// What is left of a text without the white space around it.
proof fn lemma_trimmed_front(s: Seq<char>) -> (a: int)
    ensures
        0 <= a <= s.len(),
        trimmed_front(s) == s.skip(a),
        forall|k: int| 0 <= k < a ==> is_white(#[trigger] s[k]),
        a < s.len() ==> !is_white(s[a]),
    decreases s.len(),
{
    if s.len() > 0 && is_white(s[0]) {
        let a = lemma_trimmed_front(s.skip(1));
        assert(s.skip(1).skip(a) =~= s.skip(a + 1));
        assert forall|k: int| 0 <= k < a + 1 implies is_white(#[trigger] s[k]) by {
            if k > 0 {
                assert(s.skip(1)[k - 1] == s[k]);
            }
        }
        if a + 1 < s.len() {
            assert(s.skip(1)[a] == s[a + 1]);
        }
        a + 1
    } else {
        assert(s.skip(0) =~= s);
        0
    }
}

/// The same from the back.
proof fn lemma_trimmed_back(s: Seq<char>) -> (b: int)
    ensures
        0 <= b <= s.len(),
        trimmed_back(s) == s.take(b),
        forall|k: int| b <= k < s.len() ==> is_white(#[trigger] s[k]),
        b > 0 ==> !is_white(s[b - 1]),
    decreases s.len(),
{
    if s.len() > 0 && is_white(s.last()) {
        let b = lemma_trimmed_back(s.drop_last());
        assert(s.drop_last().take(b) =~= s.take(b));
        assert forall|k: int| b <= k < s.len() implies is_white(#[trigger] s[k]) by {
            if k < s.len() - 1 {
                assert(s.drop_last()[k] == s[k]);
            }
        }
        b
    } else {
        assert(s.take(s.len() as int) =~= s);
        s.len() as int
    }
}

/// Trimming takes white space off both ends and nothing else: what is left is a
/// part of the text that neither starts nor ends with white space, with white space
/// alone before and behind it.
pub proof fn law_trimming_takes_white_space_alone(s: Seq<char>)
    ensures
        exists|a: int, b: int|
            0 <= a <= b <= s.len() && trimmed(s) == #[trigger] s.subrange(a, b) && (forall|k: int|
                0 <= k < a || b <= k < s.len() ==> is_white(#[trigger] s[k])),
        trimmed(s).len() > 0 ==> !is_white(trimmed(s)[0]) && !is_white(trimmed(s).last()),
        trimmed(s).len() > 0 <==> exists|k: int| 0 <= k < s.len() && !is_white(#[trigger] s[k]),
{
    let a = lemma_trimmed_front(s);
    let rest = s.skip(a);
    let b = lemma_trimmed_back(rest);
    assert(rest.take(b) =~= s.subrange(a, a + b));
    assert forall|k: int| 0 <= k < a || a + b <= k < s.len() implies is_white(#[trigger] s[k]) by {
        if k >= a + b {
            assert(rest[k - a] == s[k]);
        }
    }
    assert(trimmed(s) == s.subrange(a, a + b));
    if b > 0 {
        assert(rest[b - 1] == s[a + b - 1]);
        assert(rest[0] == s[a]);
        assert(!is_white(s[a]));
    }
}

/// A text is at a path exactly where the value there is one that holds more than
/// white space.
proof fn lemma_filled(t: Json, path: Seq<char>)
    ensures
        filled_text(t, path) is Some <==> says_something(value_at(t, path)),
        value_at(t, path) matches Some(Json::Str(s)) ==> (filled_text(t, path) is Some
            ==> filled_text(t, path)->0 == trimmed(s)),
{
    if let Some(Json::Str(s)) = value_at(t, path) {
        law_trimming_takes_white_space_alone(s);
    }
}

/// A key with no point in it is looked up; one behind a point is looked up in what
/// stands before it.
pub proof fn law_path_is_walked_key_by_key(t: Json, path: Seq<char>, key: Seq<char>)
    requires
        forall|k: int| 0 <= k < key.len() ==> #[trigger] key[k] != '.',
    ensures
        value_at(t, key) == lookup(t, key),
        value_at(t, path + "."@ + key) == (match value_at(t, path) {
            Some(inner) => lookup(inner, key),
            None => None,
        }),
{
    reveal_strlit(".");
    lemma_index_is(key, '.', 0, key.len() as int);
    assert(key.subrange(0, key.len() as int) =~= key);
    assert(parts_of(key, '.') =~= seq![key]);
    reveal_with_fuel(walk, 2);
    crate::words::lemma_parts_push(path, '.', key, 0);
    assert(path + "."@ + key =~= path + seq!['.'] + key);
    let parts = parts_of(path, '.');
    lemma_walk_push(t, parts, key, 0);
}

/// Walking one key more.
proof fn lemma_walk_push(t: Json, keys: Seq<Seq<char>>, key: Seq<char>, i: int)
    requires
        0 <= i <= keys.len(),
    ensures
        walk(t, keys.push(key), i) == (match walk(t, keys, i) {
            Some(inner) => lookup(inner, key),
            None => None,
        }),
    decreases keys.len() - i,
{
    let more = keys.push(key);
    if i < keys.len() {
        assert(more[i] == keys[i]);
        if let Some(inner) = lookup(t, keys[i]) {
            lemma_walk_push(inner, keys, key, i + 1);
        }
    } else {
        assert(more[i] == key);
        if let Some(inner) = lookup(t, key) {
            assert(walk(inner, more, i + 1) == Some(inner));
        }
    }
}

/// Looking a key up gives the value of the first entry that has it, and nothing
/// where none has or the value is no object.
pub proof fn law_lookup_finds_the_first_entry(t: Json, key: Seq<char>, i: int)
    ensures
        !(t is Object) ==> lookup(t, key) is None,
        t matches Json::Object(entries) ==> (lookup(t, key) is Some <==> exists|k: int|
            0 <= k < entries.len() && (#[trigger] entries[k]).0 == key),
        t matches Json::Object(entries) ==> (0 <= i < entries.len() && entries[i].0 == key && (
        forall|k: int| 0 <= k < i ==> (#[trigger] entries[k]).0 != key) ==> lookup(t, key) == Some(
            entries[i].1,
        )),
{
    if let Json::Object(entries) = t {
        lemma_key_index(entries, key, 0);
    }
}

/// What the emulation of a run is refused for.
proof fn lemma_emulation_codes(t: Json, c: Seq<char>)
    ensures
        has_code(emulation_reasons(t), c) <==> c == "emulated"@ && value_at(
            t,
            "provenance.emulated"@,
        ) != Some(Json::Bool(false)),
{
    let all = emulation_reasons(t);
    if all.len() > 0 {
        assert(all =~= seq![all[0]]);
        lemma_has_code_one(all[0], c);
    }
}

/// What one source tree is refused for.
proof fn lemma_tree_codes(
    t: Json,
    label: Seq<char>,
    commit: Seq<char>,
    dirty: Seq<char>,
    c: Seq<char>,
)
    ensures
        has_code(tree_reasons(t, label, commit, dirty), c) <==> {
            ||| c == "commit"@ && !says_something(value_at(t, commit))
            ||| c == "dirty"@ && !(value_at(t, dirty) matches Some(Json::Bool(_)))
        },
{
    lemma_filled(t, commit);
    lemma_codes_differ();
    let all = tree_reasons(t, label, commit, dirty);
    if has_code(all, c) {
        let i = choose|i: int| 0 <= i < all.len() && (#[trigger] all[i]).code == c;
    }
    if c == "commit"@ && filled_text(t, commit) is None {
        assert(all[0].code == c);
    }
    if c == "dirty"@ && bool_of(value_at(t, dirty)) is None {
        assert(all.last().code == c);
        assert(all[all.len() - 1].code == c);
    }
}

/// Which cells do not carry the mark.
proof fn lemma_unstamped(cells: Seq<Json>, n: int)
    requires
        0 <= n <= cells.len(),
    ensures
        unstamped_cells(cells, n).len() > 0 <==> exists|i: int|
            0 <= i < n && lookup(#[trigger] cells[i], "dirty"@) != Some(Json::Bool(true)),
    decreases n,
{
    if n > 0 {
        lemma_unstamped(cells, n - 1);
        if lookup(cells[n - 1], "dirty"@) != Some(Json::Bool(true)) {
            assert(bool_of(lookup(cells[n - 1], "dirty"@)) != Some(true));
        }
        if exists|i: int| 0 <= i < n && lookup(#[trigger] cells[i], "dirty"@) != Some(
            Json::Bool(true),
        ) {
            let i = choose|i: int|
                0 <= i < n && lookup(#[trigger] cells[i], "dirty"@) != Some(Json::Bool(true));
            if i < n - 1 {
                assert(0 <= i < n - 1 && lookup(cells[i], "dirty"@) != Some(Json::Bool(true)));
            }
        }
        if unstamped_cells(cells, n - 1).len() > 0 {
            let i = choose|i: int|
                0 <= i < n - 1 && lookup(#[trigger] cells[i], "dirty"@) != Some(Json::Bool(true));
            assert(0 <= i < n && lookup(cells[i], "dirty"@) != Some(Json::Bool(true)));
        }
    }
}

/// What the two source trees are refused for.
proof fn lemma_source_codes(t: Json, c: Seq<char>)
    ensures
        has_code(source_reasons(t), c) <==> {
            let dirty = value_at(t, "provenance.dirty"@) == Some(Json::Bool(true)) || value_at(
                t,
                "provenance.library.dirty"@,
            ) == Some(Json::Bool(true));
            let allowed = value_at(t, "provenance.allowDirty"@) == Some(Json::Bool(true));
            ||| c == "commit"@ && !(says_something(value_at(t, "provenance.commit"@))
                && says_something(value_at(t, "provenance.library.commit"@)))
            ||| c == "dirty"@ && !(value_at(t, "provenance.dirty"@) matches Some(Json::Bool(_)))
            ||| c == "dirty"@ && !(value_at(t, "provenance.library.dirty"@) matches Some(
                Json::Bool(_),
            ))
            ||| c == "dirty-not-allowed"@ && dirty && !allowed
            ||| c == "dirty-not-stamped"@ && dirty && allowed && exists|i: int|
                0 <= i < cells_of(t).len() && lookup(#[trigger] cells_of(t)[i], "dirty"@) != Some(
                    Json::Bool(true),
                )
        },
{
    let a = tree_reasons(t, "the harness"@, "provenance.commit"@, "provenance.dirty"@);
    let b = tree_reasons(
        t,
        "the measured library"@,
        "provenance.library.commit"@,
        "provenance.library.dirty"@,
    );
    lemma_tree_codes(t, "the harness"@, "provenance.commit"@, "provenance.dirty"@, c);
    lemma_tree_codes(
        t,
        "the measured library"@,
        "provenance.library.commit"@,
        "provenance.library.dirty"@,
        c,
    );
    let d = source_reasons(t).skip((a + b).len() as int);
    assert(source_reasons(t) =~= a + b + d);
    lemma_has_code_add(a, b, c);
    lemma_has_code_add(a + b, d, c);
    lemma_unstamped(cells_of(t), cells_of(t).len() as int);
    assert(is_set(t, "provenance.dirty"@) <==> value_at(t, "provenance.dirty"@) == Some(
        Json::Bool(true),
    ));
    assert(is_set(t, "provenance.library.dirty"@) <==> value_at(t, "provenance.library.dirty"@)
        == Some(Json::Bool(true)));
    assert(is_set(t, "provenance.allowDirty"@) <==> value_at(t, "provenance.allowDirty"@) == Some(
        Json::Bool(true),
    ));
    if d.len() > 0 {
        assert(d =~= seq![d[0]]);
        lemma_has_code_one(d[0], c);
    }
}

/// What a flag is refused for.
proof fn lemma_flag_codes(flags: Seq<char>, word: Seq<char>, c: Seq<char>)
    ensures
        has_code(flag_reasons(flags, word), c) <==> c == "perturbing-rustflags"@ && exists|p: int|
            0 <= p && p + word.len() <= flags.len() && #[trigger] flags.subrange(p, p + word.len())
                == word,
{
    let all = flag_reasons(flags, word);
    if all.len() > 0 {
        assert(all =~= seq![all[0]]);
        lemma_has_code_one(all[0], c);
    }
}

/// What a build is refused for.
proof fn lemma_build_codes(t: Json, c: Seq<char>)
    ensures
        has_code(build_reasons(t), c) <==> {
            ||| c == "debug-build"@ && value_at(t, "provenance.node.debugAssertions"@) != Some(
                Json::Bool(false),
            )
            ||| c == "debug-build"@ && !(value_at(t, "provenance.node.buildProfile"@) matches Some(
                Json::Str(s),
            ) && trimmed(s) == "release"@)
            ||| c == "perturbing-rustflags"@ && (value_at(t, "provenance.node.rustflags"@) matches Some(
                Json::Str(flags),
            ) && (contains_word(flags, "-C instrument-coverage"@) || contains_word(
                flags,
                "-Cinstrument-coverage"@,
            ) || contains_word(flags, "-Z"@)))
        },
{
    reveal_strlit("release");
    lemma_filled(t, "provenance.node.buildProfile"@);
    if let Some(Json::Str(s)) = value_at(t, "provenance.node.buildProfile"@) {
        law_trimming_takes_white_space_alone(s);
        assert("release"@.len() == 7);
    }
    let a = assertion_reasons(t);
    let b = profile_reasons(t);
    let d = build_reasons(t).skip((a + b).len() as int);
    assert(build_reasons(t) =~= a + b + d);
    lemma_has_code_add(a, b, c);
    lemma_has_code_add(a + b, d, c);
    if a.len() > 0 {
        assert(a =~= seq![a[0]]);
        lemma_has_code_one(a[0], c);
    }
    if b.len() > 0 {
        assert(b =~= seq![b[0]]);
        lemma_has_code_one(b[0], c);
    }
    if let Some(Json::Str(flags)) = value_at(t, "provenance.node.rustflags"@) {
        assert(text_in(value_at(t, "provenance.node.rustflags"@)) == Some(flags));
        let x = flag_reasons(flags, "-C instrument-coverage"@);
        let y = flag_reasons(flags, "-Cinstrument-coverage"@);
        let z = flag_reasons(flags, "-Z"@);
        assert(d =~= x + y + z);
        lemma_has_code_add(x, y, c);
        lemma_has_code_add(x + y, z, c);
        lemma_flag_codes(flags, "-C instrument-coverage"@, c);
        lemma_flag_codes(flags, "-Cinstrument-coverage"@, c);
        lemma_flag_codes(flags, "-Z"@, c);
    } else {
        assert(d =~= Seq::<Reason>::empty());
    }
}

/// What a filesystem is refused for.
proof fn lemma_filesystem_codes(t: Json, c: Seq<char>)
    ensures
        has_code(filesystem_reasons(t), c) <==> {
            ||| c == "filesystem"@ && !says_something(value_at(t, "provenance.filesystem.fsType"@))
            ||| c == "filesystem"@ && !says_something(
                value_at(t, "provenance.filesystem.scratchDir"@),
            )
            ||| c == "tmpfs"@ && (value_at(t, "provenance.filesystem.fsType"@) matches Some(
                Json::Str(s),
            ) && trimmed(s) == "tmpfs"@) && value_at(t, "provenance.filesystem.declaredTmpfs"@)
                != Some(Json::Bool(true))
        },
{
    lemma_filled(t, "provenance.filesystem.fsType"@);
    lemma_filled(t, "provenance.filesystem.scratchDir"@);
    lemma_codes_differ();
    let all = filesystem_reasons(t);
    if let Some(Json::Str(s)) = value_at(t, "provenance.filesystem.fsType"@) {
        law_trimming_takes_white_space_alone(s);
        reveal_strlit("tmpfs");
        assert("tmpfs"@.len() == 5);
    }
    assert(is_set(t, "provenance.filesystem.declaredTmpfs"@) <==> value_at(
        t,
        "provenance.filesystem.declaredTmpfs"@,
    ) == Some(Json::Bool(true)));
    if filled_text(t, "provenance.filesystem.fsType"@) is None {
        assert(all =~= seq![all[0]]);
        lemma_has_code_one(all[0], c);
    } else {
        if has_code(all, c) {
            let i = choose|i: int| 0 <= i < all.len() && (#[trigger] all[i]).code == c;
        }
        if c == "filesystem"@ && filled_text(t, "provenance.filesystem.scratchDir"@) is None {
            assert(all[0].code == c);
        }
        if c == "tmpfs"@ && filled_text(t, "provenance.filesystem.fsType"@) == Some("tmpfs"@)
            && !is_set(t, "provenance.filesystem.declaredTmpfs"@) {
            assert(all[all.len() - 1].code == c);
        }
    }
}

/// What a field of the invocation is refused for.
proof fn lemma_field_codes(invocation: Json, field: Seq<char>, c: Seq<char>)
    ensures
        has_code(field_reasons(invocation, field), c) <==> c == "invocation"@ && (lookup(
            invocation,
            field,
        ) is None || lookup(invocation, field) == Some(Json::Null)),
{
    let all = field_reasons(invocation, field);
    if all.len() > 0 {
        assert(all =~= seq![all[0]]);
        lemma_has_code_one(all[0], c);
    }
}

/// What the scenarios are refused for.
proof fn lemma_scenario_codes(t: Json, c: Seq<char>)
    ensures
        has_code(scenario_reasons(t), c) <==> c == "scenarios-unresolved"@ && !(value_at(
            t,
            "provenance.invocation.resolved.scenarios"@,
        ) matches Some(Json::Array(items)) && items.len() > 0 && forall|i: int|
            0 <= i < items.len() ==> (#[trigger] items[i]) != Json::Str("all"@)),
{
    let all = scenario_reasons(t);
    if let Some(Json::Array(items)) = value_at(t, "provenance.invocation.resolved.scenarios"@) {
        assert(lists_text(items, "all"@) <==> exists|i: int|
            0 <= i < items.len() && (#[trigger] items[i]) == Json::Str("all"@)) by {
            if lists_text(items, "all"@) {
                let i = choose|i: int|
                    0 <= i < items.len() && crate::storage::json::str_of(#[trigger] items[i])
                        == Some("all"@);
                assert(items[i] == Json::Str("all"@));
            }
            if exists|i: int| 0 <= i < items.len() && (#[trigger] items[i]) == Json::Str("all"@) {
                let i = choose|i: int|
                    0 <= i < items.len() && (#[trigger] items[i]) == Json::Str("all"@);
                assert(crate::storage::json::str_of(items[i]) == Some("all"@));
            }
        }
    }
    if all.len() > 0 {
        assert(all =~= seq![all[0]]);
        lemma_has_code_one(all[0], c);
    }
}

/// Which cells took another number of repetitions.
proof fn lemma_disagreeing(cells: Seq<Json>, reps: nat, n: int)
    requires
        0 <= n <= cells.len(),
    ensures
        disagreeing_cells(cells, reps, n).len() > 0 <==> exists|i: int|
            0 <= i < n && count_of(lookup(#[trigger] cells[i], "reps"@)) != Some(reps),
    decreases n,
{
    if n > 0 {
        lemma_disagreeing(cells, reps, n - 1);
        if exists|i: int| 0 <= i < n && count_of(lookup(#[trigger] cells[i], "reps"@)) != Some(
            reps,
        ) {
            let i = choose|i: int|
                0 <= i < n && count_of(lookup(#[trigger] cells[i], "reps"@)) != Some(reps);
            if i < n - 1 {
                assert(0 <= i < n - 1 && count_of(lookup(cells[i], "reps"@)) != Some(reps));
            }
        }
        if disagreeing_cells(cells, reps, n - 1).len() > 0 {
            let i = choose|i: int|
                0 <= i < n - 1 && count_of(lookup(#[trigger] cells[i], "reps"@)) != Some(reps);
            assert(0 <= i < n && count_of(lookup(cells[i], "reps"@)) != Some(reps));
        }
    }
}

/// What the repetitions are refused for.
proof fn lemma_reps_codes(t: Json, c: Seq<char>)
    ensures
        has_code(reps_reasons(t), c) <==> c == "reps-disagree"@ && {
            let resolved = count_of(value_at(t, "provenance.invocation.resolved.reps"@));
            resolved is None || exists|i: int|
                0 <= i < cells_of(t).len() && count_of(lookup(#[trigger] cells_of(t)[i], "reps"@))
                    != resolved
        },
{
    let all = reps_reasons(t);
    if let Some(reps) = count_of(value_at(t, "provenance.invocation.resolved.reps"@)) {
        lemma_disagreeing(cells_of(t), reps, cells_of(t).len() as int);
    }
    if all.len() > 0 {
        assert(all =~= seq![all[0]]);
        lemma_has_code_one(all[0], c);
    }
}

/// What the invocation is refused for.
proof fn lemma_invocation_codes(t: Json, c: Seq<char>)
    ensures
        has_code(invocation_reasons(t), c) <==> (match value_at(t, "provenance.invocation"@) {
            None => c == "invocation"@,
            Some(invocation) => {
                ||| has_code(field_reasons(invocation, "argv"@), c)
                ||| has_code(field_reasons(invocation, "command"@), c)
                ||| has_code(field_reasons(invocation, "cwd"@), c)
                ||| has_code(field_reasons(invocation, "resolved"@), c)
                ||| has_code(scenario_reasons(t), c)
                ||| has_code(reps_reasons(t), c)
            },
        }),
{
    let all = invocation_reasons(t);
    match value_at(t, "provenance.invocation"@) {
        None => {
            assert(all =~= seq![all[0]]);
            lemma_has_code_one(all[0], c);
        },
        Some(v) => {
            let a = field_reasons(v, "argv"@);
            let b = field_reasons(v, "command"@);
            let d = field_reasons(v, "cwd"@);
            let e = field_reasons(v, "resolved"@);
            lemma_has_code_add(a, b, c);
            lemma_has_code_add(a + b, d, c);
            lemma_has_code_add(a + b + d, e, c);
            lemma_has_code_add(a + b + d + e, scenario_reasons(t), c);
            lemma_has_code_add(a + b + d + e + scenario_reasons(t), reps_reasons(t), c);
        },
    }
}

/// What one cell is refused for.
proof fn lemma_cell_codes(i: int, cell: Json, c: Seq<char>)
    ensures
        has_code(cell_reasons(i, cell), c) <==> {
            ||| c == "unattested-cell"@ && lookup(cell, "outcome"@) == Some(Json::Str("ok"@))
                && lookup(cell, "storageAttested"@) != Some(Json::Bool(true))
            ||| c == "outcome-without-reason"@ && lookup(cell, "outcome"@) != Some(
                Json::Str("ok"@),
            ) && !says_something(lookup(cell, "reason"@))
        },
{
    let all = cell_reasons(i, cell);
    reveal_strlit("");
    reveal_strlit("ok");
    assert(""@.len() == 0 && "ok"@.len() == 2);
    reveal_strlit("reason");
    lemma_filled(cell, "reason"@);
    law_path_is_walked_key_by_key(cell, "reason"@, "reason"@);
    if all.len() > 0 {
        assert(all =~= seq![all[0]]);
        lemma_has_code_one(all[0], c);
    }
}

/// What the cells are refused for.
proof fn lemma_all_cell_codes(cells: Seq<Json>, n: int, c: Seq<char>)
    requires
        0 <= n <= cells.len(),
    ensures
        has_code(all_cell_reasons(cells, n), c) <==> exists|i: int|
            0 <= i < n && has_code(cell_reasons(i, #[trigger] cells[i]), c),
    decreases n,
{
    if n > 0 {
        lemma_all_cell_codes(cells, n - 1, c);
        lemma_has_code_add(all_cell_reasons(cells, n - 1), cell_reasons(n - 1, cells[n - 1]), c);
        if exists|i: int| 0 <= i < n && has_code(cell_reasons(i, #[trigger] cells[i]), c) {
            let i = choose|i: int| 0 <= i < n && has_code(cell_reasons(i, #[trigger] cells[i]), c);
            if i < n - 1 {
                assert(0 <= i < n - 1 && has_code(cell_reasons(i, cells[i]), c));
            }
        }
        if has_code(all_cell_reasons(cells, n - 1), c) {
            let i = choose|i: int|
                0 <= i < n - 1 && has_code(cell_reasons(i, #[trigger] cells[i]), c);
            assert(0 <= i < n && has_code(cell_reasons(i, cells[i]), c));
        }
    }
}

/// What the cells of a document are refused for.
proof fn lemma_cells_codes(t: Json, c: Seq<char>)
    ensures
        has_code(cells_reasons(t), c) <==> {
            ||| c == "no-cells"@ && cells_of(t).len() == 0
            ||| exists|i: int|
                0 <= i < cells_of(t).len() && has_code(cell_reasons(i, #[trigger] cells_of(t)[i]), c)
        },
{
    let all = cells_reasons(t);
    lemma_all_cell_codes(cells_of(t), cells_of(t).len() as int, c);
    if cells_of(t).len() == 0 {
        assert(all =~= seq![all[0]]);
        lemma_has_code_one(all[0], c);
    }
}

/// What the seal is refused for.
proof fn lemma_integrity_codes(t: Json, c: Seq<char>)
    ensures
        has_code(integrity_reasons(t), c) <==> c == "integrity"@ && lookup(t, "integrity"@) is Some
            && !(digests_of(t) is Ok && stated_seal(t) == Some(digests_of(t)->Ok_0)),
{
    let all = integrity_reasons(t);
    if lookup(t, "integrity"@) is Some {
        if findings_of(t) is Ok {
            let found = findings_of(t)->Ok_0;
            law_verifies_iff_all_four_hold(t, found);
            if all.len() > 0 {
                assert(all[0].code == "integrity"@);
            }
            if !(found.stated is Some && found.moved.len() == 0) {
                assert(lines_of(found).len() > 0);
                assert(all[0].code == "integrity"@);
            }
        } else {
            assert(all =~= seq![all[0]]);
            lemma_has_code_one(all[0], c);
        }
    }
}

/// Every code, part by part.
proof fn lemma_codes(t: Json, c: Seq<char>)
    ensures
        has_code(refusals_of(t), c) <==> {
            ||| has_code(emulation_reasons(t), c)
            ||| has_code(source_reasons(t), c)
            ||| has_code(build_reasons(t), c)
            ||| has_code(filesystem_reasons(t), c)
            ||| has_code(invocation_reasons(t), c)
            ||| has_code(cells_reasons(t), c)
            ||| has_code(integrity_reasons(t), c)
        },
{
    let (p, q, r, u) = (
        emulation_reasons(t),
        source_reasons(t),
        build_reasons(t),
        filesystem_reasons(t),
    );
    let (v, w, x) = (invocation_reasons(t), cells_reasons(t), integrity_reasons(t));
    lemma_has_code_add(p, q, c);
    lemma_has_code_add(p + q, r, c);
    lemma_has_code_add(p + q + r, u, c);
    lemma_has_code_add(p + q + r + u, v, c);
    lemma_has_code_add(p + q + r + u + v, w, c);
    lemma_has_code_add(p + q + r + u + v + w, x, c);
}

/// The codes of all the parts at once.
proof fn lemma_all_codes(t: Json, c: Seq<char>)
    ensures
        has_code(refusals_of(t), c) <==> {
            let dirty = value_at(t, "provenance.dirty"@) == Some(Json::Bool(true)) || value_at(
                t,
                "provenance.library.dirty"@,
            ) == Some(Json::Bool(true));
            let allowed = value_at(t, "provenance.allowDirty"@) == Some(Json::Bool(true));
            let invocation = value_at(t, "provenance.invocation"@);
            let resolved = count_of(value_at(t, "provenance.invocation.resolved.reps"@));
            ||| c == "emulated"@ && value_at(t, "provenance.emulated"@) != Some(Json::Bool(false))
            ||| c == "commit"@ && !says_something(value_at(t, "provenance.commit"@))
            ||| c == "commit"@ && !says_something(value_at(t, "provenance.library.commit"@))
            ||| c == "dirty"@ && !(value_at(t, "provenance.dirty"@) matches Some(Json::Bool(_)))
            ||| c == "dirty"@ && !(value_at(t, "provenance.library.dirty"@) matches Some(Json::Bool(_)))
            ||| c == "dirty-not-allowed"@ && dirty && !allowed
            ||| c == "dirty-not-stamped"@ && dirty && allowed && exists|i: int| 0 <= i < cells_of(t).len() && lookup(#[trigger] cells_of(t)[i], "dirty"@) != Some(Json::Bool(true))
            ||| c == "debug-build"@ && value_at(t, "provenance.node.debugAssertions"@) != Some(Json::Bool(false))
            ||| c == "debug-build"@ && !(value_at(t, "provenance.node.buildProfile"@) matches Some(Json::Str(s)) && trimmed(s) == "release"@)
            ||| c == "perturbing-rustflags"@ && (value_at(t, "provenance.node.rustflags"@) matches Some(Json::Str(flags)) && (contains_word(flags, "-C instrument-coverage"@) || contains_word(flags, "-Cinstrument-coverage"@) || contains_word(flags, "-Z"@)))
            ||| c == "filesystem"@ && !says_something(value_at(t, "provenance.filesystem.fsType"@))
            ||| c == "filesystem"@ && !says_something(value_at(t, "provenance.filesystem.scratchDir"@))
            ||| c == "tmpfs"@ && (value_at(t, "provenance.filesystem.fsType"@) matches Some(Json::Str(s)) && trimmed(s) == "tmpfs"@) && value_at(t, "provenance.filesystem.declaredTmpfs"@) != Some(Json::Bool(true))
            ||| c == "invocation"@ && invocation is None
            ||| c == "invocation"@ && (invocation matches Some(v) && (lookup(v, "argv"@) is None || lookup(v, "argv"@) == Some(Json::Null)))
            ||| c == "invocation"@ && (invocation matches Some(v) && (lookup(v, "command"@) is None || lookup(v, "command"@) == Some(Json::Null)))
            ||| c == "invocation"@ && (invocation matches Some(v) && (lookup(v, "cwd"@) is None || lookup(v, "cwd"@) == Some(Json::Null)))
            ||| c == "invocation"@ && (invocation matches Some(v) && (lookup(v, "resolved"@) is None || lookup(v, "resolved"@) == Some(Json::Null)))
            ||| c == "scenarios-unresolved"@ && invocation is Some && !(value_at(t, "provenance.invocation.resolved.scenarios"@) matches Some(Json::Array(items)) && items.len() > 0 && forall|i: int| 0 <= i < items.len() ==> (#[trigger] items[i]) != Json::Str("all"@))
            ||| c == "reps-disagree"@ && invocation is Some && (resolved is None || exists|i: int| 0 <= i < cells_of(t).len() && count_of(lookup(#[trigger] cells_of(t)[i], "reps"@)) != resolved)
            ||| c == "no-cells"@ && cells_of(t).len() == 0
            ||| c == "unattested-cell"@ && (exists|i: int| 0 <= i < cells_of(t).len() && lookup(#[trigger] cells_of(t)[i], "outcome"@) == Some(Json::Str("ok"@)) && lookup(cells_of(t)[i], "storageAttested"@) != Some(Json::Bool(true)))
            ||| c == "outcome-without-reason"@ && (exists|i: int| 0 <= i < cells_of(t).len() && lookup(#[trigger] cells_of(t)[i], "outcome"@) != Some(Json::Str("ok"@)) && !says_something(lookup(cells_of(t)[i], "reason"@)))
            ||| c == "integrity"@ && lookup(t, "integrity"@) is Some && !(digests_of(t) is Ok && stated_seal(t) == Some(digests_of(t)->Ok_0))
        },
{
    lemma_codes(t, c);
    lemma_emulation_codes(t, c);
    lemma_source_codes(t, c);
    lemma_build_codes(t, c);
    lemma_filesystem_codes(t, c);
    lemma_invocation_codes(t, c);
    lemma_scenario_codes(t, c);
    lemma_reps_codes(t, c);
    lemma_cells_codes(t, c);
    lemma_integrity_codes(t, c);
    lemma_codes_differ();
    if let Some(v) = value_at(t, "provenance.invocation"@) {
        lemma_field_codes(v, "argv"@, c);
        lemma_field_codes(v, "command"@, c);
        lemma_field_codes(v, "cwd"@, c);
        lemma_field_codes(v, "resolved"@, c);
    }
    let cells = cells_of(t);
    assert forall|i: int| 0 <= i < cells.len() implies (has_code(
        cell_reasons(i, #[trigger] cells[i]),
        c,
    ) <==> {
        ||| c == "unattested-cell"@ && lookup(cells[i], "outcome"@) == Some(Json::Str("ok"@))
            && lookup(cells[i], "storageAttested"@) != Some(Json::Bool(true))
        ||| c == "outcome-without-reason"@ && lookup(cells[i], "outcome"@) != Some(Json::Str("ok"@))
            && !says_something(lookup(cells[i], "reason"@))
    }) by {
        lemma_cell_codes(i, cells[i], c);
    }
}

/// A document is refused for each code exactly where it says what that code is for,
/// and for no other code.
pub proof fn law_each_code_has_its_cause(t: Json, c: Seq<char>)
    ensures
        ({
            let dirty = value_at(t, "provenance.dirty"@) == Some(Json::Bool(true)) || value_at(
                t,
                "provenance.library.dirty"@,
            ) == Some(Json::Bool(true));
            let allowed = value_at(t, "provenance.allowDirty"@) == Some(Json::Bool(true));
            let invocation = value_at(t, "provenance.invocation"@);
            let resolved = count_of(value_at(t, "provenance.invocation.resolved.reps"@));
            &&& has_code(refusals_of(t), "emulated"@) <==> {
                ||| value_at(t, "provenance.emulated"@) != Some(Json::Bool(false))
            }
            &&& has_code(refusals_of(t), "commit"@) <==> {
                ||| !says_something(value_at(t, "provenance.commit"@))
                ||| !says_something(value_at(t, "provenance.library.commit"@))
            }
            &&& has_code(refusals_of(t), "dirty"@) <==> {
                ||| !(value_at(t, "provenance.dirty"@) matches Some(Json::Bool(_)))
                ||| !(value_at(t, "provenance.library.dirty"@) matches Some(Json::Bool(_)))
            }
            &&& has_code(refusals_of(t), "dirty-not-allowed"@) <==> {
                ||| dirty && !allowed
            }
            &&& has_code(refusals_of(t), "dirty-not-stamped"@) <==> {
                ||| dirty && allowed && exists|i: int| 0 <= i < cells_of(t).len() && lookup(#[trigger] cells_of(t)[i], "dirty"@) != Some(Json::Bool(true))
            }
            &&& has_code(refusals_of(t), "debug-build"@) <==> {
                ||| value_at(t, "provenance.node.debugAssertions"@) != Some(Json::Bool(false))
                ||| !(value_at(t, "provenance.node.buildProfile"@) matches Some(Json::Str(s)) && trimmed(s) == "release"@)
            }
            &&& has_code(refusals_of(t), "perturbing-rustflags"@) <==> {
                ||| (value_at(t, "provenance.node.rustflags"@) matches Some(Json::Str(flags)) && (contains_word(flags, "-C instrument-coverage"@) || contains_word(flags, "-Cinstrument-coverage"@) || contains_word(flags, "-Z"@)))
            }
            &&& has_code(refusals_of(t), "filesystem"@) <==> {
                ||| !says_something(value_at(t, "provenance.filesystem.fsType"@))
                ||| !says_something(value_at(t, "provenance.filesystem.scratchDir"@))
            }
            &&& has_code(refusals_of(t), "tmpfs"@) <==> {
                ||| (value_at(t, "provenance.filesystem.fsType"@) matches Some(Json::Str(s)) && trimmed(s) == "tmpfs"@) && value_at(t, "provenance.filesystem.declaredTmpfs"@) != Some(Json::Bool(true))
            }
            &&& has_code(refusals_of(t), "invocation"@) <==> {
                ||| invocation is None
                ||| (invocation matches Some(v) && (lookup(v, "argv"@) is None || lookup(v, "argv"@) == Some(Json::Null)))
                ||| (invocation matches Some(v) && (lookup(v, "command"@) is None || lookup(v, "command"@) == Some(Json::Null)))
                ||| (invocation matches Some(v) && (lookup(v, "cwd"@) is None || lookup(v, "cwd"@) == Some(Json::Null)))
                ||| (invocation matches Some(v) && (lookup(v, "resolved"@) is None || lookup(v, "resolved"@) == Some(Json::Null)))
            }
            &&& has_code(refusals_of(t), "scenarios-unresolved"@) <==> {
                ||| invocation is Some && !(value_at(t, "provenance.invocation.resolved.scenarios"@) matches Some(Json::Array(items)) && items.len() > 0 && forall|i: int| 0 <= i < items.len() ==> (#[trigger] items[i]) != Json::Str("all"@))
            }
            &&& has_code(refusals_of(t), "reps-disagree"@) <==> {
                ||| invocation is Some && (resolved is None || exists|i: int| 0 <= i < cells_of(t).len() && count_of(lookup(#[trigger] cells_of(t)[i], "reps"@)) != resolved)
            }
            &&& has_code(refusals_of(t), "no-cells"@) <==> {
                ||| cells_of(t).len() == 0
            }
            &&& has_code(refusals_of(t), "unattested-cell"@) <==> {
                ||| (exists|i: int| 0 <= i < cells_of(t).len() && lookup(#[trigger] cells_of(t)[i], "outcome"@) == Some(Json::Str("ok"@)) && lookup(cells_of(t)[i], "storageAttested"@) != Some(Json::Bool(true)))
            }
            &&& has_code(refusals_of(t), "outcome-without-reason"@) <==> {
                ||| (exists|i: int| 0 <= i < cells_of(t).len() && lookup(#[trigger] cells_of(t)[i], "outcome"@) != Some(Json::Str("ok"@)) && !says_something(lookup(cells_of(t)[i], "reason"@)))
            }
            &&& has_code(refusals_of(t), "integrity"@) <==> {
                ||| lookup(t, "integrity"@) is Some && !(digests_of(t) is Ok && stated_seal(t) == Some(digests_of(t)->Ok_0))
            }
            &&& has_code(refusals_of(t), c) ==> {
                ||| c == "emulated"@
                ||| c == "commit"@
                ||| c == "dirty"@
                ||| c == "dirty-not-allowed"@
                ||| c == "dirty-not-stamped"@
                ||| c == "debug-build"@
                ||| c == "perturbing-rustflags"@
                ||| c == "filesystem"@
                ||| c == "tmpfs"@
                ||| c == "invocation"@
                ||| c == "scenarios-unresolved"@
                ||| c == "reps-disagree"@
                ||| c == "no-cells"@
                ||| c == "unattested-cell"@
                ||| c == "outcome-without-reason"@
                ||| c == "integrity"@
            }
        }),
{
    lemma_codes_differ();
    lemma_all_codes(t, c);
    lemma_all_codes(t, "emulated"@);
    lemma_all_codes(t, "commit"@);
    lemma_all_codes(t, "dirty"@);
    lemma_all_codes(t, "dirty-not-allowed"@);
    lemma_all_codes(t, "dirty-not-stamped"@);
    lemma_all_codes(t, "debug-build"@);
    lemma_all_codes(t, "perturbing-rustflags"@);
    lemma_all_codes(t, "filesystem"@);
    lemma_all_codes(t, "tmpfs"@);
    lemma_all_codes(t, "invocation"@);
    lemma_all_codes(t, "scenarios-unresolved"@);
    lemma_all_codes(t, "reps-disagree"@);
    lemma_all_codes(t, "no-cells"@);
    lemma_all_codes(t, "unattested-cell"@);
    lemma_all_codes(t, "outcome-without-reason"@);
    lemma_all_codes(t, "integrity"@);
}

/// A document is admitted exactly where its own evidence supports it: it ran
/// natively, from two trees that name a commit and say whether they are dirty, as a
/// release build without flags that disturb it, on a filesystem that it names and
/// that is no undeclared memory, by an invocation that is recorded and resolved.
/// Every cell took the repetitions that were asked for, is attested where it claims
/// to be ok and explained where it does not; dirt is allowed and marked on each of
/// them; and a seal that it carries still holds.
pub proof fn law_admitted_iff_its_evidence_supports_it(t: Json)
    ensures
        refusals_of(t).len() == 0 <==> {
            let dirty = value_at(t, "provenance.dirty"@) == Some(Json::Bool(true)) || value_at(
                t,
                "provenance.library.dirty"@,
            ) == Some(Json::Bool(true));
            let allowed = value_at(t, "provenance.allowDirty"@) == Some(Json::Bool(true));
            let resolved = count_of(value_at(t, "provenance.invocation.resolved.reps"@));
            &&& value_at(t, "provenance.emulated"@) == Some(Json::Bool(false))
            &&& says_something(value_at(t, "provenance.commit"@))
            &&& says_something(value_at(t, "provenance.library.commit"@))
            &&& value_at(t, "provenance.dirty"@) matches Some(Json::Bool(_))
            &&& value_at(t, "provenance.library.dirty"@) matches Some(Json::Bool(_))
            &&& dirty ==> allowed && forall|i: int|
                0 <= i < cells_of(t).len() ==> lookup(#[trigger] cells_of(t)[i], "dirty"@) == Some(
                    Json::Bool(true),
                )
            &&& value_at(t, "provenance.node.debugAssertions"@) == Some(Json::Bool(false))
            &&& value_at(t, "provenance.node.buildProfile"@) matches Some(Json::Str(s)) && trimmed(s)
                == "release"@
            &&& value_at(t, "provenance.node.rustflags"@) matches Some(Json::Str(flags))
                ==> !contains_word(flags, "-C instrument-coverage"@) && !contains_word(
                flags,
                "-Cinstrument-coverage"@,
            ) && !contains_word(flags, "-Z"@)
            &&& says_something(value_at(t, "provenance.filesystem.fsType"@))
            &&& says_something(value_at(t, "provenance.filesystem.scratchDir"@))
            &&& (value_at(t, "provenance.filesystem.fsType"@) matches Some(Json::Str(s)) && trimmed(
                s,
            ) == "tmpfs"@) ==> value_at(t, "provenance.filesystem.declaredTmpfs"@) == Some(
                Json::Bool(true),
            )
            &&& value_at(t, "provenance.invocation"@) matches Some(v) && {
                &&& lookup(v, "argv"@) is Some && lookup(v, "argv"@) != Some(Json::Null)
                &&& lookup(v, "command"@) is Some && lookup(v, "command"@) != Some(Json::Null)
                &&& lookup(v, "cwd"@) is Some && lookup(v, "cwd"@) != Some(Json::Null)
                &&& lookup(v, "resolved"@) is Some && lookup(v, "resolved"@) != Some(Json::Null)
            }
            &&& value_at(t, "provenance.invocation.resolved.scenarios"@) matches Some(
                Json::Array(items),
            ) && items.len() > 0 && forall|i: int|
                0 <= i < items.len() ==> (#[trigger] items[i]) != Json::Str("all"@)
            &&& resolved is Some
            &&& cells_of(t).len() > 0
            &&& forall|i: int|
                0 <= i < cells_of(t).len() ==> {
                    &&& count_of(lookup(#[trigger] cells_of(t)[i], "reps"@)) == resolved
                    &&& lookup(cells_of(t)[i], "outcome"@) == Some(Json::Str("ok"@)) ==> lookup(
                        cells_of(t)[i],
                        "storageAttested"@,
                    ) == Some(Json::Bool(true))
                    &&& lookup(cells_of(t)[i], "outcome"@) != Some(Json::Str("ok"@))
                        ==> says_something(lookup(cells_of(t)[i], "reason"@))
                }
            &&& lookup(t, "integrity"@) is Some ==> digests_of(t) is Ok && stated_seal(t) == Some(
                digests_of(t)->Ok_0,
            )
        },
{
    let all = refusals_of(t);
    law_each_code_has_its_cause(t, "emulated"@);
    if all.len() > 0 {
        let c = all[0].code;
        assert(has_code(all, c));
        law_each_code_has_its_cause(t, c);
    }
}

/// Every cell that claims to be ok and was not attested, and every other cell
/// without a reason, has a refusal of its own that names it by its place.
pub proof fn law_every_bad_cell_is_named(t: Json, i: int)
    requires
        0 <= i < cells_of(t).len(),
    ensures
        ({
            let cell = cells_of(t)[i];
            let ok = lookup(cell, "outcome"@) == Some(Json::Str("ok"@));
            let place = "cell["@ + decimal(i as nat) + "]"@;
            &&& ok && lookup(cell, "storageAttested"@) != Some(Json::Bool(true)) ==> exists|k: int|
                0 <= k < refusals_of(t).len() && (#[trigger] refusals_of(t)[k]).code
                    == "unattested-cell"@ && has_prefix(refusals_of(t)[k].detail, place)
            &&& !ok && !says_something(lookup(cell, "reason"@)) ==> exists|k: int|
                0 <= k < refusals_of(t).len() && (#[trigger] refusals_of(t)[k]).code
                    == "outcome-without-reason"@ && has_prefix(refusals_of(t)[k].detail, place)
        }),
{
    let cells = cells_of(t);
    let n = cells.len() as int;
    let cell = cells[i];
    let own = cell_reasons(i, cell);
    let place = "cell["@ + decimal(i as nat) + "]"@;
    lemma_cell_codes(i, cell, "unattested-cell"@);
    lemma_cell_codes(i, cell, "outcome-without-reason"@);
    if own.len() > 0 {
        let name = named_cell(i, cell);
        assert(name.take(place.len() as int) =~= place);
        assert(own[0].detail.take(name.len() as int) =~= name);
        assert(own[0].detail.take(place.len() as int) =~= place) by {
            assert(own[0].detail.take(name.len() as int).take(place.len() as int)
                =~= own[0].detail.take(place.len() as int));
        }
        let at = lemma_cell_reason_stands(cells, n, i);
        let before = emulation_reasons(t) + source_reasons(t) + build_reasons(t)
            + filesystem_reasons(t) + invocation_reasons(t);
        assert(refusals_of(t)[before.len() + at] == own[0]);
    }
}

/// Where the reason of a cell stands among those of all cells.
proof fn lemma_cell_reason_stands(cells: Seq<Json>, n: int, i: int) -> (at: int)
    requires
        0 <= i < n <= cells.len(),
        cell_reasons(i, cells[i]).len() > 0,
    ensures
        0 <= at < all_cell_reasons(cells, n).len(),
        all_cell_reasons(cells, n)[at] == cell_reasons(i, cells[i])[0],
    decreases n,
{
    if i < n - 1 {
        lemma_cell_reason_stands(cells, n - 1, i)
    } else {
        all_cell_reasons(cells, n - 1).len() as int
    }
}

/// The cells of a document are the items of its list of cells.
pub proof fn law_cells_are_those_listed(t: Json)
    ensures
        lookup(t, "cells"@) matches Some(Json::Array(items)) ==> cells_of(t) == items,
        !(lookup(t, "cells"@) matches Some(Json::Array(_))) ==> cells_of(t).len() == 0,
{
}

/// A value counts exactly where it is a number written with digits alone that is
/// within 64 bits.
pub proof fn law_count_is_of_digits_alone(v: Option<Json>, n: nat)
    ensures
        count_of(v) == Some(n) <==> (v matches Some(Json::Number(token)) && token.len() > 0
            && all_digits(token) && digits_value(token) == n && n <= u64::MAX),
{
}

} // verus!
