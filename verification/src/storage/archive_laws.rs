//! What an admitted document is known to say, and what filing it twice does.

use crate::storage::archive::{
    all_cell_reasons, archived_digest, assertion_reasons, bool_of, build_reasons, cell_reasons,
    cells_of, cells_reasons, compacted, count_of, disagreeing_cells, emulation_reasons,
    filesystem_reasons, filled_text, host_fields, index_row, integrity_reasons, invocation_reasons,
    is_listed, is_offset, is_set, profile_reasons, refusals_of, reps_reasons, row_key, row_keys,
    row_run, run_id_of, scenario_reasons, sealed_tree, sorted_rows, source_reasons, stamp_reasons,
    text_in, tree_reasons, unstamped_cells, value_at, walk, whole_seconds, zone_behind,
};
use crate::storage::integrity::{
    block_names, digests_of, findings_of, findings_of_text, lemma_key_index, stated_seal, Findings,
    Seal,
};
use crate::storage::integrity_laws::{
    law_get_after_insert, law_sealed_document_verifies, law_sealing_keeps_the_digests,
    law_verifies_iff_all_four_hold, seal_tree,
};
use crate::storage::json::{
    inserted, key_index, lookup, numbers_valid, read_document, skip_space, Fault, Json,
};
use crate::storage::json_laws::{law_printed_document_reads_back, lemma_read_fits, nests_within};
use crate::storage::pretty::pretty_text;
use crate::text::{
    all_digits, is_digit, key_order, law_key_order_sorts, lemma_run_ends, text_less,
};
use crate::words::{contains_word, is_white, lemma_index_is, lemma_index_of, parts_of};
use vstd::prelude::*;

verus! {

/// What an admitted document is known to say of its platform, its sources and
/// its build.
pub open spec fn provenance_holds(t: Json) -> bool {
    &&& bool_of(value_at(t, "provenance.emulated"@)) == Some(false)
    &&& filled_text(t, "provenance.commit"@) is Some
    &&& filled_text(t, "provenance.library.commit"@) is Some
    &&& bool_of(value_at(t, "provenance.dirty"@)) is Some
    &&& bool_of(value_at(t, "provenance.library.dirty"@)) is Some
    &&& bool_of(value_at(t, "provenance.node.debugAssertions"@)) == Some(false)
    &&& filled_text(t, "provenance.node.buildProfile"@) == Some("release"@)
    &&& filled_text(t, "provenance.filesystem.fsType"@) is Some
    &&& filled_text(t, "provenance.filesystem.scratchDir"@) is Some
    &&& filled_text(t, "provenance.filesystem.fsType"@) == Some("tmpfs"@) ==> is_set(
        t,
        "provenance.filesystem.declaredTmpfs"@,
    )
    &&& text_in(value_at(t, "provenance.node.rustflags"@)) matches Some(flags) ==> !contains_word(
        flags,
        "-C instrument-coverage"@,
    ) && !contains_word(flags, "-Cinstrument-coverage"@) && !contains_word(flags, "-Z"@)
}

/// A cell that claims to be ok was attested, and any other says why not.
pub open spec fn cell_stands(cell: Json) -> bool {
    if text_in(lookup(cell, "outcome"@)) == Some("ok"@) {
        bool_of(lookup(cell, "storageAttested"@)) == Some(true)
    } else {
        filled_text(cell, "reason"@) is Some
    }
}

/// An admitted document was measured natively, from known sources, as a release
/// build, on a filesystem that it names. Every cell of it took the repetitions
/// that were asked for, and was attested or says why not. A dirty tree was
/// allowed, and every cell carries the mark. Digests that it carries still hold.
pub proof fn law_admitted_document_supports_its_claim(t: Json, i: int)
    requires
        refusals_of(t).len() == 0,
    ensures
        provenance_holds(t),
        value_at(t, "provenance.invocation"@) is Some,
        cells_of(t).len() > 0,
        0 <= i < cells_of(t).len() ==> cell_stands(cells_of(t)[i]),
        0 <= i < cells_of(t).len() ==> count_of(lookup(cells_of(t)[i], "reps"@)) is Some
            && count_of(lookup(cells_of(t)[i], "reps"@)) == count_of(
            value_at(t, "provenance.invocation.resolved.reps"@),
        ),
        is_set(t, "provenance.dirty"@) || is_set(t, "provenance.library.dirty"@) ==> is_set(
            t,
            "provenance.allowDirty"@,
        ) && (0 <= i < cells_of(t).len() ==> bool_of(lookup(cells_of(t)[i], "dirty"@)) == Some(
            true,
        )),
        lookup(t, "integrity"@) is Some ==> digests_of(t) is Ok && stated_seal(t) == Some(
            digests_of(t)->Ok_0,
        ),
{
    let cells = cells_of(t);
    let n = cells.len() as int;
    assert(emulation_reasons(t).len() == 0);
    assert(source_reasons(t).len() == 0);
    assert(build_reasons(t).len() == 0);
    assert(filesystem_reasons(t).len() == 0);
    assert(invocation_reasons(t).len() == 0);
    assert(cells_reasons(t).len() == 0);
    assert(integrity_reasons(t).len() == 0);
    assert(tree_reasons(t, "the harness"@, "provenance.commit"@, "provenance.dirty"@).len() == 0);
    assert(tree_reasons(
        t,
        "the measured library"@,
        "provenance.library.commit"@,
        "provenance.library.dirty"@,
    ).len() == 0);
    assert(assertion_reasons(t).len() == 0);
    assert(profile_reasons(t).len() == 0);
    assert(scenario_reasons(t).len() == 0);
    assert(reps_reasons(t).len() == 0);
    if 0 <= i < n {
        lemma_no_cell_reason(cells, n, i);
        let reps = count_of(value_at(t, "provenance.invocation.resolved.reps"@))->0;
        lemma_no_disagreeing(cells, reps, n, i);
        if is_set(t, "provenance.dirty"@) || is_set(t, "provenance.library.dirty"@) {
            assert(stamp_reasons(t).len() == 0);
            lemma_no_unstamped(cells, n, i);
        }
        let outcome = text_in(lookup(cells[i], "outcome"@));
        if outcome is None {
            reveal_strlit("");
            reveal_strlit("ok");
            assert(""@.len() != "ok"@.len());
        }
    }
    if lookup(t, "integrity"@) is Some {
        let found = findings_of(t)->Ok_0;
        if found.stated is Some && found.moved.len() == 0 {
            law_verifies_iff_all_four_hold(t, found);
        } else {
            assert(crate::storage::integrity::lines_of(found).len() > 0);
        }
    }
}

/// Where no cell is refused, none of them is.
proof fn lemma_no_cell_reason(cells: Seq<Json>, n: int, i: int)
    requires
        0 <= i < n <= cells.len(),
        all_cell_reasons(cells, n).len() == 0,
    ensures
        cell_reasons(i, cells[i]).len() == 0,
    decreases n,
{
    if i < n - 1 {
        lemma_no_cell_reason(cells, n - 1, i);
    }
}

/// Where no cell disagrees, each of them agrees.
proof fn lemma_no_disagreeing(cells: Seq<Json>, reps: nat, n: int, i: int)
    requires
        0 <= i < n <= cells.len(),
        disagreeing_cells(cells, reps, n).len() == 0,
    ensures
        count_of(lookup(cells[i], "reps"@)) == Some(reps),
    decreases n,
{
    if i < n - 1 {
        lemma_no_disagreeing(cells, reps, n - 1, i);
    }
}

/// Where no cell lacks the mark, each of them carries it.
proof fn lemma_no_unstamped(cells: Seq<Json>, n: int, i: int)
    requires
        0 <= i < n <= cells.len(),
        unstamped_cells(cells, n).len() == 0,
    ensures
        bool_of(lookup(cells[i], "dirty"@)) == Some(true),
    decreases n,
{
    if i < n - 1 {
        lemma_no_unstamped(cells, n - 1, i);
    }
}

/// A value below another key is where it was.
proof fn lemma_value_elsewhere(t: Json, key: Seq<char>, value: Json, path: Seq<char>)
    requires
        t is Object,
        key.len() > 0,
        path.len() > 0,
        path[0] != '.',
        path[0] != key[0],
    ensures
        value_at(inserted(t, key, value), path) == value_at(t, path),
{
    lemma_index_of(path, '.', 0);
    let first = parts_of(path, '.')[0];
    assert(first.len() > 0 && first[0] == path[0]);
    law_get_after_insert(t, key, value, first);
}

/// The paths that admission and identity read lie elsewhere than the seal.
proof fn lemma_provenance_elsewhere(t: Json, key: Seq<char>, value: Json)
    requires
        t is Object,
        key.len() > 0,
        key[0] == 'i' || key[0] == 'c',
    ensures
        forall|path: Seq<char>|
            path.len() > 0 && path[0] != '.' && path[0] != 'i' && path[0] != 'c' ==> value_at(
                inserted(t, key, value),
                path,
            ) == #[trigger] value_at(t, path),
{
    assert forall|path: Seq<char>|
        path.len() > 0 && path[0] != '.' && path[0] != 'i' && path[0] != 'c' implies value_at(
        inserted(t, key, value),
        path,
    ) == #[trigger] value_at(t, path) by {
        lemma_value_elsewhere(t, key, value, path);
    }
}

/// Whether a path lies elsewhere than the seal.
spec fn is_elsewhere(path: Seq<char>) -> bool {
    path.len() > 0 && path[0] != '.' && path[0] != 'i' && path[0] != 'c'
}

/// Every path that identity and admission read.
proof fn lemma_paths_elsewhere()
    ensures
        is_elsewhere("startedAt"@),
        is_elsewhere("provenance.emulated"@),
        is_elsewhere("provenance.emulationEvidence"@),
        is_elsewhere("provenance.commit"@),
        is_elsewhere("provenance.dirty"@),
        is_elsewhere("provenance.library.commit"@),
        is_elsewhere("provenance.library.dirty"@),
        is_elsewhere("provenance.allowDirty"@),
        is_elsewhere("provenance.node.debugAssertions"@),
        is_elsewhere("provenance.node.buildProfile"@),
        is_elsewhere("provenance.node.rustflags"@),
        is_elsewhere("provenance.node.rustc"@),
        is_elsewhere("provenance.filesystem.fsType"@),
        is_elsewhere("provenance.filesystem.scratchDir"@),
        is_elsewhere("provenance.filesystem.declaredTmpfs"@),
        is_elsewhere("provenance.invocation"@),
        is_elsewhere("provenance.invocation.resolved.scenarios"@),
        is_elsewhere("provenance.invocation.resolved.reps"@),
        is_elsewhere("provenance.os"@),
        is_elsewhere("provenance.arch"@),
        is_elsewhere("provenance.cpuModel"@),
{
    reveal_strlit("startedAt");
    reveal_strlit("provenance.emulated");
    reveal_strlit("provenance.emulationEvidence");
    reveal_strlit("provenance.commit");
    reveal_strlit("provenance.dirty");
    reveal_strlit("provenance.library.commit");
    reveal_strlit("provenance.library.dirty");
    reveal_strlit("provenance.allowDirty");
    reveal_strlit("provenance.node.debugAssertions");
    reveal_strlit("provenance.node.buildProfile");
    reveal_strlit("provenance.node.rustflags");
    reveal_strlit("provenance.node.rustc");
    reveal_strlit("provenance.filesystem.fsType");
    reveal_strlit("provenance.filesystem.scratchDir");
    reveal_strlit("provenance.filesystem.declaredTmpfs");
    reveal_strlit("provenance.invocation");
    reveal_strlit("provenance.invocation.resolved.scenarios");
    reveal_strlit("provenance.invocation.resolved.reps");
    reveal_strlit("provenance.os");
    reveal_strlit("provenance.arch");
    reveal_strlit("provenance.cpuModel");
}

/// The two keys that sealing writes.
spec fn is_seal_key(key: Seq<char>) -> bool {
    key == "integrity"@ || key == "combinedAt"@
}

/// What the seal's keys start with.
proof fn lemma_seal_key(key: Seq<char>)
    requires
        is_seal_key(key),
    ensures
        key.len() > 0,
        key[0] == 'i' || key[0] == 'c',
        key != "cells"@,
{
    reveal_strlit("integrity");
    reveal_strlit("combinedAt");
    reveal_strlit("cells");
    assert("cells"@.len() == 5);
}

/// The id of a run is the same whether or not the document is sealed, and
/// whenever it was combined.
pub proof fn law_run_id_ignores_the_seal(t: Json, value: Json)
    requires
        t is Object,
    ensures
        run_id_of(inserted(t, "integrity"@, value)) == run_id_of(t),
        run_id_of(inserted(t, "combinedAt"@, value)) == run_id_of(t),
{
    lemma_same_run_id(t, "integrity"@, value);
    lemma_same_run_id(t, "combinedAt"@, value);
}

/// Setting a key of the seal keeps the run id.
proof fn lemma_same_run_id(t: Json, key: Seq<char>, value: Json)
    requires
        t is Object,
        is_seal_key(key),
    ensures
        run_id_of(inserted(t, key, value)) == run_id_of(t),
{
    let u = inserted(t, key, value);
    lemma_seal_key(key);
    lemma_provenance_elsewhere(t, key, value);
    lemma_paths_elsewhere();
    assert(host_fields(u) =~= host_fields(t));
}

/// Setting a key of the seal keeps every reason but those of the seal itself.
proof fn lemma_same_reasons(t: Json, key: Seq<char>, value: Json)
    requires
        t is Object,
        is_seal_key(key),
    ensures
        emulation_reasons(inserted(t, key, value)) == emulation_reasons(t),
        source_reasons(inserted(t, key, value)) == source_reasons(t),
        build_reasons(inserted(t, key, value)) == build_reasons(t),
        filesystem_reasons(inserted(t, key, value)) == filesystem_reasons(t),
        invocation_reasons(inserted(t, key, value)) == invocation_reasons(t),
        cells_reasons(inserted(t, key, value)) == cells_reasons(t),
{
    lemma_seal_key(key);
    lemma_provenance_elsewhere(t, key, value);
    lemma_paths_elsewhere();
    law_get_after_insert(t, key, value, "cells"@);
}

/// Sealing a document a second time, at whatever time, changes nothing that its
/// filing rests on: an admitted document is still admitted, under the same id
/// and the same digests, and what was filed first is found to be the same run.
pub proof fn law_filing_twice_files_once(
    t: Json,
    seal: Seal,
    first: Seq<char>,
    second: Seq<char>,
)
    requires
        t is Object,
        refusals_of(t).len() == 0,
        digests_of(t) == Ok::<Seal, Fault>(seal),
    ensures
        refusals_of(sealed_tree(t, first, seal)).len() == 0,
        run_id_of(sealed_tree(t, first, seal)) == run_id_of(t),
        digests_of(sealed_tree(t, first, seal)) == Ok::<Seal, Fault>(seal),
        archived_digest(sealed_tree(t, first, seal)) == seal.document,
        sealed_tree(sealed_tree(t, first, seal), second, seal) == sealed_tree(t, second, seal),
{
    let dated = inserted(t, "combinedAt"@, Json::Str(first));
    let sealed = sealed_tree(t, first, seal);
    law_sealing_keeps_the_digests(t, Json::Str(first));
    law_sealing_keeps_the_digests(dated, seal_tree(seal));
    law_run_id_ignores_the_seal(t, Json::Str(first));
    law_run_id_ignores_the_seal(dated, seal_tree(seal));
    law_sealed_document_verifies(dated, seal);
    law_get_after_insert(dated, "integrity"@, seal_tree(seal), "integrity"@);
    lemma_same_reasons(t, "combinedAt"@, Json::Str(first));
    lemma_same_reasons(dated, "integrity"@, seal_tree(seal));
    lemma_seal_document(seal);
    assert(emulation_reasons(t).len() == 0);
    assert(refusals_of(sealed).len() == 0);
    lemma_reseal(t, seal, first, second);
}

/// A seal's `document` digest.
proof fn lemma_seal_document(seal: Seal)
    ensures
        lookup(seal_tree(seal), "document"@) == Some(Json::Str(seal.document)),
{
    reveal_strlit("cells");
    reveal_strlit("runners");
    reveal_strlit("measurements");
    reveal_strlit("document");
    assert("cells"@.len() == 5 && "runners"@.len() == 7 && "measurements"@.len() == 12
        && "document"@.len() == 8);
    reveal_with_fuel(key_index, 5);
}

/// Setting a key twice is setting it the second time.
proof fn lemma_insert_twice(t: Json, key: Seq<char>, a: Json, b: Json)
    requires
        t is Object,
    ensures
        inserted(inserted(t, key, a), key, b) == inserted(t, key, b),
{
    let once = inserted(t, key, a);
    law_get_after_insert(t, key, a, key);
    let i = key_index(t->Object_0, key, 0);
    let j = key_index(once->Object_0, key, 0);
    crate::storage::integrity::lemma_key_index(t->Object_0, key, 0);
    crate::storage::integrity::lemma_key_index(once->Object_0, key, 0);
    assert(i == j) by {
        if j < i {
            assert(t->Object_0[j].0 != key);
            assert(once->Object_0[j].0 == key);
        } else if i < j {
            assert(once->Object_0[i].0 != key);
        }
    }
    assert(inserted(once, key, b)->Object_0 =~= inserted(t, key, b)->Object_0);
}

/// Keys that are both there may be set in either order.
proof fn lemma_insert_commutes(t: Json, a: Seq<char>, x: Json, b: Seq<char>, y: Json)
    requires
        t is Object,
        a != b,
        lookup(t, a) is Some,
        lookup(t, b) is Some,
    ensures
        inserted(inserted(t, a, x), b, y) == inserted(inserted(t, b, y), a, x),
{
    let e = t->Object_0;
    crate::storage::integrity::lemma_key_index(e, a, 0);
    crate::storage::integrity::lemma_key_index(e, b, 0);
    let (i, j) = (key_index(e, a, 0), key_index(e, b, 0));
    let u = inserted(t, a, x)->Object_0;
    let v = inserted(t, b, y)->Object_0;
    lemma_index_kept(e, i, (e[i].0, x), b);
    lemma_index_kept(e, j, (e[j].0, y), a);
    assert(inserted(inserted(t, a, x), b, y)->Object_0 =~= inserted(
        inserted(t, b, y),
        a,
        x,
    )->Object_0);
}

/// Replacing a value moves no key.
proof fn lemma_index_kept(
    entries: Seq<(Seq<char>, Json)>,
    at: int,
    entry: (Seq<char>, Json),
    key: Seq<char>,
)
    requires
        0 <= at < entries.len(),
        entry.0 == entries[at].0,
    ensures
        key_index(entries.update(at, entry), key, 0) == key_index(entries, key, 0),
{
    let changed = entries.update(at, entry);
    crate::storage::integrity::lemma_key_index(entries, key, 0);
    crate::storage::integrity::lemma_key_index(changed, key, 0);
    let (i, j) = (key_index(entries, key, 0), key_index(changed, key, 0));
    if i < j {
        assert(changed[i].0 == key);
    } else if j < i {
        assert(entries[j].0 == changed[j].0);
    }
}

/// Sealing what is sealed writes the same document as sealing it once.
proof fn lemma_reseal(t: Json, seal: Seal, first: Seq<char>, second: Seq<char>)
    requires
        t is Object,
    ensures
        sealed_tree(sealed_tree(t, first, seal), second, seal) == sealed_tree(t, second, seal),
{
    let (c, k) = ("combinedAt"@, "integrity"@);
    reveal_strlit("combinedAt");
    reveal_strlit("integrity");
    assert(c.len() == 10 && k.len() == 9);
    let (x, y, s) = (Json::Str(first), Json::Str(second), seal_tree(seal));
    let dated = inserted(t, c, x);
    let sealed = inserted(dated, k, s);
    law_get_after_insert(t, c, x, c);
    law_get_after_insert(dated, k, s, c);
    // Dating and sealing again replaces both values where they stand.
    lemma_insert_commutes(sealed, c, y, k, s);
    assert(inserted(sealed, k, s) == sealed) by {
        lemma_insert_twice(dated, k, s, s);
    }
    assert(inserted(sealed, c, y) == inserted(inserted(t, c, y), k, s)) by {
        lemma_redate(t, c, x, y, k, s);
    }
    assert(inserted(inserted(sealed, c, y), k, s) == inserted(inserted(sealed, k, s), c, y));
}

/// A date that is set before and after another key is the date that was set
/// last.
proof fn lemma_redate(t: Json, c: Seq<char>, x: Json, y: Json, k: Seq<char>, s: Json)
    requires
        t is Object,
        c != k,
    ensures
        inserted(inserted(inserted(t, c, x), k, s), c, y) == inserted(inserted(t, c, y), k, s),
{
    let e = t->Object_0;
    let a = inserted(t, c, x);
    let b = inserted(t, c, y);
    law_get_after_insert(t, c, x, k);
    law_get_after_insert(t, c, y, k);
    law_get_after_insert(a, k, s, c);
    crate::storage::integrity::lemma_key_index(e, c, 0);
    crate::storage::integrity::lemma_key_index(e, k, 0);
    crate::storage::integrity::lemma_key_index(a->Object_0, c, 0);
    crate::storage::integrity::lemma_key_index(a->Object_0, k, 0);
    crate::storage::integrity::lemma_key_index(b->Object_0, c, 0);
    crate::storage::integrity::lemma_key_index(b->Object_0, k, 0);
    let d = inserted(a, k, s);
    crate::storage::integrity::lemma_key_index(d->Object_0, c, 0);
    let (ia, ib) = (key_index(a->Object_0, k, 0), key_index(b->Object_0, k, 0));
    assert(forall|i: int|
        0 <= i < a->Object_0.len() ==> (#[trigger] a->Object_0[i]).0 == b->Object_0[i].0);
    assert(a->Object_0.len() == b->Object_0.len());
    assert(ia == ib) by {
        if ia < ib {
            assert(b->Object_0[ia].0 == a->Object_0[ia].0);
        } else if ib < ia {
            assert(b->Object_0[ib].0 == a->Object_0[ib].0);
        }
    }
    let ca = key_index(a->Object_0, c, 0);
    let cd = key_index(d->Object_0, c, 0);
    assert(ca < a->Object_0.len());
    assert(forall|i: int|
        0 <= i < a->Object_0.len() ==> (#[trigger] d->Object_0[i]).0 == a->Object_0[i].0);
    assert(ca == cd) by {
        if ca < cd {
            assert(d->Object_0[ca].0 == a->Object_0[ca].0);
        } else if cd < ca {
            assert(d->Object_0[cd].0 == a->Object_0[cd].0);
        }
    }
    let ce = key_index(e, c, 0);
    assert(ce == ca) by {
        assert(forall|i: int| 0 <= i < e.len() ==> (#[trigger] a->Object_0[i]).0 == e[i].0);
        if ce < ca {
            assert(a->Object_0[ce].0 == c);
        } else if ca < ce {
            assert(a->Object_0[ca].0 == e[ca].0);
        }
    }
    assert(inserted(d, c, y)->Object_0 =~= inserted(b, k, s)->Object_0);
}

/// Sorting rows loses none, adds none and puts their runs in ascending order.
pub proof fn law_index_is_sorted(rows: Seq<Json>, row: Json)
    ensures
        sorted_rows(rows).len() == rows.len(),
        sorted_rows(rows).contains(row) <==> rows.contains(row),
        forall|a: int, b: int|
            0 <= a < b < rows.len() ==> !text_less(
                row_key(#[trigger] sorted_rows(rows)[b]),
                row_key(#[trigger] sorted_rows(rows)[a]),
            ),
{
    let keys = row_keys(rows);
    let order = key_order(keys);
    let sorted = sorted_rows(rows);
    law_key_order_sorts(keys);
    assert forall|k: int| 0 <= k < order.len() implies 0 <= #[trigger] order[k] < rows.len() by {
        assert(order.contains(order[k]));
    }
    if sorted.contains(row) {
        let k = choose|k: int| 0 <= k < sorted.len() && sorted[k] == row;
        assert(rows[order[k]] == row);
    }
    if rows.contains(row) {
        let i = choose|i: int| 0 <= i < rows.len() && rows[i] == row;
        assert(order.contains(i));
        let k = choose|k: int| 0 <= k < order.len() && order[k] == i;
        assert(sorted[k] == row);
    }
    assert forall|a: int, b: int| 0 <= a < b < rows.len() implies !text_less(
        row_key(#[trigger] sorted[b]),
        row_key(#[trigger] sorted[a]),
    ) by {
        assert(!text_less(keys[order[b]], keys[order[a]]));
    }
}

/// A run that was put into the index is listed there, with the row it was given,
/// and every row that was there still is.
pub proof fn law_indexed_run_is_listed(
    rows: Seq<Json>,
    run_id: Seq<char>,
    digest: Seq<char>,
    t: Json,
    other: Json,
)
    ensures
        is_listed(sorted_rows(rows.push(index_row(run_id, digest, t))), run_id),
        sorted_rows(rows.push(index_row(run_id, digest, t))).contains(
            index_row(run_id, digest, t),
        ),
        rows.contains(other) ==> sorted_rows(rows.push(index_row(run_id, digest, t))).contains(
            other,
        ),
{
    let row = index_row(run_id, digest, t);
    let all = rows.push(row);
    assert(all[rows.len() as int] == row);
    law_index_is_sorted(all, row);
    law_index_is_sorted(all, other);
    let sorted = sorted_rows(all);
    let k = choose|k: int| 0 <= k < sorted.len() && sorted[k] == row;
    assert(row_run(sorted[k]) == Some(run_id));
    if rows.contains(other) {
        let i = choose|i: int| 0 <= i < rows.len() && rows[i] == other;
        assert(all[i] == other);
    }
}

/// A run id does not move when a producer starts or stops printing fractions of
/// a second: the same moment without them is compacted to the same text, whether
/// it names its zone by `Z`, by an offset or not at all.
pub proof fn law_fractions_do_not_move_the_id(head: Seq<char>, frac: Seq<char>, zone: Seq<char>)
    requires
        forall|k: int| 0 <= k < head.len() ==> #[trigger] head[k] != '.',
        frac.len() > 0,
        all_digits(frac),
        zone == ""@ || zone == "Z"@ || is_offset(zone),
    ensures
        compacted(head + "."@ + frac + zone) == compacted(head + zone),
{
    reveal_strlit(".");
    reveal_strlit("Z");
    reveal_strlit("");
    let long = head + "."@ + frac + zone;
    let short = head + zone;
    let dot = head.len() as int;
    assert forall|k: int| 0 <= k < zone.len() implies #[trigger] zone[k] != '.' by {}
    lemma_index_is(long, '.', 0, dot);
    lemma_index_is(short, '.', 0, short.len() as int);
    let tail = long.skip(dot + 1);
    let n = frac.len() as int;
    assert(tail =~= frac + zone);
    assert(tail.subrange(0, n) =~= frac);
    assert(zone.len() > 0 ==> tail[n] == zone[0]);
    lemma_run_ends(tail, 0, frac);
    assert(tail.skip(n) =~= zone);
    if zone.len() == 0 {
        assert(is_digit(frac[n - 1]));
        assert(tail.last() == frac[n - 1]);
    }
    assert(zone_behind(tail) =~= zone);
    assert(whole_seconds(long) =~= short);
}

/// What a document says of its start, once that is set.
proof fn lemma_started(t: Json, started: Seq<char>)
    requires
        t is Object,
        started.len() > 0,
        !is_white(started[0]),
        !is_white(started.last()),
    ensures
        ({
            let u = inserted(t, "startedAt"@, Json::Str(started));
            &&& filled_text(u, "startedAt"@) == Some(started)
            &&& filled_text(u, "provenance.library.commit"@) == filled_text(
                t,
                "provenance.library.commit"@,
            )
            &&& host_fields(u) == host_fields(t)
        }),
{
    let key = "startedAt"@;
    let value = Json::Str(started);
    let u = inserted(t, key, value);
    reveal_strlit("startedAt");
    lemma_paths_elsewhere();
    law_get_after_insert(t, key, value, key);
    lemma_index_is(key, '.', 0, key.len() as int);
    assert(key.subrange(0, key.len() as int) =~= key);
    let keys = parts_of(key, '.');
    assert(keys == seq![key]);
    assert(walk(u, keys, 0) == walk(value, keys, 1));
    assert(value_at(u, key) == Some(value));
    reveal_strlit("provenance.os");
    reveal_strlit("provenance.arch");
    reveal_strlit("provenance.cpuModel");
    reveal_strlit("provenance.node.rustc");
    reveal_strlit("provenance.filesystem.fsType");
    reveal_strlit("provenance.emulated");
    reveal_strlit("provenance.library.commit");
    lemma_value_elsewhere(t, key, value, "provenance.os"@);
    lemma_value_elsewhere(t, key, value, "provenance.arch"@);
    lemma_value_elsewhere(t, key, value, "provenance.cpuModel"@);
    lemma_value_elsewhere(t, key, value, "provenance.node.rustc"@);
    lemma_value_elsewhere(t, key, value, "provenance.filesystem.fsType"@);
    lemma_value_elsewhere(t, key, value, "provenance.emulated"@);
    lemma_value_elsewhere(t, key, value, "provenance.library.commit"@);
    assert(host_fields(u) =~= host_fields(t));
}

/// Two documents that differ in nothing but a fraction of the second at which
/// they started have one run id.
pub proof fn law_run_id_ignores_fractions(
    t: Json,
    head: Seq<char>,
    frac: Seq<char>,
    zone: Seq<char>,
)
    requires
        t is Object,
        head.len() > 0,
        !is_white(head[0]),
        !is_white(head.last()),
        forall|k: int| 0 <= k < head.len() ==> #[trigger] head[k] != '.',
        frac.len() > 0,
        all_digits(frac),
        zone == ""@ || zone == "Z"@ || is_offset(zone),
    ensures
        run_id_of(inserted(t, "startedAt"@, Json::Str(head + "."@ + frac + zone))) == run_id_of(
            inserted(t, "startedAt"@, Json::Str(head + zone)),
        ),
{
    reveal_strlit(".");
    reveal_strlit("Z");
    reveal_strlit("");
    let (long, short) = (head + "."@ + frac + zone, head + zone);
    assert(is_digit(frac[frac.len() - 1]));
    assert(zone.len() > 0 ==> long.last() == zone.last() && short.last() == zone.last());
    assert(zone.len() == 0 ==> long.last() == frac[frac.len() - 1] && short.last() == head.last());
    law_fractions_do_not_move_the_id(head, frac, zone);
    lemma_started(t, long);
    lemma_started(t, short);
}

/// A value that fits one level down fits at a key.
proof fn lemma_inserted_fits(t: Json, key: Seq<char>, value: Json)
    requires
        t is Object,
        numbers_valid(t),
        nests_within(t, 0),
        numbers_valid(value),
        nests_within(value, 1),
    ensures
        numbers_valid(inserted(t, key, value)),
        nests_within(inserted(t, key, value), 0),
{
    let entries = t->Object_0;
    let after = inserted(t, key, value);
    lemma_key_index(entries, key, 0);
    assert forall|i: int| 0 <= i < after->Object_0.len() implies numbers_valid(
        (#[trigger] after->Object_0[i]).1,
    ) && nests_within(after->Object_0[i].1, 1) by {
        if i < entries.len() {
            assert(numbers_valid(t->Object_0[i].1) && nests_within(t->Object_0[i].1, 1));
        }
    }
}

/// What is filed verifies: the text of a document that was sealed, whenever that
/// was, states the four digests that its content gives.
pub proof fn law_filed_text_verifies(text: Seq<char>, t: Json, combined_at: Seq<char>, seal: Seal)
    requires
        read_document(text) == Ok::<Json, Fault>(t),
        t is Object,
        digests_of(t) == Ok::<Seal, Fault>(seal),
    ensures
        read_document(pretty_text(sealed_tree(t, combined_at, seal))) == Ok::<Json, Fault>(
            sealed_tree(t, combined_at, seal),
        ),
        findings_of_text(pretty_text(sealed_tree(t, combined_at, seal))) == Ok::<Findings, Fault>(
            Findings {
                recomputed: seal,
                stated: Some(seal),
                moved: Seq::empty(),
                unchanged: block_names(),
                malformed_integrity: false,
            },
        ),
{
    let dated = inserted(t, "combinedAt"@, Json::Str(combined_at));
    let sealed = sealed_tree(t, combined_at, seal);
    let block = seal_tree(seal);
    lemma_read_fits(text, skip_space(text, 0), 0);
    lemma_inserted_fits(t, "combinedAt"@, Json::Str(combined_at));
    assert forall|i: int| 0 <= i < block->Object_0.len() implies numbers_valid(
        (#[trigger] block->Object_0[i]).1,
    ) && nests_within(block->Object_0[i].1, 2) by {
        assert(block->Object_0[i].1 is Str);
    }
    lemma_inserted_fits(dated, "integrity"@, block);
    law_printed_document_reads_back(sealed);
    law_sealing_keeps_the_digests(t, Json::Str(combined_at));
    law_sealed_document_verifies(dated, seal);
}

} // verus!
