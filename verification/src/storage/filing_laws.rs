//! What a run is named by, what its digests are over, and what is filed of it.

use crate::sha256::sha256_hex_of;
use crate::storage::admission_laws::{law_trimming_takes_white_space_alone, says_something};
use crate::storage::aggregate::{check_answer, filing_answer, verify_answer};
use crate::storage::archive::{
    archived_digest, compacted, described, host_bucket, host_fields, index_row, is_listed,
    known_text, row_key, row_run, run_id_of, sealed_tree, sorted_rows, value_at, ArchiveEntry,
    ArchiveError, Reason,
};
use crate::storage::archive_laws::law_index_is_sorted;
use crate::storage::canonical::canonical_text;
use crate::storage::integrity::{digests_of, evidence_of, findings_of, stated_seal, Findings, Seal};
use crate::storage::integrity_laws::{law_get_after_insert, law_get_after_remove, seal_tree};
use crate::storage::json::{inserted, key_index, lookup, removed, Fault, Json};
use crate::text::{decimal, text_less};
use crate::words::{joined, trimmed};
use vstd::prelude::*;
use vstd::utf8::encode_utf8;

verus! {

/// A run has an id exactly where the document says when it started and which commit
/// of the library it measured; where it does not, the first of the two that is
/// missing is named. The id is the compacted start, the commit and the bucket of the
/// host.
pub proof fn law_run_is_named_by_its_start_commit_and_host(
    t: Json,
    started: Seq<char>,
    commit: Seq<char>,
)
    ensures
        run_id_of(t) is Ok <==> says_something(value_at(t, "startedAt"@)) && says_something(
            value_at(t, "provenance.library.commit"@),
        ),
        !says_something(value_at(t, "startedAt"@)) ==> run_id_of(t) == Err::<Seq<char>, Seq<char>>(
            "startedAt"@,
        ),
        says_something(value_at(t, "startedAt"@)) && !says_something(
            value_at(t, "provenance.library.commit"@),
        ) ==> run_id_of(t) == Err::<Seq<char>, Seq<char>>("provenance.library.commit"@),
        value_at(t, "startedAt"@) == Some(Json::Str(started)) && value_at(
            t,
            "provenance.library.commit"@,
        ) == Some(Json::Str(commit)) && run_id_of(t) is Ok ==> run_id_of(t)->Ok_0 == compacted(
            trimmed(started),
        ) + "-"@ + trimmed(commit) + "-"@ + host_bucket(t),
{
    if let Some(Json::Str(s)) = value_at(t, "startedAt"@) {
        law_trimming_takes_white_space_alone(s);
    }
    if let Some(Json::Str(s)) = value_at(t, "provenance.library.commit"@) {
        law_trimming_takes_white_space_alone(s);
    }
}

/// What a document says of one of the fields that a host is known by.
pub open spec fn host_says(v: Option<Json>) -> Seq<char> {
    if says_something(v) {
        trimmed(v->0->Str_0)
    } else {
        "unknown"@
    }
}

/// The bucket of a host is the start of a SHA-256 over six fields in their order, a
/// NUL between each two: the system, the architecture, the processor, the compiler,
/// the filesystem and the verdict on emulation. A field that says nothing counts as
/// unknown. So it is the same for documents that say the same of these.
pub proof fn law_host_is_known_by_six_fields(t: Json, u: Json)
    ensures
        host_bucket(t) == sha256_hex_of(
            encode_utf8(
                host_says(value_at(t, "provenance.os"@)) + "\0"@ + host_says(
                    value_at(t, "provenance.arch"@),
                ) + "\0"@ + host_says(value_at(t, "provenance.cpuModel"@)) + "\0"@ + host_says(
                    value_at(t, "provenance.node.rustc"@),
                ) + "\0"@ + host_says(value_at(t, "provenance.filesystem.fsType"@)) + "\0"@
                    + described(value_at(t, "provenance.emulated"@)),
            ),
        ).take(8),
        value_at(t, "provenance.emulated"@) == Some(Json::Bool(false)) ==> described(
            value_at(t, "provenance.emulated"@),
        ) == "false"@,
        value_at(t, "provenance.emulated"@) == Some(Json::Bool(true)) ==> described(
            value_at(t, "provenance.emulated"@),
        ) == "true"@,
        value_at(t, "provenance.emulated"@) is None ==> described(
            value_at(t, "provenance.emulated"@),
        ) == "absent"@,
        value_at(t, "provenance.os"@) == value_at(u, "provenance.os"@) && value_at(
            t,
            "provenance.arch"@,
        ) == value_at(u, "provenance.arch"@) && value_at(t, "provenance.cpuModel"@) == value_at(
            u,
            "provenance.cpuModel"@,
        ) && value_at(t, "provenance.node.rustc"@) == value_at(u, "provenance.node.rustc"@)
            && value_at(t, "provenance.filesystem.fsType"@) == value_at(
            u,
            "provenance.filesystem.fsType"@,
        ) && value_at(t, "provenance.emulated"@) == value_at(u, "provenance.emulated"@)
            ==> host_bucket(t) == host_bucket(u),
{
    lemma_host_says(t, "provenance.os"@);
    lemma_host_says(t, "provenance.arch"@);
    lemma_host_says(t, "provenance.cpuModel"@);
    lemma_host_says(t, "provenance.node.rustc"@);
    lemma_host_says(t, "provenance.filesystem.fsType"@);
    let f = host_fields(t);
    let g5 = f.drop_last();
    let g4 = g5.drop_last();
    let g3 = g4.drop_last();
    let g2 = g3.drop_last();
    let g1 = g2.drop_last();
    assert(f.len() == 6 && g1.len() == 1);
    assert(joined(g1, "\0"@) == f[0]);
    assert(g2.last() == f[1] && g3.last() == f[2] && g4.last() == f[3] && g5.last() == f[4]
        && f.last() == f[5]);
    assert(joined(g2, "\0"@) == f[0] + "\0"@ + f[1]);
    assert(joined(g3, "\0"@) == f[0] + "\0"@ + f[1] + "\0"@ + f[2]);
    assert(joined(g4, "\0"@) == f[0] + "\0"@ + f[1] + "\0"@ + f[2] + "\0"@ + f[3]);
    assert(joined(g5, "\0"@) == f[0] + "\0"@ + f[1] + "\0"@ + f[2] + "\0"@ + f[3] + "\0"@ + f[4]);
    assert(joined(f, "\0"@) == f[0] + "\0"@ + f[1] + "\0"@ + f[2] + "\0"@ + f[3] + "\0"@ + f[4]
        + "\0"@ + f[5]);
    if value_at(t, "provenance.os"@) == value_at(u, "provenance.os"@) && value_at(
        t,
        "provenance.arch"@,
    ) == value_at(u, "provenance.arch"@) && value_at(t, "provenance.cpuModel"@) == value_at(
        u,
        "provenance.cpuModel"@,
    ) && value_at(t, "provenance.node.rustc"@) == value_at(u, "provenance.node.rustc"@) && value_at(
        t,
        "provenance.filesystem.fsType"@,
    ) == value_at(u, "provenance.filesystem.fsType"@) && value_at(t, "provenance.emulated"@)
        == value_at(u, "provenance.emulated"@) {
        assert(host_fields(t) =~= host_fields(u));
    }
}

/// A field that says nothing counts as unknown.
proof fn lemma_host_says(t: Json, path: Seq<char>)
    ensures
        known_text(t, path) == host_says(value_at(t, path)),
{
    if let Some(Json::Str(s)) = value_at(t, path) {
        law_trimming_takes_white_space_alone(s);
    }
}

/// Each of the four digests is `sha256:` and the SHA-256 of the canonical text of what
/// it is over: the cells, the runners and the measurement, `null` where the document
/// has none, and the whole document without its seal and the time it was combined.
/// There are digests exactly where all four have a canonical text.
pub proof fn law_digests_are_over_their_blocks(t: Json)
    ensures
        ({
            let cells = match lookup(t, "cells"@) {
                Some(v) => v,
                None => Json::Null,
            };
            let runners = match lookup(t, "runners"@) {
                Some(v) => v,
                None => Json::Null,
            };
            let measurement = match lookup(t, "measurement"@) {
                Some(v) => v,
                None => Json::Null,
            };
            let evidence = removed(removed(t, "integrity"@), "combinedAt"@);
            &&& digests_of(t) is Ok <==> canonical_text(cells) is Ok && canonical_text(runners)
                is Ok && canonical_text(measurement) is Ok && canonical_text(evidence) is Ok
            &&& digests_of(t) matches Ok(seal) ==> {
                &&& seal.cells == "sha256:"@ + sha256_hex_of(
                    encode_utf8(canonical_text(cells)->Ok_0),
                )
                &&& seal.runners == "sha256:"@ + sha256_hex_of(
                    encode_utf8(canonical_text(runners)->Ok_0),
                )
                &&& seal.measurements == "sha256:"@ + sha256_hex_of(
                    encode_utf8(canonical_text(measurement)->Ok_0),
                )
                &&& seal.document == "sha256:"@ + sha256_hex_of(
                    encode_utf8(canonical_text(evidence)->Ok_0),
                )
            }
        }),
{
}

/// What the `document` digest is over holds every entry of the document but the seal
/// and the time it was combined.
pub proof fn law_evidence_is_all_but_the_seal(t: Json, key: Seq<char>)
    requires
        t is Object,
    ensures
        lookup(evidence_of(t), "integrity"@) is None,
        lookup(evidence_of(t), "combinedAt"@) is None,
        key != "integrity"@ && key != "combinedAt"@ ==> lookup(evidence_of(t), key) == lookup(t, key),
{
    let once = removed(t, "integrity"@);
    law_get_after_remove(t, "integrity"@, key);
    law_get_after_remove(once, "combinedAt"@, key);
    law_get_after_remove(once, "combinedAt"@, "integrity"@);
    reveal_strlit("integrity");
    reveal_strlit("combinedAt");
    assert("integrity"@.len() == 9 && "combinedAt"@.len() == 10);
}

/// A sealed document says when it was combined and states its four digests under their
/// names; every other entry is as it was.
pub proof fn law_seal_adds_two_entries(t: Json, combined_at: Seq<char>, seal: Seal, key: Seq<char>)
    requires
        t is Object,
    ensures
        ({
            let sealed = sealed_tree(t, combined_at, seal);
            &&& lookup(sealed, "combinedAt"@) == Some(Json::Str(combined_at))
            &&& lookup(sealed, "integrity"@) matches Some(block) && {
                &&& lookup(block, "cells"@) == Some(Json::Str(seal.cells))
                &&& lookup(block, "runners"@) == Some(Json::Str(seal.runners))
                &&& lookup(block, "measurements"@) == Some(Json::Str(seal.measurements))
                &&& lookup(block, "document"@) == Some(Json::Str(seal.document))
            }
            &&& key != "integrity"@ && key != "combinedAt"@ ==> lookup(sealed, key) == lookup(t, key)
        }),
{
    let dated = inserted(t, "combinedAt"@, Json::Str(combined_at));
    law_get_after_insert(t, "combinedAt"@, Json::Str(combined_at), key);
    law_get_after_insert(t, "combinedAt"@, Json::Str(combined_at), "combinedAt"@);
    law_get_after_insert(dated, "integrity"@, seal_tree(seal), key);
    law_get_after_insert(dated, "integrity"@, seal_tree(seal), "combinedAt"@);
    crate::storage::integrity_laws::lemma_names_differ();
    reveal_strlit("integrity");
    reveal_strlit("combinedAt");
    assert("integrity"@.len() == 9 && "combinedAt"@.len() == 10);
    reveal_with_fuel(key_index, 5);
}

/// A seal is stated exactly where the document has an `integrity` block with four
/// texts, and it states those.
pub proof fn law_stated_seal_is_the_four_texts(t: Json, seal: Seal)
    ensures
        stated_seal(t) == Some(seal) <==> (lookup(t, "integrity"@) matches Some(block) && {
            &&& lookup(block, "cells"@) == Some(Json::Str(seal.cells))
            &&& lookup(block, "runners"@) == Some(Json::Str(seal.runners))
            &&& lookup(block, "measurements"@) == Some(Json::Str(seal.measurements))
            &&& lookup(block, "document"@) == Some(Json::Str(seal.document))
        }),
{
}

/// The digest of an archived document is the one that its seal states for the whole of
/// it, and nothing where it states none.
pub proof fn law_archived_digest_is_the_stated_one(t: Json, d: Seq<char>)
    ensures
        (lookup(t, "integrity"@) matches Some(block) && lookup(block, "document"@) == Some(
            Json::Str(d),
        )) ==> archived_digest(t) == d,
        !(lookup(t, "integrity"@) matches Some(block) && lookup(block, "document"@) matches Some(
            Json::Str(_),
        )) ==> archived_digest(t).len() == 0,
{
    reveal_strlit("");
}

/// The names of an index row are all different.
proof fn lemma_row_names()
    ensures
        "runId"@ != "documentDigest"@,
        "runId"@ != "startedAt"@,
        "runId"@ != "libraryCommit"@,
        "runId"@ != "emulated"@,
        "runId"@ != "fsType"@,
        "runId"@ != "file"@,
        "documentDigest"@ != "startedAt"@,
        "documentDigest"@ != "libraryCommit"@,
        "documentDigest"@ != "emulated"@,
        "documentDigest"@ != "fsType"@,
        "documentDigest"@ != "file"@,
        "startedAt"@ != "libraryCommit"@,
        "startedAt"@ != "emulated"@,
        "startedAt"@ != "fsType"@,
        "startedAt"@ != "file"@,
        "libraryCommit"@ != "emulated"@,
        "libraryCommit"@ != "fsType"@,
        "libraryCommit"@ != "file"@,
        "emulated"@ != "fsType"@,
        "emulated"@ != "file"@,
        "fsType"@ != "file"@,
{
    reveal_strlit("runId");
    reveal_strlit("documentDigest");
    reveal_strlit("startedAt");
    reveal_strlit("libraryCommit");
    reveal_strlit("emulated");
    reveal_strlit("fsType");
    reveal_strlit("file");
    assert("runId"@.len() == 5 && "documentDigest"@.len() == 14 && "startedAt"@.len() == 9);
    assert("libraryCommit"@.len() == 13 && "emulated"@.len() == 8 && "fsType"@.len() == 6);
    assert("file"@.len() == 4);
}

/// The index row of a run names it, its digest and its file, and repeats what the
/// document says of its start, its commit, its emulation and its filesystem, `null`
/// where it says nothing.
pub proof fn law_index_row_repeats_the_document(run_id: Seq<char>, digest: Seq<char>, t: Json)
    ensures
        ({
            let row = index_row(run_id, digest, t);
            let told = |path: Seq<char>|
                match value_at(t, path) {
                    Some(v) => v,
                    None => Json::Null,
                };
            &&& lookup(row, "runId"@) == Some(Json::Str(run_id))
            &&& lookup(row, "documentDigest"@) == Some(Json::Str(digest))
            &&& lookup(row, "startedAt"@) == Some(told("startedAt"@))
            &&& lookup(row, "libraryCommit"@) == Some(told("provenance.library.commit"@))
            &&& lookup(row, "emulated"@) == Some(told("provenance.emulated"@))
            &&& lookup(row, "fsType"@) == Some(told("provenance.filesystem.fsType"@))
            &&& lookup(row, "file"@) == Some(Json::Str(run_id + ".json"@))
        }),
{
    lemma_row_names();
    reveal_with_fuel(key_index, 8);
}

/// A run is listed exactly where a row of the index names it, and the rows of an index
/// stand in ascending order of the runs they name.
pub proof fn law_index_lists_and_orders_runs(rows: Seq<Json>, run_id: Seq<char>, a: int, b: int)
    ensures
        is_listed(rows, run_id) <==> exists|i: int|
            0 <= i < rows.len() && lookup(#[trigger] rows[i], "runId"@) == Some(Json::Str(run_id)),
        0 <= a < b < rows.len() ==> (match (
            lookup(sorted_rows(rows)[a], "runId"@),
            lookup(sorted_rows(rows)[b], "runId"@),
        ) {
            (Some(Json::Str(x)), Some(Json::Str(y))) => !text_less(y, x),
            (Some(Json::Str(_)), _) => false,
            _ => true,
        }),
{
    if is_listed(rows, run_id) {
        let i = choose|i: int| 0 <= i < rows.len() && row_run(#[trigger] rows[i]) == Some(run_id);
        assert(lookup(rows[i], "runId"@) == Some(Json::Str(run_id)));
    }
    if exists|i: int|
        0 <= i < rows.len() && lookup(#[trigger] rows[i], "runId"@) == Some(Json::Str(run_id)) {
        let i = choose|i: int|
            0 <= i < rows.len() && lookup(#[trigger] rows[i], "runId"@) == Some(Json::Str(run_id));
        assert(row_run(rows[i]) == Some(run_id));
    }
    if 0 <= a < b < rows.len() {
        let sorted = sorted_rows(rows);
        law_index_is_sorted(rows, sorted[a]);
        assert(!text_less(row_key(sorted[b]), row_key(sorted[a])));
        if let Some(Json::Str(x)) = lookup(sorted[a], "runId"@) {
            assert(row_key(sorted[a]) == seq!['\0'] + x);
            if let Some(Json::Str(y)) = lookup(sorted[b], "runId"@) {
                assert(row_key(sorted[b]) == seq!['\0'] + y);
                assert((seq!['\0'] + x).skip(1) =~= x);
                assert((seq!['\0'] + y).skip(1) =~= y);
            }
        }
    }
}

/// Checking a document is answered with 0 exactly where it is refused for nothing,
/// and else with 1 and one line for each refusal, which names its code.
pub proof fn law_check_is_answered_by_its_refusals(path: Seq<char>, refusals: Seq<Reason>, i: int)
    ensures
        check_answer(path, refusals).0 == (if refusals.len() == 0 {
            0u8
        } else {
            1u8
        }),
        refusals.len() == 0 ==> check_answer(path, refusals).1 == seq![path + ": admissible"@],
        refusals.len() > 0 ==> check_answer(path, refusals).1.len() == refusals.len() + 1,
        refusals.len() > 0 ==> check_answer(path, refusals).1[0] == path + ": refused for "@
            + decimal(refusals.len()) + " reasons"@,
        0 <= i < refusals.len() ==> check_answer(path, refusals).1[i + 1] == "  REFUSED["@
            + refusals[i].code + "]: "@ + refusals[i].detail,
{
}

/// Filing is answered with 0 exactly where the document is filed, now or before, and
/// with 1 for every refusal and failure. A line says which.
pub proof fn law_filing_is_answered_by_its_result(
    path: Seq<char>,
    result: Result<ArchiveEntry, ArchiveError>,
)
    ensures
        filing_answer(path, result).0 == (if result is Ok {
            0u8
        } else {
            1u8
        }),
        result matches Ok(entry) ==> filing_answer(path, result).1.len() == 1 && filing_answer(
            path,
            result,
        ).1[0] == (if entry.written {
            "archived "@ + path + " as "@ + entry.run_id@ + " ("@ + entry.document_digest@ + ")"@
        } else {
            path + " is already archived as "@ + entry.run_id@
                + ", and its digest still matches, so nothing changed"@
        }),
        result matches Err(ArchiveError::Refused(refusals)) ==> filing_answer(path, result).1.len()
            == refusals@.len() + 1,
{
}

/// Verifying is answered with 0 exactly where the document states its seal and every
/// stated digest is the one its content gives, and with 1 everywhere else.
pub proof fn law_verify_is_answered_by_the_digests(t: Json, found: Findings)
    requires
        findings_of(t) == Ok::<Findings, Fault>(found),
    ensures
        verify_answer(found).0 == (if digests_of(t) is Ok && stated_seal(t) == Some(
            digests_of(t)->Ok_0,
        ) {
            0u8
        } else {
            1u8
        }),
        verify_answer(found).1.len() > 0,
{
    crate::storage::integrity_laws::law_verifies_iff_all_four_hold(t, found);
}

} // verus!
