//! What holds of edits, seals and verifications, whatever the document.

use crate::storage::integrity::{
    block_names, blocks_where, digest_named, digests_of, evidence_of, findings_of, lemma_key_index,
    stated_seal, text_field, Findings, Seal,
};
use crate::storage::json::{inserted, key_index, lookup, removed, without_key, Fault, Json};
use vstd::prelude::*;

verus! {

/// An entry with another key in one place does not move the first entry with
/// `key`.
proof fn lemma_index_update(
    entries: Seq<(Seq<char>, Json)>,
    at: int,
    entry: (Seq<char>, Json),
    key: Seq<char>,
    i: int,
)
    requires
        0 <= i <= entries.len(),
        0 <= at < entries.len(),
        entry.0 == entries[at].0,
    ensures
        key_index(entries.update(at, entry), key, i) == key_index(entries, key, i),
    decreases entries.len() - i,
{
    if i < entries.len() && entries[i].0 != key {
        lemma_index_update(entries, at, entry, key, i + 1);
    }
}

/// An entry behind the others is found only where none of them has the key.
proof fn lemma_index_push(
    entries: Seq<(Seq<char>, Json)>,
    entry: (Seq<char>, Json),
    key: Seq<char>,
    i: int,
)
    requires
        0 <= i <= entries.len(),
    ensures
        key_index(entries.push(entry), key, i) == (if key_index(entries, key, i) < entries.len() {
            key_index(entries, key, i)
        } else if entry.0 == key {
            entries.len() as int
        } else {
            (entries.len() + 1) as int
        }),
    decreases entries.len() - i,
{
    if i < entries.len() && entries[i].0 != key {
        lemma_index_push(entries, entry, key, i + 1);
    } else if i == entries.len() && entry.0 != key {
        assert(key_index(entries.push(entry), key, i + 1) == i + 1);
    }
}

/// What was set is what is read back, and every other key reads as before.
pub proof fn law_get_after_insert(t: Json, key: Seq<char>, value: Json, other: Seq<char>)
    requires
        t is Object,
    ensures
        lookup(inserted(t, key, value), key) == Some(value),
        other != key ==> lookup(inserted(t, key, value), other) == lookup(t, other),
{
    let entries = t->Object_0;
    let at = key_index(entries, key, 0);
    lemma_key_index(entries, key, 0);
    lemma_key_index(entries, other, 0);
    if at < entries.len() {
        lemma_index_update(entries, at, (entries[at].0, value), key, 0);
        lemma_index_update(entries, at, (entries[at].0, value), other, 0);
    } else {
        lemma_index_push(entries, (key, value), key, 0);
        lemma_index_push(entries, (key, value), other, 0);
    }
}

/// Setting a key keeps the keys of a document and their order, and adds the key
/// at the end where it was not there.
pub proof fn law_insert_keeps_file_order(t: Json, key: Seq<char>, value: Json)
    requires
        t is Object,
    ensures
        ({
            let before = t->Object_0;
            let after = inserted(t, key, value)->Object_0;
            &&& before.len() <= after.len() <= before.len() + 1
            &&& forall|i: int| 0 <= i < before.len() ==> (#[trigger] after[i]).0 == before[i].0
            &&& after.len() > before.len() ==> after.last() == (key, value) && lookup(t, key)
                is None
        }),
{
    lemma_key_index(t->Object_0, key, 0);
}

/// Where the first entry with a key stands among those that another key leaves.
proof fn lemma_lookup_without(entries: Seq<(Seq<char>, Json)>, gone: Seq<char>, key: Seq<char>)
    ensures
        gone == key ==> lookup(Json::Object(without_key(entries, gone)), key) is None,
        gone != key ==> lookup(Json::Object(without_key(entries, gone)), key) == lookup(
            Json::Object(entries),
            key,
        ),
    decreases entries.len(),
{
    if entries.len() > 0 {
        let front = entries.drop_last();
        let last = entries.last();
        lemma_lookup_without(front, gone, key);
        lemma_key_index(front, key, 0);
        lemma_index_push(front, last, key, 0);
        assert(front.push(last) =~= entries);
        let kept = without_key(front, gone);
        lemma_key_index(kept, key, 0);
        lemma_index_push(kept, last, key, 0);
    }
}

/// A key that was removed is not found, and every other key reads as before.
pub proof fn law_get_after_remove(t: Json, gone: Seq<char>, other: Seq<char>)
    ensures
        lookup(removed(t, gone), gone) is None,
        other != gone ==> lookup(removed(t, gone), other) == lookup(t, other),
{
    if t is Object {
        lemma_lookup_without(t->Object_0, gone, gone);
        lemma_lookup_without(t->Object_0, gone, other);
    }
}

/// Replacing an entry by one with the same key, which goes, changes nothing of
/// what is left.
proof fn lemma_without_update(
    entries: Seq<(Seq<char>, Json)>,
    at: int,
    entry: (Seq<char>, Json),
    key: Seq<char>,
)
    requires
        0 <= at < entries.len(),
        entries[at].0 == key,
        entry.0 == key,
    ensures
        without_key(entries.update(at, entry), key) == without_key(entries, key),
    decreases entries.len(),
{
    let changed = entries.update(at, entry);
    if at < entries.len() - 1 {
        lemma_without_update(entries.drop_last(), at, entry, key);
        assert(changed.drop_last() =~= entries.drop_last().update(at, entry));
    } else {
        assert(changed.drop_last() =~= entries.drop_last());
    }
}

/// Setting a key that is then removed leaves what removing it leaves.
pub proof fn law_remove_after_insert(t: Json, key: Seq<char>, value: Json)
    ensures
        removed(inserted(t, key, value), key) == removed(t, key),
{
    if t is Object {
        let entries = t->Object_0;
        let at = key_index(entries, key, 0);
        lemma_key_index(entries, key, 0);
        if at < entries.len() {
            lemma_without_update(entries, at, (entries[at].0, value), key);
        } else {
            assert(entries.push((key, value)).drop_last() =~= entries);
        }
    }
}

/// Two removals may come in either order.
proof fn lemma_without_commutes(entries: Seq<(Seq<char>, Json)>, a: Seq<char>, b: Seq<char>)
    ensures
        without_key(without_key(entries, a), b) == without_key(without_key(entries, b), a),
    decreases entries.len(),
{
    if entries.len() > 0 {
        let front = entries.drop_last();
        lemma_without_commutes(front, a, b);
        let last = entries.last();
        assert(without_key(front, a).push(last).drop_last() =~= without_key(front, a));
        assert(without_key(front, b).push(last).drop_last() =~= without_key(front, b));
    }
}

/// The three block names and the two names that sealing writes are all
/// different.
pub(crate) proof fn lemma_names_differ()
    ensures
        "integrity"@ != "cells"@,
        "integrity"@ != "runners"@,
        "integrity"@ != "measurement"@,
        "combinedAt"@ != "cells"@,
        "combinedAt"@ != "runners"@,
        "combinedAt"@ != "measurement"@,
        "cells"@ != "runners"@,
        "cells"@ != "measurements"@,
        "cells"@ != "document"@,
        "runners"@ != "measurements"@,
        "runners"@ != "document"@,
        "measurements"@ != "document"@,
{
    reveal_strlit("integrity");
    reveal_strlit("combinedAt");
    reveal_strlit("cells");
    reveal_strlit("runners");
    reveal_strlit("measurement");
    reveal_strlit("measurements");
    reveal_strlit("document");
    assert("integrity"@.len() == 9);
    assert("combinedAt"@.len() == 10);
    assert("cells"@.len() == 5);
    assert("runners"@.len() == 7);
    assert("measurement"@.len() == 11);
    assert("measurements"@.len() == 12);
    assert("document"@.len() == 8);
}

/// Sealing a document, and stating when it was combined, changes none of its
/// four digests.
pub proof fn law_sealing_keeps_the_digests(t: Json, value: Json)
    ensures
        evidence_of(inserted(t, "integrity"@, value)) == evidence_of(t),
        evidence_of(inserted(t, "combinedAt"@, value)) == evidence_of(t),
        digests_of(inserted(t, "integrity"@, value)) == digests_of(t),
        digests_of(inserted(t, "combinedAt"@, value)) == digests_of(t),
{
    law_remove_after_insert(t, "integrity"@, value);
    law_remove_after_insert(t, "combinedAt"@, value);
    if t is Object {
        lemma_names_differ();
        lemma_without_commutes(
            inserted(t, "combinedAt"@, value)->Object_0,
            "integrity"@,
            "combinedAt"@,
        );
        lemma_without_commutes(t->Object_0, "integrity"@, "combinedAt"@);
        law_get_after_insert(t, "integrity"@, value, "cells"@);
        law_get_after_insert(t, "integrity"@, value, "runners"@);
        law_get_after_insert(t, "integrity"@, value, "measurement"@);
        law_get_after_insert(t, "combinedAt"@, value, "cells"@);
        law_get_after_insert(t, "combinedAt"@, value, "runners"@);
        law_get_after_insert(t, "combinedAt"@, value, "measurement"@);
    }
}

/// Four digests as the `integrity` block holds them.
pub open spec fn seal_tree(seal: Seal) -> Json {
    Json::Object(
        seq![
            ("cells"@, Json::Str(seal.cells)),
            ("runners"@, Json::Str(seal.runners)),
            ("measurements"@, Json::Str(seal.measurements)),
            ("document"@, Json::Str(seal.document)),
        ],
    )
}

/// The digests that a seal states are the digests it holds.
proof fn lemma_seal_reads_back(seal: Seal)
    ensures
        text_field(seal_tree(seal), "cells"@) == Some(seal.cells),
        text_field(seal_tree(seal), "runners"@) == Some(seal.runners),
        text_field(seal_tree(seal), "measurements"@) == Some(seal.measurements),
        text_field(seal_tree(seal), "document"@) == Some(seal.document),
{
    lemma_names_differ();
    reveal_with_fuel(key_index, 5);
}

/// Equal digests: nothing moved.
proof fn lemma_nothing_moved(names: Seq<Seq<char>>, seal: Seal)
    ensures
        blocks_where(names, seal, seal, false) == Seq::<Seq<char>>::empty(),
        blocks_where(names, seal, seal, true) == names,
    decreases names.len(),
{
    if names.len() > 0 {
        lemma_nothing_moved(names.drop_last(), seal);
        assert(names.drop_last().push(names.last()) =~= names);
    } else {
        assert(names =~= Seq::<Seq<char>>::empty());
    }
}

/// A document verifies once its own digests are sealed into it.
pub proof fn law_sealed_document_verifies(t: Json, seal: Seal)
    requires
        t is Object,
        digests_of(t) == Ok::<Seal, Fault>(seal),
    ensures
        findings_of(inserted(t, "integrity"@, seal_tree(seal))) == Ok::<Findings, Fault>(
            Findings {
                recomputed: seal,
                stated: Some(seal),
                moved: Seq::empty(),
                unchanged: block_names(),
                malformed_integrity: false,
            },
        ),
{
    let sealed = inserted(t, "integrity"@, seal_tree(seal));
    law_sealing_keeps_the_digests(t, seal_tree(seal));
    law_get_after_insert(t, "integrity"@, seal_tree(seal), "integrity"@);
    lemma_seal_reads_back(seal);
    lemma_nothing_moved(block_names(), seal);
}

/// A block that is named has moved exactly where its two digests differ.
proof fn lemma_blocks_where(
    names: Seq<Seq<char>>,
    stated: Seal,
    recomputed: Seal,
    equal: bool,
    block: Seq<char>,
)
    ensures
        blocks_where(names, stated, recomputed, equal).contains(block) <==> names.contains(block)
            && ((digest_named(stated, block) == digest_named(recomputed, block)) == equal),
        blocks_where(names, stated, recomputed, true).len() + blocks_where(
            names,
            stated,
            recomputed,
            false,
        ).len() == names.len(),
    decreases names.len(),
{
    if names.len() > 0 {
        let front = names.drop_last();
        lemma_blocks_where(front, stated, recomputed, equal, block);
        let before = blocks_where(front, stated, recomputed, equal);
        let after = blocks_where(names, stated, recomputed, equal);
        if after.contains(block) && !before.contains(block) {
            let i = choose|i: int| 0 <= i < after.len() && after[i] == block;
            assert(i == before.len() ==> block == names.last());
            if i < before.len() {
                assert(before[i] == block);
            }
            assert(names[names.len() - 1] == block);
        }
        if before.contains(block) {
            let i = choose|i: int| 0 <= i < before.len() && before[i] == block;
            assert(after[i] == block);
            let j = choose|j: int| 0 <= j < front.len() && front[j] == block;
            assert(names[j] == block);
        }
        if names.contains(block) && (digest_named(stated, block) == digest_named(
            recomputed,
            block,
        )) == equal {
            let j = choose|j: int| 0 <= j < names.len() && names[j] == block;
            if j < front.len() {
                assert(front[j] == block);
            } else {
                assert(after.last() == block);
                assert(after[after.len() - 1] == block);
            }
        }
    }
}

/// Each of the four blocks of a sealed document is reported once: as moved where
/// its stated digest is not the recomputed one, else as unchanged. Without a
/// seal nothing is reported.
pub proof fn law_every_block_is_reported_once(t: Json, found: Findings, block: Seq<char>)
    requires
        findings_of(t) == Ok::<Findings, Fault>(found),
    ensures
        found.stated is Some ==> {
            &&& found.moved.len() + found.unchanged.len() == 4
            &&& found.moved.contains(block) <==> block_names().contains(block) && digest_named(
                found.stated->0,
                block,
            ) != digest_named(found.recomputed, block)
            &&& found.unchanged.contains(block) <==> block_names().contains(block)
                && digest_named(found.stated->0, block) == digest_named(found.recomputed, block)
        },
        found.stated is None ==> found.moved.len() == 0 && found.unchanged.len() == 0,
{
    if let Some(stated) = found.stated {
        lemma_blocks_where(block_names(), stated, found.recomputed, true, block);
        lemma_blocks_where(block_names(), stated, found.recomputed, false, block);
    }
}

/// A document verifies exactly where it states all four digests and each of them
/// is the one its content gives.
pub proof fn law_verifies_iff_all_four_hold(t: Json, found: Findings)
    requires
        findings_of(t) == Ok::<Findings, Fault>(found),
    ensures
        (found.stated is Some && found.moved.len() == 0) <==> stated_seal(t) == Some(
            found.recomputed,
        ),
{
    if let Some(stated) = found.stated {
        lemma_names_differ();
        let names = block_names();
        assert(names[0] == "cells"@ && names[1] == "runners"@ && names[2] == "measurements"@
            && names[3] == "document"@);
        lemma_blocks_where(names, stated, found.recomputed, false, "cells"@);
        lemma_blocks_where(names, stated, found.recomputed, false, "runners"@);
        lemma_blocks_where(names, stated, found.recomputed, false, "measurements"@);
        lemma_blocks_where(names, stated, found.recomputed, false, "document"@);
        assert(names.contains("cells"@));
        assert(names.contains("runners"@));
        assert(names.contains("measurements"@));
        assert(names.contains("document"@));
        if found.moved.len() > 0 {
            let block = found.moved[0];
            assert(found.moved.contains(block));
            lemma_blocks_where(names, stated, found.recomputed, false, block);
        }
    }
}

/// What was found states the document's own seal and digests; its seal is malformed
/// exactly where there is something under `integrity` that is no seal.
pub proof fn law_findings_are_of_the_document(t: Json, found: Findings)
    requires
        findings_of(t) == Ok::<Findings, Fault>(found),
    ensures
        digests_of(t) == Ok::<Seal, Fault>(found.recomputed),
        found.stated == stated_seal(t),
        found.malformed_integrity <==> lookup(t, "integrity"@) is Some && found.stated is None,
        lookup(t, "integrity"@) is None ==> found.stated is None,
{
}

} // verus!
