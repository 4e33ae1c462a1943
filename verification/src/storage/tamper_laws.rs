//! A sealed document of which one number was changed names the block it was
//! changed in.

use crate::sha256::sha256_hex_of;
use crate::storage::canonical::{
    canonical_number_of, canonical_text, keys_of, number_parts, ten_to,
};
use crate::storage::canonical_laws::{
    keys_distinct, law_canonical_number_keeps_the_value, lemma_ten_adds, magnitude, scale,
    significand,
};
use crate::storage::integrity::{
    block_names, block_of, blocks_where, digest_text, digests_of, evidence_of, findings_of,
    findings_of_text, lemma_key_index, stated_seal, Seal,
};
use crate::storage::integrity_laws::{law_get_after_insert, lemma_names_differ};
use crate::storage::json::{
    inserted, key_index, lookup, read_document, skip_space, without_key, Fault, Json,
};
use crate::storage::json_laws::{lemma_read_fits, nests_within};
use crate::storage::normal_form::{acceptable, law_canonical_text_is_owed, normal};
use crate::storage::normal_laws::law_canonical_text_tells_documents_apart;
use crate::text::{key_order, law_key_order_sorts};
use vstd::prelude::*;
use vstd::utf8::{encode_utf8, is_ascii_chars};

verus! {

/// Whether two number tokens stand for different numbers.
pub open spec fn differ_in_value(s: Seq<char>, t: Seq<char>) -> bool {
    let m = if scale(s) > scale(t) {
        scale(s)
    } else {
        scale(t)
    };
    magnitude(s, m) != magnitude(t, m) || (magnitude(s, m) != 0 && number_parts(s).negative
        != number_parts(t).negative)
}

/// Whether `y` is `x` with one number, at any depth, replaced by another number
/// that has a canonical spelling too.
pub open spec fn one_number_changed(x: Json, y: Json) -> bool
    decreases x,
{
    match (x, y) {
        (Json::Number(s), Json::Number(t)) => canonical_number_of(t, ""@) is Ok && differ_in_value(
            s,
            t,
        ),
        (Json::Array(p), Json::Array(q)) => p.len() == q.len() && exists|i: int|
            0 <= i < p.len() && #[trigger] p.update(i, q[i]) == q && one_number_changed(p[i], q[i]),
        (Json::Object(p), Json::Object(q)) => p.len() == q.len() && exists|i: int|
            0 <= i < p.len() && #[trigger] p.update(i, (p[i].0, q[i].1)) == q
                && one_number_changed(p[i].1, q[i].1),
        _ => false,
    }
}

/// A magnitude in a finer unit.
proof fn lemma_finer_magnitude(token: Seq<char>, m: int, k: nat)
    requires
        m >= scale(token),
    ensures
        magnitude(token, m + k) == magnitude(token, m) * ten_to(k),
        ten_to(k) > 0,
{
    let a = (m - scale(token)) as nat;
    lemma_ten_adds(a, k);
    lemma_ten_adds(k, 0);
    let (d, x, z) = (significand(token), ten_to(a), ten_to(k));
    assert((m + k - scale(token)) as nat == a + k);
    assert(d * (x * z) == (d * x) * z) by (nonlinear_arith);
}

/// Numbers of different value are spelled differently.
proof fn lemma_spellings_differ(s: Seq<char>, t: Seq<char>)
    requires
        canonical_number_of(s, ""@) is Ok,
        canonical_number_of(t, ""@) is Ok,
        differ_in_value(s, t),
    ensures
        canonical_number_of(s, ""@) != canonical_number_of(t, ""@),
{
    let out = canonical_number_of(s, ""@)->Ok_0;
    if canonical_number_of(t, ""@) == Ok::<Seq<char>, Fault>(out) {
        let m = if scale(s) > scale(t) {
            scale(s)
        } else {
            scale(t)
        };
        let k: nat = if scale(out) > m {
            (scale(out) - m) as nat
        } else {
            0
        };
        law_canonical_number_keeps_the_value(s, ""@, out, m + k);
        law_canonical_number_keeps_the_value(t, ""@, out, m + k);
        lemma_finer_magnitude(s, m, k);
        lemma_finer_magnitude(t, m, k);
        let (x, y, z) = (magnitude(s, m), magnitude(t, m), ten_to(k));
        assert(x == y) by (nonlinear_arith)
            requires
                x * z == y * z,
                z > 0,
        ;
        assert(x != 0 ==> x * z != 0) by (nonlinear_arith)
            requires
                z > 0,
        ;
    }
}

/// A tree of which one number was changed is acceptable where it was before, and
/// has another normal form.
proof fn lemma_normal_moves(x: Json, y: Json)
    requires
        acceptable(x),
        one_number_changed(x, y),
    ensures
        acceptable(y),
        normal(x) != normal(y),
    decreases x,
{
    match (x, y) {
        (Json::Number(s), Json::Number(t)) => {
            lemma_spellings_differ(s, t);
        },
        (Json::Array(p), Json::Array(q)) => {
            let i = choose|i: int|
                0 <= i < p.len() && #[trigger] p.update(i, q[i]) == q && one_number_changed(
                    p[i],
                    q[i],
                );
            assert(acceptable(x->Array_0[i]));
            lemma_normal_moves(p[i], q[i]);
            assert forall|j: int| 0 <= j < q.len() implies acceptable(#[trigger] q[j]) by {
                if j != i {
                    assert(q[j] == p[j]);
                    assert(acceptable(x->Array_0[j]));
                }
            }
            assert(normal(x)->Array_0[i] == normal(p[i]));
            assert(normal(y)->Array_0[i] == normal(q[i]));
        },
        (Json::Object(p), Json::Object(q)) => {
            let i = choose|i: int|
                0 <= i < p.len() && #[trigger] p.update(i, (p[i].0, q[i].1)) == q
                    && one_number_changed(p[i].1, q[i].1);
            assert(acceptable(x->Object_0[i].1));
            lemma_normal_moves(p[i].1, q[i].1);
            assert(forall|j: int| 0 <= j < q.len() ==> (#[trigger] q[j]).0 == p[j].0);
            assert forall|j: int| 0 <= j < q.len() implies is_ascii_chars((#[trigger] q[j]).0)
                && acceptable(q[j].1) by {
                assert(is_ascii_chars(x->Object_0[j].0) && acceptable(x->Object_0[j].1));
                if j != i {
                    assert(q[j] == p[j]);
                }
            }
            assert(keys_distinct(x->Object_0));
            assert forall|a: int, b: int| 0 <= a < b < q.len() implies (#[trigger] q[a]).0 != (
            #[trigger] q[b]).0 by {
                assert(p[a].0 != p[b].0);
            }
            assert(keys_distinct(q));
            assert(keys_of(q) =~= keys_of(p));
            let order = key_order(keys_of(p));
            law_key_order_sorts(keys_of(p));
            assert(order.contains(i));
            let k = choose|k: int| 0 <= k < order.len() && order[k] == i;
            assert(normal(x)->Object_0[k] == (p[i].0, normal(p[i].1)));
            assert(normal(y)->Object_0[k] == (q[i].0, normal(q[i].1)));
        },
        _ => {},
    }
}

/// Replacing the value of an entry that stays replaces it among those left.
proof fn lemma_without_changed(
    entries: Seq<(Seq<char>, Json)>,
    at: int,
    value: Json,
    gone: Seq<char>,
) -> (i: int)
    requires
        0 <= at < entries.len(),
        entries[at].0 != gone,
    ensures
        0 <= i < without_key(entries, gone).len(),
        without_key(entries, gone)[i] == entries[at],
        without_key(entries.update(at, (entries[at].0, value)), gone) == without_key(
            entries,
            gone,
        ).update(i, (entries[at].0, value)),
    decreases entries.len(),
{
    let entry = (entries[at].0, value);
    let changed = entries.update(at, entry);
    let front = entries.drop_last();
    let left = without_key(entries, gone);
    if at < entries.len() - 1 {
        let i = lemma_without_changed(front, at, value, gone);
        assert(changed.drop_last() =~= front.update(at, entry));
        assert(changed.last() == entries.last());
        assert(without_key(changed, gone) =~= left.update(i, entry));
        i
    } else {
        assert(changed.drop_last() =~= front);
        assert(without_key(changed, gone) =~= left.update(left.len() - 1, entry));
        left.len() - 1
    }
}

/// What nests within a depth nests within it from further out.
proof fn lemma_nests_outer(t: Json, depth: int, outer: int)
    requires
        nests_within(t, depth),
        outer <= depth,
    ensures
        nests_within(t, outer),
    decreases t,
{
    match t {
        Json::Array(items) => {
            assert forall|i: int| 0 <= i < items.len() implies nests_within(
                #[trigger] items[i],
                outer + 1,
            ) by {
                assert(nests_within(t->Array_0[i], depth + 1));
                lemma_nests_outer(items[i], depth + 1, outer + 1);
            }
        },
        Json::Object(entries) => {
            assert forall|i: int| 0 <= i < entries.len() implies nests_within(
                (#[trigger] entries[i]).1,
                outer + 1,
            ) by {
                assert(nests_within(t->Object_0[i].1, depth + 1));
                lemma_nests_outer(entries[i].1, depth + 1, outer + 1);
            }
        },
        _ => {},
    }
}

/// Entries that are left nest as they did.
proof fn lemma_nests_without(entries: Seq<(Seq<char>, Json)>, gone: Seq<char>, depth: int)
    requires
        forall|i: int|
            0 <= i < entries.len() ==> nests_within((#[trigger] entries[i]).1, depth + 1),
    ensures
        forall|i: int|
            0 <= i < without_key(entries, gone).len() ==> nests_within(
                (#[trigger] without_key(entries, gone)[i]).1,
                depth + 1,
            ),
    decreases entries.len(),
{
    if entries.len() > 0 {
        let front = entries.drop_last();
        assert forall|i: int| 0 <= i < front.len() implies nests_within(
            (#[trigger] front[i]).1,
            depth + 1,
        ) by {
            assert(front[i] == entries[i]);
        }
        lemma_nests_without(front, gone, depth);
        assert(nests_within(entries[entries.len() - 1].1, depth + 1));
        let left = without_key(entries, gone);
        assert forall|i: int| 0 <= i < left.len() implies nests_within(
            (#[trigger] left[i]).1,
            depth + 1,
        ) by {
            if i < without_key(front, gone).len() {
                assert(left[i] == without_key(front, gone)[i]);
            }
        }
    }
}

/// The evidence of a document nests as the document does.
proof fn lemma_evidence_nests(t: Json)
    requires
        nests_within(t, 0),
    ensures
        nests_within(evidence_of(t), 0),
{
    if t is Object {
        let entries = t->Object_0;
        let once = without_key(entries, "integrity"@);
        lemma_nests_without(entries, "integrity"@, 0);
        lemma_nests_without(once, "combinedAt"@, 0);
        let left = without_key(once, "combinedAt"@);
        assert(evidence_of(t) == Json::Object(left));
        assert(evidence_of(t)->Object_0 == left);
    }
}

/// Changing a number inside a block changes a number of the evidence.
proof fn lemma_evidence_moves(a: Json, key: Seq<char>, value: Json)
    requires
        lookup(a, key) is Some,
        one_number_changed(lookup(a, key)->0, value),
        key != "integrity"@,
        key != "combinedAt"@,
    ensures
        one_number_changed(evidence_of(a), evidence_of(inserted(a, key, value))),
{
    let entries = a->Object_0;
    let at = key_index(entries, key, 0);
    lemma_key_index(entries, key, 0);
    let i = lemma_without_changed(entries, at, value, "integrity"@);
    let once = without_key(entries, "integrity"@);
    let j = lemma_without_changed(once, i, value, "combinedAt"@);
    let p = without_key(once, "combinedAt"@);
    let q = p.update(j, (p[j].0, value));
    assert(evidence_of(a) == Json::Object(p));
    assert(evidence_of(inserted(a, key, value)) == Json::Object(q));
    assert(p.update(j, (p[j].0, q[j].1)) == q);
    assert(one_number_changed(p[j].1, q[j].1));
}

/// Whether SHA-256 tells the canonical texts of two trees apart, where they are
/// two texts.
pub open spec fn told_apart(x: Json, y: Json) -> bool {
    canonical_text(x) != canonical_text(y) ==> sha256_hex_of(
        encode_utf8(canonical_text(x)->Ok_0),
    ) != sha256_hex_of(encode_utf8(canonical_text(y)->Ok_0))
}

/// The name that a report gives to the block at `key`.
pub open spec fn name_of_block(key: Seq<char>) -> Seq<char> {
    if key == "measurement"@ {
        "measurements"@
    } else {
        key
    }
}

/// The two blocks beside the one at `key`, as a report names them.
pub open spec fn names_beside(key: Seq<char>) -> Seq<Seq<char>> {
    if key == "cells"@ {
        seq!["runners"@, "measurements"@]
    } else if key == "runners"@ {
        seq!["cells"@, "measurements"@]
    } else {
        seq!["cells"@, "runners"@]
    }
}

/// Different texts, told apart, have different digests.
proof fn lemma_digests_differ(x: Json, y: Json)
    requires
        acceptable(x),
        nests_within(x, 0),
        nests_within(y, 0),
        one_number_changed(x, y),
        told_apart(x, y),
    ensures
        canonical_text(x) is Ok,
        canonical_text(y) is Ok,
        digest_text(canonical_text(x)->Ok_0) != digest_text(canonical_text(y)->Ok_0),
{
    lemma_normal_moves(x, y);
    law_canonical_text_is_owed(x);
    law_canonical_text_is_owed(y);
    law_canonical_text_tells_documents_apart(x, y);
    let (c, d) = (canonical_text(x)->Ok_0, canonical_text(y)->Ok_0);
    let head = "sha256:"@;
    let n = head.len() as int;
    assert(digest_text(c).skip(n) =~= sha256_hex_of(encode_utf8(c)));
    assert(digest_text(d).skip(n) =~= sha256_hex_of(encode_utf8(d)));
}

/// Where two of four digests differ, one block's and the document's, those two
/// blocks moved and the others did not.
proof fn lemma_two_moved(stated: Seal, recomputed: Seal, key: Seq<char>)
    requires
        key == "cells"@ || key == "runners"@ || key == "measurement"@,
        (stated.cells == recomputed.cells) == (key != "cells"@),
        (stated.runners == recomputed.runners) == (key != "runners"@),
        (stated.measurements == recomputed.measurements) == (key != "measurement"@),
        stated.document != recomputed.document,
    ensures
        blocks_where(block_names(), stated, recomputed, false) == seq![
            name_of_block(key),
            "document"@,
        ],
        blocks_where(block_names(), stated, recomputed, true) == names_beside(key),
{
    lemma_names_differ();
    reveal_strlit("measurement");
    reveal_strlit("cells");
    reveal_strlit("runners");
    let four = block_names();
    let three = four.drop_last();
    let two = three.drop_last();
    let one = two.drop_last();
    assert(four.last() == "document"@ && three.last() == "measurements"@ && two.last()
        == "runners"@ && one.last() == "cells"@);
    assert(one.drop_last().len() == 0);
    assert("cells"@.len() == 5 && "runners"@.len() == 7 && "measurement"@.len() == 11);
    reveal_with_fuel(blocks_where, 5);
    assert(blocks_where(four, stated, recomputed, false) =~= seq![
        name_of_block(key),
        "document"@,
    ]);
    assert(blocks_where(four, stated, recomputed, true) =~= names_beside(key));
}

/// A document that verifies, and of which one number inside a block was then
/// changed for another, no longer does: the report names that block and the
/// document, and says of the other two blocks that they have not moved. This
/// holds wherever SHA-256 gives the changed texts digests of their own.
pub proof fn law_changed_number_names_its_block(
    text: Seq<char>,
    edited: Seq<char>,
    a: Json,
    key: Seq<char>,
    value: Json,
    seal: Seal,
)
    requires
        read_document(text) == Ok::<Json, Fault>(a),
        digests_of(a) == Ok::<Seal, Fault>(seal),
        stated_seal(a) == Some(seal),
        key == "cells"@ || key == "runners"@ || key == "measurement"@,
        lookup(a, key) is Some,
        one_number_changed(lookup(a, key)->0, value),
        read_document(edited) == Ok::<Json, Fault>(inserted(a, key, value)),
        told_apart(lookup(a, key)->0, value),
        told_apart(evidence_of(a), evidence_of(inserted(a, key, value))),
    ensures
        findings_of_text(edited) is Ok,
        ({
            let found = findings_of_text(edited)->Ok_0;
            &&& found.stated == Some(seal)
            &&& found.moved == seq![name_of_block(key), "document"@]
            &&& found.unchanged == names_beside(key)
            &&& !found.malformed_integrity
        }),
{
    let b = inserted(a, key, value);
    let block = lookup(a, key)->0;
    lemma_names_differ();
    reveal_strlit("measurement");
    assert("measurement"@.len() == 11);
    assert("cells"@.len() == 5) by {
        reveal_strlit("cells");
    }
    assert("runners"@.len() == 7) by {
        reveal_strlit("runners");
    }
    lemma_read_fits(text, skip_space(text, 0), 0);
    lemma_read_fits(edited, skip_space(edited, 0), 0);
    lemma_key_index(a->Object_0, key, 0);
    law_get_after_insert(a, key, value, key);
    law_get_after_insert(a, key, value, "integrity"@);
    law_get_after_insert(a, key, value, "cells"@);
    law_get_after_insert(a, key, value, "runners"@);
    law_get_after_insert(a, key, value, "measurement"@);
    let at = key_index(a->Object_0, key, 0);
    assert(nests_within(a->Object_0[at].1, 1));
    assert(nests_within(b->Object_0[at].1, 1));
    lemma_nests_outer(block, 1, 0);
    lemma_nests_outer(value, 1, 0);
    law_canonical_text_is_owed(block);
    assert(block_of(a, key) == block && block_of(b, key) == value);
    lemma_digests_differ(block, value);
    lemma_evidence_moves(a, key, value);
    lemma_evidence_nests(a);
    lemma_evidence_nests(b);
    law_canonical_text_is_owed(evidence_of(a));
    lemma_digests_differ(evidence_of(a), evidence_of(b));
    assert(digests_of(b) is Ok);
    lemma_two_moved(seal, digests_of(b)->Ok_0, key);
}

/// A document that verifies, and of which something outside its three blocks was
/// then changed, no longer does: the report names the document alone, so a reader
/// can tell a change to the environment from a change to the numbers.
pub proof fn law_changed_environment_moves_the_document_alone(
    a: Json,
    key: Seq<char>,
    value: Json,
    seal: Seal,
)
    requires
        a is Object,
        digests_of(a) == Ok::<Seal, Fault>(seal),
        stated_seal(a) == Some(seal),
        key != "cells"@,
        key != "runners"@,
        key != "measurement"@,
        key != "integrity"@,
        canonical_text(evidence_of(inserted(a, key, value))) is Ok,
        canonical_text(evidence_of(inserted(a, key, value))) != canonical_text(evidence_of(a)),
        told_apart(evidence_of(a), evidence_of(inserted(a, key, value))),
    ensures
        findings_of(inserted(a, key, value)) is Ok,
        ({
            let found = findings_of(inserted(a, key, value))->Ok_0;
            &&& found.stated == Some(seal)
            &&& found.moved == seq!["document"@]
            &&& found.unchanged == seq!["cells"@, "runners"@, "measurements"@]
            &&& !found.malformed_integrity
        }),
{
    let b = inserted(a, key, value);
    law_get_after_insert(a, key, value, "integrity"@);
    law_get_after_insert(a, key, value, "cells"@);
    law_get_after_insert(a, key, value, "runners"@);
    law_get_after_insert(a, key, value, "measurement"@);
    let (c, d) = (canonical_text(evidence_of(a))->Ok_0, canonical_text(evidence_of(b))->Ok_0);
    let n = "sha256:"@.len() as int;
    assert(digest_text(c).skip(n) =~= sha256_hex_of(encode_utf8(c)));
    assert(digest_text(d).skip(n) =~= sha256_hex_of(encode_utf8(d)));
    let now = digests_of(b)->Ok_0;
    lemma_names_differ();
    let four = block_names();
    let three = four.drop_last();
    let two = three.drop_last();
    let one = two.drop_last();
    assert(four.last() == "document"@ && three.last() == "measurements"@ && two.last()
        == "runners"@ && one.last() == "cells"@);
    assert(one.drop_last().len() == 0);
    reveal_with_fuel(blocks_where, 5);
    assert(blocks_where(four, seal, now, false) =~= seq!["document"@]);
    assert(blocks_where(four, seal, now, true) =~= seq![
        "cells"@,
        "runners"@,
        "measurements"@,
    ]);
}

} // verus!
