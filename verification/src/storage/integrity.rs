//! The four digests of a document, and a verification that names the block that
//! moved.
//!
//! A digest is `sha256:` followed by 64 lowercase hexadecimal characters, over
//! the UTF-8 bytes of the canonical form. It is taken from the producer's own
//! bytes and never from a value that was parsed into floats. The `document`
//! digest leaves `integrity` and `combinedAt` out, so that sealing a document
//! does not change the thing that was sealed.

pub use crate::storage::canonical::MAX_SAFE_INTEGER;
pub use crate::storage::json::{CanonicalError, RawJson};

use crate::sha256::{is_lower_hex, sha256_hex, sha256_hex_of};
use crate::storage::canonical::{
    canonical_text, is_text, lemma_valid_is_complete, tokens_complete,
};
use crate::storage::json::{
    key_index, lookup, read_document, removed, str_of, without_key, Fault, Json,
};
use crate::text::{concat2, concat3, debug_str, debug_str_text, same_text, slices, strings};
use vstd::prelude::*;
use vstd::utf8::encode_utf8;

verus! {

/// `serde_json::Value`, a JSON document of an outside crate.
#[verifier::external_type_specification]
#[verifier::external_body]
pub struct ExValue(serde_json::Value);

/// What `serde_json::to_string` makes of a value: a text, or the words of an
/// error.
pub uninterp spec fn value_text(value: &serde_json::Value) -> Result<Seq<char>, Seq<char>>;

/// `serde_json::to_string`, with its error as text. The result depends on the
/// value alone. What JSON it writes is left unsaid.
#[verifier::external_body]
fn value_to_text(value: &serde_json::Value) -> (out: Result<String, String>)
    ensures
        out is Ok ==> value_text(value) == Ok::<Seq<char>, Seq<char>>(out->Ok_0@),
        out is Err ==> value_text(value) == Err::<Seq<char>, Seq<char>>(out->Err_0@),
{
    serde_json::to_string(value).map_err(|err| err.to_string())
}

impl CanonicalError {
    /// The message of an error.
    pub open spec fn message_text(e: Fault) -> Seq<char> {
        match e {
            Fault::NonFinite { path } => path
                + " is NaN or an infinity; a digest over it would be a digest over a measurement that went wrong, written as though it had not"@,
            Fault::OutOfPlainRange { path, token } => path + " is "@ + token
                + ", which JavaScript prints in exponent form and Rust prints in full, so the two languages would digest different bytes"@,
            Fault::UnsafeInteger { path, value } => path + " is "@ + value
                + ", beyond 2^53-1, so JavaScript loses its low bits on parse while Rust keeps them"@,
            Fault::NonAsciiKey { path, key } => path + " has the non-ASCII key "@ + debug_str_text(
                key,
            )
                + "; JavaScript sorts keys by UTF-16 code unit and Rust by UTF-8 byte, and those two orders only agree on ASCII"@,
            Fault::DuplicateKey { path, key } => path + " has the key "@ + debug_str_text(key)
                + " twice; every JSON reader resolves that differently, so the document would digest to whatever the reader kept"@,
            Fault::Malformed { detail } => "the document is not JSON: "@ + detail,
        }
    }

    /// What is wrong, and where.
    pub fn message(&self) -> (out: String)
        ensures
            out@ == Self::message_text(self@),
    {
        match self {
            CanonicalError::NonFinite { path } => concat2(
                path.as_str(),
                " is NaN or an infinity; a digest over it would be a digest over a measurement that went wrong, written as though it had not",
            ),
            CanonicalError::OutOfPlainRange { path, token } => {
                let mut out: String = concat3(path.as_str(), " is ", token.as_str());
                out.append(
                    ", which JavaScript prints in exponent form and Rust prints in full, so the two languages would digest different bytes",
                );
                out
            },
            CanonicalError::UnsafeInteger { path, value } => {
                let mut out: String = concat3(path.as_str(), " is ", value.as_str());
                out.append(
                    ", beyond 2^53-1, so JavaScript loses its low bits on parse while Rust keeps them",
                );
                out
            },
            CanonicalError::NonAsciiKey { path, key } => {
                let mut out: String = concat3(
                    path.as_str(),
                    " has the non-ASCII key ",
                    debug_str(key.as_str()).as_str(),
                );
                out.append(
                    "; JavaScript sorts keys by UTF-16 code unit and Rust by UTF-8 byte, and those two orders only agree on ASCII",
                );
                out
            },
            CanonicalError::DuplicateKey { path, key } => {
                let mut out: String = concat3(
                    path.as_str(),
                    " has the key ",
                    debug_str(key.as_str()).as_str(),
                );
                out.append(
                    " twice; every JSON reader resolves that differently, so the document would digest to whatever the reader kept",
                );
                out
            },
            CanonicalError::Malformed { detail } => concat2(
                "the document is not JSON: ",
                detail.as_str(),
            ),
        }
    }
}

/// The canonical text of the document that a text holds.
pub open spec fn canonical_of_text(text: Seq<char>) -> Result<Seq<char>, Fault> {
    match read_document(text) {
        Err(e) => Err(e),
        Ok(t) => canonical_text(t),
    }
}

/// The digest of a canonical text.
pub open spec fn digest_text(canonical: Seq<char>) -> Seq<char> {
    "sha256:"@ + sha256_hex_of(encode_utf8(canonical))
}

/// The digest of what was canonicalised, or why it could not be.
pub open spec fn digest_outcome(canonical: Result<Seq<char>, Fault>) -> Result<Seq<char>, Fault> {
    match canonical {
        Err(e) => Err(e),
        Ok(text) => Ok(digest_text(text)),
    }
}

/// The text of a value of an outside crate, where it has one.
pub open spec fn readable_text(value: &serde_json::Value) -> Result<Seq<char>, Fault> {
    match value_text(value) {
        Ok(text) => Ok(text),
        Err(detail) => Err(Fault::Malformed { detail }),
    }
}

/// Whether a text has the form of a digest: `sha256:` and 64 hexadecimal digits
/// of lower case.
pub open spec fn is_digest(s: Seq<char>) -> bool {
    &&& s.len() == 71
    &&& s.take(7) == "sha256:"@
    &&& forall|i: int| 7 <= i < 71 ==> is_lower_hex(#[trigger] s[i])
}

/// Whether four digests have the form of one each.
pub open spec fn are_digests(d: Digests) -> bool {
    is_digest(d.cells@) && is_digest(d.runners@) && is_digest(d.measurements@) && is_digest(
        d.document@,
    )
}

/// The digest of a canonical text.
fn digest_of(canonical: &str) -> (out: String)
    ensures
        out@ == digest_text(canonical@),
        is_digest(out@),
{
    let hex: String = sha256_hex(canonical.as_bytes());
    let out: String = concat2("sha256:", hex.as_str());
    proof {
        reveal_strlit("sha256:");
        assert(out@.take(7) =~= "sha256:"@);
        assert forall|i: int| 7 <= i < 71 implies is_lower_hex(#[trigger] out@[i]) by {
            assert(out@[i] == hex@[i - 7]);
        }
    }
    out
}

/// The canonical JSON string for archived text.
pub fn canonical_json_from_text(text: &str) -> (got: Result<String, CanonicalError>)
    ensures
        is_text(got, canonical_of_text(text@)),
{
    match RawJson::parse(text) {
        Err(e) => Err(e),
        Ok(tree) => {
            proof {
                lemma_valid_is_complete(tree@);
            }
            tree.canonical()
        },
    }
}

/// `sha256:<64 lowercase hex>` over the UTF-8 bytes of the canonical form.
pub fn digest_from_text(text: &str) -> (got: Result<String, CanonicalError>)
    ensures
        is_text(got, digest_outcome(canonical_of_text(text@))),
        got is Ok ==> is_digest(got->Ok_0@),
{
    match canonical_json_from_text(text) {
        Err(e) => Err(e),
        Ok(canonical) => Ok(digest_of(canonical.as_str())),
    }
}

/// The canonical JSON string for a value built in memory.
///
/// Correct for a value the caller constructed, and not for one it parsed: there
/// the right entry point is [`canonical_json_from_text`] on the bytes.
pub fn canonical_json(value: &serde_json::Value) -> (got: Result<String, CanonicalError>)
    ensures
        is_text(
            got,
            match readable_text(value) {
                Err(e) => Err::<Seq<char>, Fault>(e),
                Ok(text) => canonical_of_text(text),
            },
        ),
{
    match value_to_text(value) {
        Err(detail) => Err(CanonicalError::Malformed { detail }),
        Ok(text) => canonical_json_from_text(text.as_str()),
    }
}

/// `sha256:` over [`canonical_json`]. Same caveat about parsed values.
pub fn digest(value: &serde_json::Value) -> (got: Result<String, CanonicalError>)
    ensures
        is_text(
            got,
            match readable_text(value) {
                Err(e) => Err::<Seq<char>, Fault>(e),
                Ok(text) => digest_outcome(canonical_of_text(text)),
            },
        ),
        got is Ok ==> is_digest(got->Ok_0@),
{
    match canonical_json(value) {
        Err(e) => Err(e),
        Ok(canonical) => Ok(digest_of(canonical.as_str())),
    }
}

/// The four digests a sealed storage document carries.
///
/// Four rather than one, so that a verification can say what moved.
#[derive(Debug, Clone, PartialEq, Eq)]
pub struct Digests {
    /// Over `cells`.
    pub cells: String,
    /// Over `runners`.
    pub runners: String,
    /// Over `measurement`.
    pub measurements: String,
    /// Over the whole document with `integrity` and `combinedAt` removed.
    pub document: String,
}

/// Four digests, as texts.
pub struct Seal {
    pub cells: Seq<char>,
    pub runners: Seq<char>,
    pub measurements: Seq<char>,
    pub document: Seq<char>,
}

impl View for Digests {
    type V = Seal;

    open spec fn view(&self) -> Seal {
        Seal {
            cells: self.cells@,
            runners: self.runners@,
            measurements: self.measurements@,
            document: self.document@,
        }
    }
}

/// The block at `key`, or `null` where the document has none.
pub open spec fn block_of(t: Json, key: Seq<char>) -> Json {
    match lookup(t, key) {
        Some(block) => block,
        None => Json::Null,
    }
}

/// The document as the `document` digest sees it.
pub open spec fn evidence_of(t: Json) -> Json {
    removed(removed(t, "integrity"@), "combinedAt"@)
}

/// The digest of a tree.
pub open spec fn tree_digest(t: Json) -> Result<Seq<char>, Fault> {
    digest_outcome(canonical_text(t))
}

/// The four digests of a document, or the first reason there are none.
pub open spec fn digests_of(t: Json) -> Result<Seal, Fault> {
    match (
        tree_digest(block_of(t, "cells"@)),
        tree_digest(block_of(t, "runners"@)),
        tree_digest(block_of(t, "measurement"@)),
        tree_digest(evidence_of(t)),
    ) {
        (Err(e), _, _, _) => Err(e),
        (_, Err(e), _, _) => Err(e),
        (_, _, Err(e), _) => Err(e),
        (_, _, _, Err(e)) => Err(e),
        (Ok(cells), Ok(runners), Ok(measurements), Ok(document)) => Ok(
            Seal { cells, runners, measurements, document },
        ),
    }
}

/// The four digests of the document that a text holds.
pub open spec fn digests_of_text(text: Seq<char>) -> Result<Seal, Fault> {
    match read_document(text) {
        Err(e) => Err(e),
        Ok(t) => digests_of(t),
    }
}

/// Whether four digests, or why there are none, are what `expected` says.
pub open spec fn is_seal(
    got: Result<Digests, CanonicalError>,
    expected: Result<Seal, Fault>,
) -> bool {
    match got {
        Ok(digests) => expected == Ok::<Seal, Fault>(digests@),
        Err(e) => expected == Err::<Seal, Fault>(e@),
    }
}

/// A value found in a tree has no number that the tree has not.
proof fn lemma_lookup_complete(t: Json, key: Seq<char>)
    requires
        tokens_complete(t),
    ensures
        tokens_complete(block_of(t, key)),
{
    if let Json::Object(entries) = t {
        lemma_key_index(entries, key, 0);
    }
}

/// The index of a key stays within the entries.
pub proof fn lemma_key_index(entries: Seq<(Seq<char>, Json)>, key: Seq<char>, i: int)
    requires
        0 <= i <= entries.len(),
    ensures
        i <= key_index(entries, key, i) <= entries.len(),
        key_index(entries, key, i) < entries.len() ==> entries[key_index(entries, key, i)].0
            == key,
        forall|k: int| i <= k < key_index(entries, key, i) ==> (#[trigger] entries[k]).0 != key,
    decreases entries.len() - i,
{
    if i < entries.len() && entries[i].0 != key {
        lemma_key_index(entries, key, i + 1);
    }
}

/// Removing a key leaves the other entries as they are.
proof fn lemma_removed_complete(t: Json, key: Seq<char>)
    requires
        tokens_complete(t),
    ensures
        tokens_complete(removed(t, key)),
{
    if let Json::Object(entries) = t {
        lemma_without_key_kept(entries, key);
    }
}

/// Every entry that is left was there before.
proof fn lemma_without_key_kept(entries: Seq<(Seq<char>, Json)>, key: Seq<char>)
    requires
        forall|i: int| 0 <= i < entries.len() ==> tokens_complete((#[trigger] entries[i]).1),
    ensures
        forall|i: int|
            0 <= i < without_key(entries, key).len() ==> tokens_complete(
                (#[trigger] without_key(entries, key)[i]).1,
            ),
    decreases entries.len(),
{
    if entries.len() > 0 {
        let front = entries.drop_last();
        assert forall|i: int| 0 <= i < front.len() implies tokens_complete(
            (#[trigger] front[i]).1,
        ) by {
            assert(front[i] == entries[i]);
        }
        lemma_without_key_kept(front, key);
        let kept = without_key(entries, key);
        let inner = without_key(front, key);
        assert(tokens_complete(entries[entries.len() - 1].1));
        assert forall|i: int| 0 <= i < kept.len() implies tokens_complete(
            (#[trigger] kept[i]).1,
        ) by {
            if i < inner.len() {
                assert(kept[i] == inner[i]);
            }
        }
    }
}

/// The digest of a tree, or why it has none.
fn digest_tree(tree: &RawJson) -> (got: Result<String, CanonicalError>)
    requires
        tokens_complete(tree@),
    ensures
        is_text(got, tree_digest(tree@)),
        got is Ok ==> is_digest(got->Ok_0@),
{
    match tree.canonical() {
        Err(e) => Err(e),
        Ok(canonical) => Ok(digest_of(canonical.as_str())),
    }
}

/// The digest of the block at `key`, which is that of `null` where there is none.
fn digest_block(doc: &RawJson, key: &str) -> (got: Result<String, CanonicalError>)
    requires
        tokens_complete(doc@),
    ensures
        is_text(got, tree_digest(block_of(doc@, key@))),
        got is Ok ==> is_digest(got->Ok_0@),
{
    proof {
        lemma_lookup_complete(doc@, key@);
    }
    match doc.get(key) {
        Some(block) => digest_tree(block),
        None => digest_tree(&RawJson::Null),
    }
}

/// Compute all four digests from a document's own bytes.
///
/// A block that is absent still gets a digest, over JSON `null`.
pub fn compute_digests_raw(doc: &RawJson) -> (got: Result<Digests, CanonicalError>)
    requires
        tokens_complete(doc@),
    ensures
        is_seal(got, digests_of(doc@)),
        got is Ok ==> are_digests(got->Ok_0),
{
    let cells: String = match digest_block(doc, "cells") {
        Ok(d) => d,
        Err(e) => return Err(e),
    };
    let runners: String = match digest_block(doc, "runners") {
        Ok(d) => d,
        Err(e) => return Err(e),
    };
    let measurements: String = match digest_block(doc, "measurement") {
        Ok(d) => d,
        Err(e) => return Err(e),
    };
    let evidence: RawJson = document_evidence(doc);
    proof {
        lemma_removed_complete(doc@, "integrity"@);
        lemma_removed_complete(removed(doc@, "integrity"@), "combinedAt"@);
    }
    let document: String = match digest_tree(&evidence) {
        Ok(d) => d,
        Err(e) => return Err(e),
    };
    Ok(Digests { cells, runners, measurements, document })
}

/// [`compute_digests_raw`] from text.
pub fn compute_digests_from_text(text: &str) -> (got: Result<Digests, CanonicalError>)
    ensures
        is_seal(got, digests_of_text(text@)),
        got is Ok ==> are_digests(got->Ok_0),
{
    match RawJson::parse(text) {
        Err(e) => Err(e),
        Ok(doc) => {
            proof {
                lemma_valid_is_complete(doc@);
            }
            compute_digests_raw(&doc)
        },
    }
}

/// [`compute_digests_raw`] from a value built in memory. Same caveat as
/// [`canonical_json`] about values that were parsed.
pub fn compute_digests(value: &serde_json::Value) -> (got: Result<Digests, CanonicalError>)
    ensures
        is_seal(
            got,
            match readable_text(value) {
                Err(e) => Err::<Seal, Fault>(e),
                Ok(text) => digests_of_text(text),
            },
        ),
        got is Ok ==> are_digests(got->Ok_0),
{
    match value_to_text(value) {
        Err(detail) => Err(CanonicalError::Malformed { detail }),
        Ok(text) => compute_digests_from_text(text.as_str()),
    }
}

/// The document as the `document` digest sees it: everything except `integrity`
/// and `combinedAt`.
pub fn document_evidence(doc: &RawJson) -> (out: RawJson)
    ensures
        out@ == evidence_of(doc@),
{
    let mut out: RawJson = doc.clone();
    out.remove("integrity");
    out.remove("combinedAt");
    out
}


/// What a verification found.
#[derive(Debug, Clone, PartialEq, Eq)]
pub struct VerifyReport {
    /// The digests computed from the document as it stands now.
    pub recomputed: Digests,
    /// The digests the document claims, or `None` when it carries no
    /// `integrity` block of four digests.
    pub stated: Option<Digests>,
    /// The blocks whose stated digest does not match the recomputed one, in
    /// [`Digests`] declaration order.
    pub moved: Vec<&'static str>,
    /// The blocks that match.
    pub unchanged: Vec<&'static str>,
    /// The document has an `integrity` key that is not four digests.
    pub malformed_integrity: bool,
}

/// What a verification found, as texts.
pub struct Findings {
    pub recomputed: Seal,
    pub stated: Option<Seal>,
    pub moved: Seq<Seq<char>>,
    pub unchanged: Seq<Seq<char>>,
    pub malformed_integrity: bool,
}

/// The digests that are stated, as texts.
pub open spec fn seal_view(stated: Option<Digests>) -> Option<Seal> {
    match stated {
        Some(digests) => Some(digests@),
        None => None,
    }
}

impl View for VerifyReport {
    type V = Findings;

    open spec fn view(&self) -> Findings {
        Findings {
            recomputed: self.recomputed@,
            stated: seal_view(self.stated),
            moved: slices(self.moved@),
            unchanged: slices(self.unchanged@),
            malformed_integrity: self.malformed_integrity,
        }
    }
}

/// The digest of a seal that a block name stands for.
pub open spec fn digest_named(seal: Seal, block: Seq<char>) -> Seq<char> {
    if block == "cells"@ {
        seal.cells
    } else if block == "runners"@ {
        seal.runners
    } else if block == "measurements"@ {
        seal.measurements
    } else {
        seal.document
    }
}

/// The four block names, in the order they are reported in.
pub open spec fn block_names() -> Seq<Seq<char>> {
    seq!["cells"@, "runners"@, "measurements"@, "document"@]
}

/// The blocks, of those in `names`, whose two digests are equal, or are not.
pub open spec fn blocks_where(
    names: Seq<Seq<char>>,
    stated: Seal,
    recomputed: Seal,
    equal: bool,
) -> Seq<Seq<char>>
    decreases names.len(),
{
    if names.len() == 0 {
        Seq::empty()
    } else {
        let before = blocks_where(names.drop_last(), stated, recomputed, equal);
        if (digest_named(stated, names.last()) == digest_named(recomputed, names.last()))
            == equal {
            before.push(names.last())
        } else {
            before
        }
    }
}

/// The text at `key`, where it is a string.
pub open spec fn text_field(t: Json, key: Seq<char>) -> Option<Seq<char>> {
    match lookup(t, key) {
        Some(v) => str_of(v),
        None => None,
    }
}

/// The digests a document claims: all four, or none.
pub open spec fn stated_seal(t: Json) -> Option<Seal> {
    match lookup(t, "integrity"@) {
        None => None,
        Some(integrity) => match (
            text_field(integrity, "cells"@),
            text_field(integrity, "runners"@),
            text_field(integrity, "measurements"@),
            text_field(integrity, "document"@),
        ) {
            (Some(cells), Some(runners), Some(measurements), Some(document)) => Some(
                Seal { cells, runners, measurements, document },
            ),
            _ => None,
        },
    }
}

/// What a verification of a document finds.
pub open spec fn findings_of(t: Json) -> Result<Findings, Fault> {
    match digests_of(t) {
        Err(e) => Err(e),
        Ok(recomputed) => Ok(
            Findings {
                recomputed,
                stated: stated_seal(t),
                moved: match stated_seal(t) {
                    Some(stated) => blocks_where(block_names(), stated, recomputed, false),
                    None => Seq::empty(),
                },
                unchanged: match stated_seal(t) {
                    Some(stated) => blocks_where(block_names(), stated, recomputed, true),
                    None => Seq::empty(),
                },
                malformed_integrity: lookup(t, "integrity"@) is Some && stated_seal(t) is None,
            },
        ),
    }
}

/// What a verification of the document in a text finds.
pub open spec fn findings_of_text(text: Seq<char>) -> Result<Findings, Fault> {
    match read_document(text) {
        Err(e) => Err(e),
        Ok(t) => findings_of(t),
    }
}

/// Whether a report, or why there is none, is what `expected` says.
pub open spec fn is_report(
    got: Result<VerifyReport, CanonicalError>,
    expected: Result<Findings, Fault>,
) -> bool {
    match got {
        Ok(report) => expected is Ok && report@ == expected->Ok_0,
        Err(e) => expected == Err::<Findings, Fault>(e@),
    }
}

/// The line for a block that moved.
pub open spec fn moved_line(stated: Seal, recomputed: Seal, block: Seq<char>) -> Seq<char> {
    "REFUSED: the "@ + block + " block moved. The document says "@ + digest_named(stated, block)
        + " and the content now digests to "@ + digest_named(recomputed, block) + "."@
}

/// One line per finding.
pub open spec fn lines_of(found: Findings) -> Seq<Seq<char>> {
    match found.stated {
        None => seq![
            if found.malformed_integrity {
                "REFUSED: the document carries an integrity block that is not four digests, so it was sealed by something that does not agree with this one about what a seal is. The content digests to "@
                    + found.recomputed.document + "."@
            } else {
                "REFUSED: the document carries no integrity block, so there is nothing to verify it against."@
            },
        ],
        Some(stated) => if found.moved.len() == 0 {
            seq![
                "verified: all four digests still hold (document "@ + found.recomputed.document
                    + ")"@,
            ]
        } else {
            Seq::new(
                found.moved.len(),
                |i: int| moved_line(stated, found.recomputed, found.moved[i]),
            )
        },
    }
}

impl Digests {
    /// The digest that a block name stands for.
    fn named(&self, block: &str) -> (out: &str)
        ensures
            out@ == digest_named(self@, block@),
    {
        if same_text(block, "cells") {
            self.cells.as_str()
        } else if same_text(block, "runners") {
            self.runners.as_str()
        } else if same_text(block, "measurements") {
            self.measurements.as_str()
        } else {
            self.document.as_str()
        }
    }
}

impl VerifyReport {
    /// Whether the document verifies: it stated all four digests and all four
    /// still hold.
    pub fn ok(&self) -> (ok: bool)
        ensures
            ok == (self@.stated is Some && self@.moved.len() == 0),
    {
        self.stated.is_some() && self.moved.len() == 0
    }

    /// One line per finding.
    pub fn lines(&self) -> (out: Vec<String>)
        ensures
            strings(out@) == lines_of(self@),
    {
        let mut out: Vec<String> = Vec::new();
        match &self.stated {
            None => {
                if self.malformed_integrity {
                    out.push(
                        concat3(
                            "REFUSED: the document carries an integrity block that is not four digests, so it was sealed by something that does not agree with this one about what a seal is. The content digests to ",
                            self.recomputed.document.as_str(),
                            ".",
                        ),
                    );
                } else {
                    out.push(
                        "REFUSED: the document carries no integrity block, so there is nothing to verify it against.".to_owned(),
                    );
                }
                assert(strings(out@) =~= lines_of(self@));
            },
            Some(stated) => {
                if self.moved.len() == 0 {
                    out.push(
                        concat3(
                            "verified: all four digests still hold (document ",
                            self.recomputed.document.as_str(),
                            ")",
                        ),
                    );
                    assert(strings(out@) =~= lines_of(self@));
                } else {
                    let mut i: usize = 0;
                    while i < self.moved.len()
                        invariant
                            i <= self.moved@.len(),
                            out@.len() == i,
                            forall|k: int|
                                0 <= k < i ==> (#[trigger] out@[k])@ == moved_line(
                                    stated@,
                                    self.recomputed@,
                                    self.moved@[k]@,
                                ),
                        decreases self.moved@.len() - i,
                    {
                        let block = self.moved[i];
                        let mut line: String = concat3(
                            "REFUSED: the ",
                            block,
                            " block moved. The document says ",
                        );
                        line.append(stated.named(block));
                        line.append(" and the content now digests to ");
                        line.append(self.recomputed.named(block));
                        line.append(".");
                        out.push(line);
                        i = i + 1;
                    }
                    assert(strings(out@) =~= lines_of(self@));
                }
            },
        }
        out
    }
}

/// The string at `key`.
fn field_of(t: &RawJson, key: &str) -> (out: Option<String>)
    ensures
        out is Some <==> text_field(t@, key@) is Some,
        out is Some ==> out->0@ == text_field(t@, key@)->0,
{
    match t.get(key) {
        None => None,
        Some(v) => match v.as_str() {
            None => None,
            Some(text) => Some(text.to_owned()),
        },
    }
}

/// The digests a document claims, read straight out of its own bytes.
fn stated_digests(doc: &RawJson) -> (out: Option<Digests>)
    ensures
        seal_view(out) == stated_seal(doc@),
{
    match doc.get("integrity") {
        None => None,
        Some(integrity) => {
            match (
                field_of(integrity, "cells"),
                field_of(integrity, "runners"),
                field_of(integrity, "measurements"),
                field_of(integrity, "document"),
            ) {
                (Some(cells), Some(runners), Some(measurements), Some(document)) => Some(
                    Digests { cells, runners, measurements, document },
                ),
                _ => None,
            }
        },
    }
}

/// Recompute all four digests from the document's own bytes and compare each
/// against what the document claims. All four, never stopping at the first
/// mismatch: which blocks moved and which did not is the finding.
pub fn verify_raw(doc: &RawJson) -> (got: Result<VerifyReport, CanonicalError>)
    requires
        tokens_complete(doc@),
    ensures
        is_report(got, findings_of(doc@)),
{
    let recomputed: Digests = match compute_digests_raw(doc) {
        Ok(d) => d,
        Err(e) => return Err(e),
    };
    let stated: Option<Digests> = stated_digests(doc);
    let mut moved: Vec<&'static str> = Vec::new();
    let mut unchanged: Vec<&'static str> = Vec::new();
    match &stated {
        Some(claimed) => {
            let names: Vec<&'static str> = vec!["cells", "runners", "measurements", "document"];
            assert(slices(names@) =~= block_names());
            let mut i: usize = 0;
            assert(block_names().take(0) =~= Seq::<Seq<char>>::empty());
            while i < names.len()
                invariant
                    i <= names@.len(),
                    slices(names@) == block_names(),
                    slices(moved@) =~= blocks_where(
                        block_names().take(i as int),
                        claimed@,
                        recomputed@,
                        false,
                    ),
                    slices(unchanged@) =~= blocks_where(
                        block_names().take(i as int),
                        claimed@,
                        recomputed@,
                        true,
                    ),
                decreases names@.len() - i,
            {
                let name = names[i];
                assert(block_names().take(i + 1).drop_last() =~= block_names().take(i as int));
                assert(name@ == slices(names@)[i as int]);
                if same_text(claimed.named(name), recomputed.named(name)) {
                    unchanged.push(name);
                } else {
                    moved.push(name);
                }
                i = i + 1;
            }
            assert(block_names().take(i as int) =~= block_names());
        },
        None => {
            assert(slices(moved@) =~= Seq::<Seq<char>>::empty());
        },
    }
    let malformed_integrity = doc.get("integrity").is_some() && stated.is_none();
    Ok(VerifyReport { recomputed, stated, moved, unchanged, malformed_integrity })
}

/// Verify an archived document from the bytes it is stored as.
pub fn verify_text(text: &str) -> (got: Result<VerifyReport, CanonicalError>)
    ensures
        is_report(got, findings_of_text(text@)),
{
    match RawJson::parse(text) {
        Err(e) => Err(e),
        Ok(doc) => {
            proof {
                lemma_valid_is_complete(doc@);
            }
            verify_raw(&doc)
        },
    }
}

} // verus!
