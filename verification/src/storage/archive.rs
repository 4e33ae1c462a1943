//! The archive, and the rules that decide what may enter it.
//!
//! A run's identity is derived from the run's own evidence, and a run whose
//! evidence does not support the claim is refused. Every reason is reported,
//! never only the first: finding three problems one re-run at a time turns a
//! forty-minute sweep into a two-hour afternoon.
//!
//! A document is read as a tree and not as a struct, so that a field that is
//! absent from the file is seen to be absent.

use crate::sha256::{sha256_hex, sha256_hex_of};
use crate::storage::canonical::{
    canonical_string, lemma_valid_is_complete, quoted, tokens_complete,
};
use crate::storage::integrity::{
    compute_digests_raw, digests_of, findings_of, lines_of, verify_raw, Digests, Seal,
};
use crate::storage::integrity_laws::seal_tree;
use crate::storage::json::{
    inserted, is_number, lookup, read_document, str_of, CanonicalError, Fault, Json, RawJson,
};
use crate::text::{
    all_digits, as_ints, chars_of, concat2, concat3, debug_str, debug_str_text, decimal,
    decimal_text, digits_end, digits_value, is_digit, key_order, same_text, skip_digits,
    sorted_indices, strings, text_between, texts,
};
use crate::words::{
    alnum_only, contains_word, digits_to_u64, find_char, has_word, index_of, join, joined,
    keep_alnum, parts_of, split_text, trim, trimmed,
};
use vstd::prelude::*;
use vstd::utf8::encode_utf8;

verus! {

/// Where archived storage runs live, relative to the crate root.
pub const ARCHIVE_DIR: &'static str = "archive/storage";

/// The index file inside [`ARCHIVE_DIR`].
pub const INDEX_FILE: &'static str = "index.json";

/// One reason a document may not be archived.
#[derive(Debug, Clone, PartialEq, Eq)]
pub struct Refusal {
    /// A stable machine-readable code.
    pub code: &'static str,
    /// What was wrong, with the value that was actually found.
    pub detail: String,
}

/// A [`Refusal`], as texts.
pub struct Reason {
    pub code: Seq<char>,
    pub detail: Seq<char>,
}

impl View for Refusal {
    type V = Reason;

    open spec fn view(&self) -> Reason {
        Reason { code: self.code@, detail: self.detail@ }
    }
}

/// A list of refusals, as texts.
pub open spec fn reasons(refusals: Seq<Refusal>) -> Seq<Reason> {
    Seq::new(refusals.len(), |i: int| refusals[i]@)
}

/// A list with one more reason.
proof fn lemma_reasons_push(refusals: Seq<Refusal>, one: Refusal)
    ensures
        reasons(refusals.push(one)) == reasons(refusals).push(one@),
{
    assert(reasons(refusals.push(one)) =~= reasons(refusals).push(one@));
}

impl Refusal {
    /// The refusal as one line.
    pub fn message(&self) -> (out: String)
        ensures
            out@ == "REFUSED["@ + self@.code + "]: "@ + self@.detail,
    {
        let mut out: String = concat3("REFUSED[", self.code, "]: ");
        out.append(self.detail.as_str());
        out
    }
}

/// A reason with its code.
pub open spec fn reason(code: Seq<char>, detail: Seq<char>) -> Reason {
    Reason { code, detail }
}

/// `refusals` with one more reason behind the others.
fn refuse(refusals: &mut Vec<Refusal>, code: &'static str, detail: String)
    ensures
        reasons(final(refusals)@) == reasons(old(refusals)@).push(reason(code@, detail@)),
{
    let one = Refusal { code, detail };
    proof {
        lemma_reasons_push(refusals@, one);
    }
    refusals.push(one);
}

/// The value at the end of a path of keys, from the key `i` on.
pub open spec fn walk(t: Json, keys: Seq<Seq<char>>, i: int) -> Option<Json>
    decreases keys.len() - i,
{
    if 0 <= i < keys.len() {
        match lookup(t, keys[i]) {
            None => None,
            Some(inner) => walk(inner, keys, i + 1),
        }
    } else {
        Some(t)
    }
}

/// The value at a dotted path like `provenance.library.commit`.
pub open spec fn value_at(t: Json, path: Seq<char>) -> Option<Json> {
    walk(t, parts_of(path, '.'), 0)
}

/// Read a nested path like `provenance.library.commit` out of a document.
fn at<'a>(doc: &'a RawJson, path: &str) -> (got: Option<&'a RawJson>)
    ensures
        got is Some <==> value_at(doc@, path@) is Some,
        got is Some ==> got->0@ == value_at(doc@, path@)->0,
{
    let chars: Vec<char> = chars_of(path);
    let keys: Vec<String> = split_text(chars.as_slice(), '.');
    let ghost names = parts_of(path@, '.');
    let mut cursor: &'a RawJson = doc;
    let mut i: usize = 0;
    while i < keys.len()
        invariant
            i <= keys@.len(),
            strings(keys@) == names,
            names == parts_of(path@, '.'),
            walk(doc@, names, 0) == walk(cursor@, names, i as int),
        decreases keys@.len() - i,
    {
        assert(keys@[i as int]@ == names[i as int]);
        match cursor.get(keys[i].as_str()) {
            None => return None,
            Some(inner) => {
                cursor = inner;
            },
        }
        i = i + 1;
    }
    Some(cursor)
}

/// The boolean that a value is.
pub open spec fn bool_of(t: Option<Json>) -> Option<bool> {
    match t {
        Some(Json::Bool(b)) => Some(b),
        _ => None,
    }
}

/// The text that a value is.
pub open spec fn text_in(t: Option<Json>) -> Option<Seq<char>> {
    match t {
        Some(v) => str_of(v),
        None => None,
    }
}

/// The unsigned number that a value is: digits alone, and within 64 bits.
pub open spec fn count_of(t: Option<Json>) -> Option<nat> {
    match t {
        Some(Json::Number(token)) => if token.len() > 0 && all_digits(token) && digits_value(token)
            <= u64::MAX {
            Some(digits_value(token))
        } else {
            None
        },
        _ => None,
    }
}

/// The text at a path without the white space around it, unless that is all of
/// it.
pub open spec fn filled_text(t: Json, path: Seq<char>) -> Option<Seq<char>> {
    match text_in(value_at(t, path)) {
        Some(s) => if trimmed(s).len() > 0 {
            Some(trimmed(s))
        } else {
            None
        },
        None => None,
    }
}

/// The tree of a value that may be there.
pub open spec fn tree_in(value: Option<&RawJson>) -> Option<Json> {
    match value {
        Some(v) => Some(v@),
        None => None,
    }
}

/// The boolean that a value is.
fn as_bool(value: Option<&RawJson>) -> (got: Option<bool>)
    ensures
        got == bool_of(tree_in(value)),
{
    match value {
        Some(RawJson::Bool(b)) => Some(*b),
        _ => None,
    }
}

/// Whether `true` stands at a path.
pub(crate) fn flag_at(doc: &RawJson, path: &str) -> (yes: bool)
    ensures
        yes == (bool_of(value_at(doc@, path@)) == Some(true)),
{
    match as_bool(at(doc, path)) {
        Some(b) => b,
        None => false,
    }
}

/// The text that a value is.
fn as_text<'a>(value: Option<&'a RawJson>) -> (got: Option<&'a str>)
    ensures
        got is Some <==> text_in(tree_in(value)) is Some,
        got is Some ==> got->0@ == text_in(tree_in(value))->0,
{
    match value {
        Some(v) => v.as_str(),
        None => None,
    }
}

/// The unsigned number that a value is.
fn as_u64(value: Option<&RawJson>) -> (got: Option<u64>)
    ensures
        got is Some <==> count_of(tree_in(value)) is Some,
        got is Some ==> got->0 == count_of(tree_in(value))->0,
{
    match value {
        Some(RawJson::Number(token)) => {
            let chars: Vec<char> = chars_of(token.as_str());
            digits_to_u64(chars.as_slice())
        },
        _ => None,
    }
}

/// A non-empty string at `path`, or `None` for absent, null, or empty.
fn non_empty_str(doc: &RawJson, path: &str) -> (got: Option<String>)
    ensures
        got is Some <==> filled_text(doc@, path@) is Some,
        got is Some ==> got->0@ == filled_text(doc@, path@)->0,
{
    match as_text(at(doc, path)) {
        None => None,
        Some(text) => {
            let chars: Vec<char> = chars_of(text);
            let bare: String = trim(chars.as_slice());
            let letters: Vec<char> = chars_of(bare.as_str());
            if letters.len() == 0 {
                None
            } else {
                Some(bare)
            }
        },
    }
}

/// How `serde_json` prints the number that a token is, where it takes it for one.
pub uninterp spec fn printed_number(token: Seq<char>) -> Option<Seq<char>>;

/// Whether a token is a whole number of 64 bits, written without a sign.
pub open spec fn is_whole(token: Seq<char>) -> bool {
    is_number(token) && all_digits(token) && digits_value(token) <= u64::MAX
}

/// `serde_json::from_str` of a `Value`, printed by its `Display`: a function of
/// the token alone, and nothing where the token is not taken. A whole number of
/// 64 bits is printed as it was written. How a float is printed is left unsaid.
#[verifier::external_body]
fn print_number(token: &str) -> (out: Option<String>)
    ensures
        out is Some <==> printed_number(token@) is Some,
        out is Some ==> out->0@ == printed_number(token@)->0,
        is_whole(token@) ==> out is Some && out->0@ == token@,
{
    serde_json::from_str::<serde_json::Value>(token).ok().map(|v| v.to_string())
}

/// How a refusal prints a number: as `serde_json` does, and as it stands where
/// that takes it for none.
pub open spec fn shown_number(token: Seq<char>) -> Seq<char> {
    match printed_number(token) {
        Some(text) => text,
        None => token,
    }
}

/// How a refusal prints a number.
fn show_number(token: &str) -> (out: String)
    ensures
        out@ == shown_number(token@),
{
    match print_number(token) {
        Some(text) => text,
        None => token.to_owned(),
    }
}

/// A value on one line, as JSON.
pub open spec fn compact(t: Json) -> Seq<char>
    decreases t,
{
    match t {
        Json::Null => "null"@,
        Json::Bool(true) => "true"@,
        Json::Bool(false) => "false"@,
        Json::Number(token) => shown_number(token),
        Json::Str(s) => quoted(s),
        Json::Array(items) => "["@ + joined(compact_items(items), ","@) + "]"@,
        Json::Object(entries) => "{"@ + joined(compact_entries(entries), ","@) + "}"@,
    }
}

/// The items of an array, each on one line.
pub open spec fn compact_items(items: Seq<Json>) -> Seq<Seq<char>>
    decreases items,
{
    Seq::new(
        items.len(),
        |i: int|
            if 0 <= i < items.len() {
                compact(items[i])
            } else {
                Seq::empty()
            },
    )
}

/// The entries of an object, each on one line.
pub open spec fn compact_entries(entries: Seq<(Seq<char>, Json)>) -> Seq<Seq<char>>
    decreases entries,
{
    Seq::new(
        entries.len(),
        |i: int|
            if 0 <= i < entries.len() {
                quoted(entries[i].0) + ":"@ + compact(entries[i].1)
            } else {
                Seq::empty()
            },
    )
}

/// A value on one line, as JSON.
fn to_compact(v: &RawJson) -> (out: String)
    ensures
        out@ == compact(v@),
    decreases *v,
{
    match v {
        RawJson::Null => "null".to_owned(),
        RawJson::Bool(b) => (if *b {
            "true"
        } else {
            "false"
        }).to_owned(),
        RawJson::Number(token) => show_number(token.as_str()),
        RawJson::Str(s) => canonical_string(s.as_str()),
        RawJson::Array(items) => {
            let mut parts: Vec<String> = Vec::new();
            let mut i: usize = 0;
            while i < items.len()
                invariant
                    i <= items@.len(),
                    *v is Array,
                    *items == v->Array_0,
                    parts@.len() == i,
                    forall|k: int| 0 <= k < i ==> (#[trigger] parts@[k])@ == compact(items@[k]@),
                decreases items@.len() - i,
            {
                parts.push(to_compact(&items[i]));
                i = i + 1;
            }
            assert(strings(parts@) =~= compact_items(v@->Array_0));
            concat3("[", join(&parts, ",").as_str(), "]")
        },
        RawJson::Object(entries) => {
            let mut parts: Vec<String> = Vec::new();
            let mut i: usize = 0;
            while i < entries.len()
                invariant
                    i <= entries@.len(),
                    *v is Object,
                    *entries == v->Object_0,
                    parts@.len() == i,
                    forall|k: int|
                        0 <= k < i ==> (#[trigger] parts@[k])@ == quoted(entries@[k].0@) + ":"@
                            + compact(entries@[k].1@),
                decreases entries@.len() - i,
            {
                parts.push(
                    concat3(
                        canonical_string(entries[i].0.as_str()).as_str(),
                        ":",
                        to_compact(&entries[i].1).as_str(),
                    ),
                );
                i = i + 1;
            }
            assert(strings(parts@) =~= compact_entries(v@->Object_0));
            concat3("{", join(&parts, ",").as_str(), "}")
        },
    }
}

/// How a refusal prints a value that was not what it should have been. Absent
/// and `null` are kept apart.
pub open spec fn described(value: Option<Json>) -> Seq<char> {
    match value {
        None => "absent"@,
        Some(v) => compact(v),
    }
}

/// How a refusal prints a value that was not what it should have been.
fn describe(value: Option<&RawJson>) -> (out: String)
    ensures
        out@ == described(tree_in(value)),
{
    match value {
        None => "absent".to_owned(),
        Some(v) => to_compact(v),
    }
}

/// The document's cells, or none.
pub open spec fn cells_of(t: Json) -> Seq<Json> {
    match lookup(t, "cells"@) {
        Some(Json::Array(items)) => items,
        _ => Seq::empty(),
    }
}

/// The document's cells, where it has a list of them.
fn cells<'a>(doc: &'a RawJson) -> (got: Option<&'a Vec<RawJson>>)
    ensures
        got is Some ==> RawJson::Array(*got->0)@->Array_0 == cells_of(doc@),
        got is None ==> cells_of(doc@) == Seq::<Json>::empty(),
{
    match doc.get("cells") {
        Some(RawJson::Array(items)) => Some(items),
        _ => None,
    }
}

/// How a refusal names a cell: its own labels when it has them, its index when
/// it does not.
pub open spec fn named_cell(index: int, cell: Json) -> Seq<char> {
    let head = "cell["@ + decimal(index as nat) + "]"@;
    match (
        text_in(lookup(cell, "backend"@)),
        text_in(lookup(cell, "scenario"@)),
        count_of(lookup(cell, "scale"@)),
    ) {
        (Some(b), Some(s), Some(n)) => head + " "@ + b + "/"@ + s + "@"@ + decimal(n),
        (Some(b), Some(s), None) => head + " "@ + b + "/"@ + s,
        _ => head,
    }
}

/// How a refusal names a cell.
fn cell_name(index: usize, cell: &RawJson) -> (out: String)
    ensures
        out@ == named_cell(index as int, cell@),
{
    let mut out: String = concat3("cell[", decimal_text(index as u128).as_str(), "]");
    match (as_text(cell.get("backend")), as_text(cell.get("scenario"))) {
        (Some(b), Some(s)) => {
            out.append(" ");
            out.append(b);
            out.append("/");
            out.append(s);
            match as_u64(cell.get("scale")) {
                Some(n) => {
                    out.append("@");
                    out.append(decimal_text(n as u128).as_str());
                },
                None => {},
            }
        },
        _ => {},
    }
    out
}


/// Which evidence a probe used, item by item.
pub open spec fn evidence_names(items: Seq<Json>) -> Seq<Seq<char>> {
    Seq::new(
        items.len(),
        |i: int|
            (match text_in(lookup(items[i], "source"@)) {
                Some(s) => s,
                None => "?"@,
            }) + "="@ + (match text_in(lookup(items[i], "verdict"@)) {
                Some(s) => s,
                None => "?"@,
            }),
    )
}

/// A one-line summary of which evidence the probe used.
pub open spec fn evidence_line(t: Json) -> Seq<char> {
    match value_at(t, "provenance.emulationEvidence"@) {
        Some(Json::Array(items)) => if items.len() > 0 {
            "evidence: "@ + joined(evidence_names(items), ", "@)
        } else {
            "no evidence recorded"@
        },
        _ => "no evidence recorded"@,
    }
}

/// The text of a value, or `other` where it is none.
fn text_or<'a>(value: Option<&'a RawJson>, other: &'a str) -> (out: &'a str)
    ensures
        out@ == (match text_in(tree_in(value)) {
            Some(s) => s,
            None => other@,
        }),
{
    match as_text(value) {
        Some(s) => s,
        None => other,
    }
}

/// A one-line summary of which evidence the probe used, for a refusal message.
fn emulation_evidence_line(doc: &RawJson) -> (out: String)
    ensures
        out@ == evidence_line(doc@),
{
    let found: Option<&RawJson> = at(doc, "provenance.emulationEvidence");
    match found {
        Some(RawJson::Array(items)) => {
            if items.len() == 0 {
                return "no evidence recorded".to_owned();
            }
            let ghost model = found->0@->Array_0;
            let mut named: Vec<String> = Vec::new();
            let mut i: usize = 0;
            while i < items.len()
                invariant
                    i <= items@.len(),
                    found is Some,
                    *found->0 is Array,
                    found->0->Array_0 == *items,
                    model == found->0@->Array_0,
                    named@.len() == i,
                    forall|k: int|
                        0 <= k < i ==> (#[trigger] named@[k])@ == evidence_names(model)[k],
                decreases items@.len() - i,
            {
                assert(model[i as int] == items@[i as int]@);
                named.push(
                    concat3(
                        text_or(items[i].get("source"), "?"),
                        "=",
                        text_or(items[i].get("verdict"), "?"),
                    ),
                );
                i = i + 1;
            }
            assert(strings(named@) =~= evidence_names(model));
            concat2("evidence: ", join(&named, ", ").as_str())
        },
        _ => "no evidence recorded".to_owned(),
    }
}

/// `emulated` must be exactly `false`: `true`, a probe's word for not knowing
/// and an absent field are all refused.
pub open spec fn emulation_reasons(t: Json) -> Seq<Reason> {
    let found = value_at(t, "provenance.emulated"@);
    match found {
        Some(Json::Bool(false)) => Seq::empty(),
        Some(Json::Bool(true)) => seq![
            reason(
                "emulated"@,
                "the run was instruction-translated, and its timings describe the translator as much as the code ("@
                    + evidence_line(t) + ")"@,
            ),
        ],
        Some(Json::Str(s)) => seq![
            reason(
                "emulated"@,
                "the probe answered "@ + debug_str_text(s)
                    + " rather than observing either way, so nothing in this document can settle whether its numbers were translated ("@
                    + evidence_line(t) + ")"@,
            ),
        ],
        _ => seq![
            reason(
                "emulated"@,
                "provenance.emulated is "@ + described(found)
                    + ", so this document records no platform at all, which is the defect docs/pmtiles-benchmarks.md has"@,
            ),
        ],
    }
}

/// `emulated` must be exactly `false`.
fn check_emulation(doc: &RawJson, refusals: &mut Vec<Refusal>)
    ensures
        reasons(final(refusals)@) == reasons(old(refusals)@) + emulation_reasons(doc@),
{
    let found: Option<&RawJson> = at(doc, "provenance.emulated");
    match found {
        Some(RawJson::Bool(b)) => {
            if *b {
                refuse(
                    refusals,
                    "emulated",
                    concat3(
                        "the run was instruction-translated, and its timings describe the translator as much as the code (",
                        emulation_evidence_line(doc).as_str(),
                        ")",
                    ),
                );
            }
        },
        Some(RawJson::Str(s)) => {
            let mut detail: String = concat3(
                "the probe answered ",
                debug_str(s.as_str()).as_str(),
                " rather than observing either way, so nothing in this document can settle whether its numbers were translated (",
            );
            detail.append(emulation_evidence_line(doc).as_str());
            detail.append(")");
            refuse(refusals, "emulated", detail);
        },
        _ => {
            refuse(
                refusals,
                "emulated",
                concat3(
                    "provenance.emulated is ",
                    describe(found).as_str(),
                    ", so this document records no platform at all, which is the defect docs/pmtiles-benchmarks.md has",
                ),
            );
        },
    }
    assert(reasons(refusals@) =~= reasons(old(refusals)@) + emulation_reasons(doc@));
}

/// A tree must name a commit and a dirty flag.
pub open spec fn tree_reasons(
    t: Json,
    label: Seq<char>,
    commit_path: Seq<char>,
    dirty_path: Seq<char>,
) -> Seq<Reason> {
    (if filled_text(t, commit_path) is None {
        seq![
            reason(
                "commit"@,
                commit_path + " is "@ + described(value_at(t, commit_path)) + " for "@ + label
                    + ", so this run cannot be tied to a source tree. A linked git worktree bind-mounted into a container, a tree read through a share that trips git's safe.directory check, and a git-less tarball all produce exactly this, and all three are fixed from the environment rather than by relaxing the rule"@,
            ),
        ]
    } else {
        Seq::empty()
    }) + (if bool_of(value_at(t, dirty_path)) is None {
        seq![
            reason(
                "dirty"@,
                dirty_path + " is "@ + described(value_at(t, dirty_path)) + " for "@ + label
                    + "; a missing dirty flag is not a clean tree"@,
            ),
        ]
    } else {
        Seq::empty()
    })
}

/// A tree must name a commit and a dirty flag.
fn check_tree(
    doc: &RawJson,
    label: &str,
    commit_path: &str,
    dirty_path: &str,
    refusals: &mut Vec<Refusal>,
)
    ensures
        reasons(final(refusals)@) == reasons(old(refusals)@) + tree_reasons(
            doc@,
            label@,
            commit_path@,
            dirty_path@,
        ),
{
    if non_empty_str(doc, commit_path).is_none() {
        let mut detail: String = concat3(
            commit_path,
            " is ",
            describe(at(doc, commit_path)).as_str(),
        );
        detail.append(" for ");
        detail.append(label);
        detail.append(
            ", so this run cannot be tied to a source tree. A linked git worktree bind-mounted into a container, a tree read through a share that trips git's safe.directory check, and a git-less tarball all produce exactly this, and all three are fixed from the environment rather than by relaxing the rule",
        );
        refuse(refusals, "commit", detail);
    }
    let dirty: Option<&RawJson> = at(doc, dirty_path);
    if as_bool(dirty).is_none() {
        let mut detail: String = concat3(dirty_path, " is ", describe(dirty).as_str());
        detail.append(" for ");
        detail.append(label);
        detail.append("; a missing dirty flag is not a clean tree");
        refuse(refusals, "dirty", detail);
    }
    assert(reasons(refusals@) =~= reasons(old(refusals)@) + tree_reasons(
        doc@,
        label@,
        commit_path@,
        dirty_path@,
    ));
}

/// Whether the flag at a path is there and set.
pub open spec fn is_set(t: Json, path: Seq<char>) -> bool {
    bool_of(value_at(t, path)) == Some(true)
}

/// The names of the first `n` cells that do not carry `dirty: true`.
pub open spec fn unstamped_cells(cells: Seq<Json>, n: int) -> Seq<Seq<char>>
    decreases n,
{
    if n <= 0 {
        Seq::empty()
    } else if bool_of(lookup(cells[n - 1], "dirty"@)) != Some(true) {
        unstamped_cells(cells, n - 1).push(named_cell(n - 1, cells[n - 1]))
    } else {
        unstamped_cells(cells, n - 1)
    }
}

/// Dirt that is allowed has to travel with every number.
pub open spec fn stamp_reasons(t: Json) -> Seq<Reason> {
    let unstamped = unstamped_cells(cells_of(t), cells_of(t).len() as int);
    if unstamped.len() == 0 {
        Seq::empty()
    } else {
        seq![
            reason(
                "dirty-not-stamped"@,
                "provenance.allowDirty is true but "@ + decimal(unstamped.len()) + " of "@
                    + decimal(cells_of(t).len()) + " cells do not carry dirty: true ("@ + joined(
                    unstamped,
                    ", "@,
                ) + "), so a reader quoting one cell would not know"@,
            ),
        ]
    }
}

/// Both trees must name a commit and a dirty flag, and a dirty tree needs the
/// flag and then the stamp.
pub open spec fn source_reasons(t: Json) -> Seq<Reason> {
    tree_reasons(t, "the harness"@, "provenance.commit"@, "provenance.dirty"@) + tree_reasons(
        t,
        "the measured library"@,
        "provenance.library.commit"@,
        "provenance.library.dirty"@,
    ) + (if !(is_set(t, "provenance.dirty"@) || is_set(t, "provenance.library.dirty"@)) {
        Seq::empty()
    } else if !is_set(t, "provenance.allowDirty"@) {
        seq![
            reason(
                "dirty-not-allowed"@,
                "a tree is dirty and provenance.allowDirty is not true, so these numbers describe a source state that exists on exactly one machine and cannot be recovered"@,
            ),
        ]
    } else {
        stamp_reasons(t)
    })
}

/// Dirt that is allowed has to travel with every number.
fn check_stamps(doc: &RawJson, refusals: &mut Vec<Refusal>)
    ensures
        reasons(final(refusals)@) == reasons(old(refusals)@) + stamp_reasons(doc@),
{
    let ghost model = cells_of(doc@);
    let mut unstamped: Vec<String> = Vec::new();
    let mut count: usize = 0;
    match cells(doc) {
        Some(items) => {
            count = items.len();
            let mut i: usize = 0;
            while i < items.len()
                invariant
                    i <= items@.len(),
                    model == RawJson::Array(*items)@->Array_0,
                    strings(unstamped@) =~= unstamped_cells(model, i as int),
                decreases items@.len() - i,
            {
                assert(model[i as int] == items@[i as int]@);
                let stamped = match as_bool(items[i].get("dirty")) {
                    Some(b) => b,
                    None => false,
                };
                if !stamped {
                    unstamped.push(cell_name(i, &items[i]));
                }
                i = i + 1;
            }
        },
        None => {
            assert(strings(unstamped@) =~= unstamped_cells(model, 0));
        },
    }
    assert(strings(unstamped@) == unstamped_cells(model, model.len() as int));
    assert(strings(unstamped@).len() == unstamped@.len());
    if unstamped.len() > 0 {
        let mut detail: String = concat3(
            "provenance.allowDirty is true but ",
            decimal_text(unstamped.len() as u128).as_str(),
            " of ",
        );
        detail.append(decimal_text(count as u128).as_str());
        detail.append(" cells do not carry dirty: true (");
        detail.append(join(&unstamped, ", ").as_str());
        detail.append("), so a reader quoting one cell would not know");
        refuse(refusals, "dirty-not-stamped", detail);
    }
    assert(reasons(refusals@) =~= reasons(old(refusals)@) + stamp_reasons(doc@));
}

/// Whether the flag at a path is there and set.
fn set_at(doc: &RawJson, path: &str) -> (yes: bool)
    ensures
        yes == is_set(doc@, path@),
{
    match as_bool(at(doc, path)) {
        Some(b) => b,
        None => false,
    }
}

/// Both trees must name a commit and a dirty flag, and a dirty tree needs the
/// flag and then the stamp.
fn check_source_trees(doc: &RawJson, refusals: &mut Vec<Refusal>)
    ensures
        reasons(final(refusals)@) == reasons(old(refusals)@) + source_reasons(doc@),
{
    check_tree(doc, "the harness", "provenance.commit", "provenance.dirty", refusals);
    check_tree(
        doc,
        "the measured library",
        "provenance.library.commit",
        "provenance.library.dirty",
        refusals,
    );
    if set_at(doc, "provenance.dirty") || set_at(doc, "provenance.library.dirty") {
        if set_at(doc, "provenance.allowDirty") {
            check_stamps(doc, refusals);
        } else {
            refuse(
                refusals,
                "dirty-not-allowed",
                "a tree is dirty and provenance.allowDirty is not true, so these numbers describe a source state that exists on exactly one machine and cannot be recovered".to_owned(),
            );
        }
    }
    assert(reasons(refusals@) =~= reasons(old(refusals)@) + source_reasons(doc@));
}


/// The reason that a compiler flag gives, where the flags carry it.
pub open spec fn flag_reasons(flags: Seq<char>, forbidden: Seq<char>) -> Seq<Reason> {
    if contains_word(flags, forbidden) {
        seq![
            reason(
                "perturbing-rustflags"@,
                "RUSTFLAGS carries "@ + debug_str_text(forbidden) + " ("@ + debug_str_text(flags)
                    + "), which changes the code being timed"@,
            ),
        ]
    } else {
        Seq::empty()
    }
}

/// No debug assertions.
pub open spec fn assertion_reasons(t: Json) -> Seq<Reason> {
    let found = value_at(t, "provenance.node.debugAssertions"@);
    match found {
        Some(Json::Bool(false)) => Seq::empty(),
        Some(Json::Bool(true)) => seq![
            reason(
                "debug-build"@,
                "debug assertions are on, so every bounds check and overflow check in the engine is in the measurement and the numbers are of a build nobody ships"@,
            ),
        ],
        _ => seq![
            reason(
                "debug-build"@,
                "provenance.node.debugAssertions is "@ + described(found)
                    + ", so this document does not say whether it measured a release build"@,
            ),
        ],
    }
}

/// No build profile but `release`.
pub open spec fn profile_reasons(t: Json) -> Seq<Reason> {
    match filled_text(t, "provenance.node.buildProfile"@) {
        Some(profile) => if profile == "release"@ {
            Seq::empty()
        } else {
            seq![
                reason(
                    "debug-build"@,
                    "the build profile is "@ + debug_str_text(profile)
                        + " and only release is measurable"@,
                ),
            ]
        },
        None => seq![
            reason(
                "debug-build"@,
                "provenance.node.buildProfile is absent, so the document does not say what it measured"@,
            ),
        ],
    }
}

/// No debug build, and no toolchain flag that changes what is being measured.
pub open spec fn build_reasons(t: Json) -> Seq<Reason> {
    assertion_reasons(t) + profile_reasons(t) + (match text_in(
        value_at(t, "provenance.node.rustflags"@),
    ) {
        Some(flags) => flag_reasons(flags, "-C instrument-coverage"@) + flag_reasons(
            flags,
            "-Cinstrument-coverage"@,
        ) + flag_reasons(flags, "-Z"@),
        None => Seq::empty(),
    })
}

/// Refuse a flag that the flags carry.
fn check_flag(flags: &str, forbidden: &str, refusals: &mut Vec<Refusal>)
    ensures
        reasons(final(refusals)@) == reasons(old(refusals)@) + flag_reasons(flags@, forbidden@),
{
    let all: Vec<char> = chars_of(flags);
    let word: Vec<char> = chars_of(forbidden);
    if has_word(all.as_slice(), word.as_slice()) {
        let mut detail: String = concat3(
            "RUSTFLAGS carries ",
            debug_str(forbidden).as_str(),
            " (",
        );
        detail.append(debug_str(flags).as_str());
        detail.append("), which changes the code being timed");
        refuse(refusals, "perturbing-rustflags", detail);
    }
    assert(reasons(refusals@) =~= reasons(old(refusals)@) + flag_reasons(flags@, forbidden@));
}

/// No debug assertions.
fn check_assertions(doc: &RawJson, refusals: &mut Vec<Refusal>)
    ensures
        reasons(final(refusals)@) == reasons(old(refusals)@) + assertion_reasons(doc@),
{
    let found: Option<&RawJson> = at(doc, "provenance.node.debugAssertions");
    match found {
        Some(RawJson::Bool(b)) => {
            if *b {
                refuse(
                    refusals,
                    "debug-build",
                    "debug assertions are on, so every bounds check and overflow check in the engine is in the measurement and the numbers are of a build nobody ships".to_owned(),
                );
            }
        },
        _ => {
            refuse(
                refusals,
                "debug-build",
                concat3(
                    "provenance.node.debugAssertions is ",
                    describe(found).as_str(),
                    ", so this document does not say whether it measured a release build",
                ),
            );
        },
    }
    assert(reasons(refusals@) =~= reasons(old(refusals)@) + assertion_reasons(doc@));
}

/// No build profile but `release`.
fn check_profile(doc: &RawJson, refusals: &mut Vec<Refusal>)
    ensures
        reasons(final(refusals)@) == reasons(old(refusals)@) + profile_reasons(doc@),
{
    match non_empty_str(doc, "provenance.node.buildProfile") {
        Some(profile) => {
            if !same_text(profile.as_str(), "release") {
                refuse(
                    refusals,
                    "debug-build",
                    concat3(
                        "the build profile is ",
                        debug_str(profile.as_str()).as_str(),
                        " and only release is measurable",
                    ),
                );
            }
        },
        None => {
            refuse(
                refusals,
                "debug-build",
                "provenance.node.buildProfile is absent, so the document does not say what it measured".to_owned(),
            );
        },
    }
    assert(reasons(refusals@) =~= reasons(old(refusals)@) + profile_reasons(doc@));
}

/// No debug build, and no toolchain flag that changes what is being measured.
fn check_build(doc: &RawJson, refusals: &mut Vec<Refusal>)
    ensures
        reasons(final(refusals)@) == reasons(old(refusals)@) + build_reasons(doc@),
{
    check_assertions(doc, refusals);
    check_profile(doc, refusals);
    match as_text(at(doc, "provenance.node.rustflags")) {
        Some(flags) => {
            check_flag(flags, "-C instrument-coverage", refusals);
            check_flag(flags, "-Cinstrument-coverage", refusals);
            check_flag(flags, "-Z", refusals);
        },
        None => {},
    }
    assert(reasons(refusals@) =~= reasons(old(refusals)@) + build_reasons(doc@));
}

/// The scratch filesystem has to be recorded, and tmpfs is refused unless it is
/// declared.
pub open spec fn filesystem_reasons(t: Json) -> Seq<Reason> {
    match filled_text(t, "provenance.filesystem.fsType"@) {
        None => seq![
            reason(
                "filesystem"@,
                "provenance.filesystem.fsType is "@ + described(
                    value_at(t, "provenance.filesystem.fsType"@),
                )
                    + ", so this document does not say what the scratch directory was on, and overlayfs, a virtiofs bind mount and a real ext4 are three different benchmarks"@,
            ),
        ],
        Some(fs_type) => (if filled_text(t, "provenance.filesystem.scratchDir"@) is None {
            seq![
                reason(
                    "filesystem"@,
                    "provenance.filesystem.scratchDir is absent, so the fsType above describes a directory nobody can name"@,
                ),
            ]
        } else {
            Seq::empty()
        }) + (if fs_type == "tmpfs"@ && !is_set(t, "provenance.filesystem.declaredTmpfs"@) {
            seq![
                reason(
                    "tmpfs"@,
                    "the scratch directory is on tmpfs and the profile does not declare it; tmpfs is RAM with a filesystem interface, so these numbers are a memcpy benchmark wearing a storage benchmark's labels"@,
                ),
            ]
        } else {
            Seq::empty()
        }),
    }
}

/// The scratch filesystem has to be recorded, and tmpfs is refused by default.
fn check_filesystem(doc: &RawJson, refusals: &mut Vec<Refusal>)
    ensures
        reasons(final(refusals)@) == reasons(old(refusals)@) + filesystem_reasons(doc@),
{
    match non_empty_str(doc, "provenance.filesystem.fsType") {
        None => {
            refuse(
                refusals,
                "filesystem",
                concat3(
                    "provenance.filesystem.fsType is ",
                    describe(at(doc, "provenance.filesystem.fsType")).as_str(),
                    ", so this document does not say what the scratch directory was on, and overlayfs, a virtiofs bind mount and a real ext4 are three different benchmarks",
                ),
            );
        },
        Some(fs_type) => {
            if non_empty_str(doc, "provenance.filesystem.scratchDir").is_none() {
                refuse(
                    refusals,
                    "filesystem",
                    "provenance.filesystem.scratchDir is absent, so the fsType above describes a directory nobody can name".to_owned(),
                );
            }
            if same_text(fs_type.as_str(), "tmpfs") && !set_at(
                doc,
                "provenance.filesystem.declaredTmpfs",
            ) {
                refuse(
                    refusals,
                    "tmpfs",
                    "the scratch directory is on tmpfs and the profile does not declare it; tmpfs is RAM with a filesystem interface, so these numbers are a memcpy benchmark wearing a storage benchmark's labels".to_owned(),
                );
            }
        },
    }
    assert(reasons(refusals@) =~= reasons(old(refusals)@) + filesystem_reasons(doc@));
}

/// A field of the invocation must be there, and not `null`.
pub open spec fn field_reasons(invocation: Json, field: Seq<char>) -> Seq<Reason> {
    match lookup(invocation, field) {
        Some(v) => if v is Null {
            seq![reason("invocation"@, "provenance.invocation."@ + field + " is absent"@)]
        } else {
            Seq::empty()
        },
        None => seq![reason("invocation"@, "provenance.invocation."@ + field + " is absent"@)],
    }
}

/// Whether an item of a list is the text `word`.
pub open spec fn lists_text(items: Seq<Json>, word: Seq<char>) -> bool {
    exists|i: int| 0 <= i < items.len() && str_of(#[trigger] items[i]) == Some(word)
}

/// The scenarios must be named, one by one.
pub open spec fn scenario_reasons(t: Json) -> Seq<Reason> {
    let found = value_at(t, "provenance.invocation.resolved.scenarios"@);
    let unresolved = seq![
        reason(
            "scenarios-unresolved"@,
            "resolved.scenarios is "@ + described(found)
                + ", so the document does not record which scenarios the defaults expanded to"@,
        ),
    ];
    match found {
        Some(Json::Array(items)) => if items.len() == 0 {
            unresolved
        } else if lists_text(items, "all"@) {
            seq![
                reason(
                    "scenarios-unresolved"@,
                    "resolved.scenarios still says \"all\"; \"all\" means a different set of scenarios on every day the suite grows, so two runs that both say it are not comparable"@,
                ),
            ]
        } else {
            Seq::empty()
        },
        _ => unresolved,
    }
}

/// What the first `n` cells that took another number of repetitions say.
pub open spec fn disagreeing_cells(cells: Seq<Json>, reps: nat, n: int) -> Seq<Seq<char>>
    decreases n,
{
    if n <= 0 {
        Seq::empty()
    } else if count_of(lookup(cells[n - 1], "reps"@)) != Some(reps) {
        disagreeing_cells(cells, reps, n - 1).push(
            named_cell(n - 1, cells[n - 1]) + " has reps "@ + described(
                lookup(cells[n - 1], "reps"@),
            ),
        )
    } else {
        disagreeing_cells(cells, reps, n - 1)
    }
}

/// Every cell must have taken the repetitions that the invocation resolved to.
pub open spec fn reps_reasons(t: Json) -> Seq<Reason> {
    let found = value_at(t, "provenance.invocation.resolved.reps"@);
    match count_of(found) {
        None => seq![
            reason(
                "reps-disagree"@,
                "resolved.reps is "@ + described(found)
                    + ", so there is nothing to check the cells against"@,
            ),
        ],
        Some(reps) => {
            let disagreeing = disagreeing_cells(cells_of(t), reps, cells_of(t).len() as int);
            if disagreeing.len() == 0 {
                Seq::empty()
            } else {
                seq![
                    reason(
                        "reps-disagree"@,
                        "the invocation resolved to "@ + decimal(reps)
                            + " repetitions per cell but "@ + joined(disagreeing, "; "@),
                    ),
                ]
            }
        },
    }
}

/// The invocation has to be recorded, resolved, and consistent with the cells.
pub open spec fn invocation_reasons(t: Json) -> Seq<Reason> {
    match value_at(t, "provenance.invocation"@) {
        None => seq![
            reason(
                "invocation"@,
                "provenance.invocation is absent, so nothing records what was asked for and the numbers cannot be reproduced even on this machine"@,
            ),
        ],
        Some(invocation) => field_reasons(invocation, "argv"@) + field_reasons(
            invocation,
            "command"@,
        ) + field_reasons(invocation, "cwd"@) + field_reasons(invocation, "resolved"@)
            + scenario_reasons(t) + reps_reasons(t),
    }
}

/// Refuse an invocation that lacks a field.
fn check_field(invocation: &RawJson, field: &str, refusals: &mut Vec<Refusal>)
    ensures
        reasons(final(refusals)@) == reasons(old(refusals)@) + field_reasons(invocation@, field@),
{
    let missing = match invocation.get(field) {
        None => true,
        Some(RawJson::Null) => true,
        _ => false,
    };
    if missing {
        refuse(
            refusals,
            "invocation",
            concat3("provenance.invocation.", field, " is absent"),
        );
    }
    assert(reasons(refusals@) =~= reasons(old(refusals)@) + field_reasons(invocation@, field@));
}

/// Whether an item of a list is the text `word`.
fn has_text(items: &Vec<RawJson>, word: &str) -> (yes: bool)
    ensures
        yes == lists_text(RawJson::Array(*items)@->Array_0, word@),
{
    let ghost model = RawJson::Array(*items)@->Array_0;
    let mut i: usize = 0;
    while i < items.len()
        invariant
            i <= items@.len(),
            model == RawJson::Array(*items)@->Array_0,
            forall|k: int| 0 <= k < i ==> str_of(#[trigger] model[k]) != Some(word@),
        decreases items@.len() - i,
    {
        assert(model[i as int] == items@[i as int]@);
        match items[i].as_str() {
            Some(text) => {
                if same_text(text, word) {
                    return true;
                }
            },
            None => {},
        }
        i = i + 1;
    }
    false
}

/// Refuse scenarios that are not named one by one.
fn check_scenarios(doc: &RawJson, refusals: &mut Vec<Refusal>)
    ensures
        reasons(final(refusals)@) == reasons(old(refusals)@) + scenario_reasons(doc@),
{
    let found: Option<&RawJson> = at(doc, "provenance.invocation.resolved.scenarios");
    let resolved = match found {
        Some(RawJson::Array(items)) => {
            if items.len() > 0 && has_text(items, "all") {
                refuse(
                    refusals,
                    "scenarios-unresolved",
                    "resolved.scenarios still says \"all\"; \"all\" means a different set of scenarios on every day the suite grows, so two runs that both say it are not comparable".to_owned(),
                );
            }
            items.len() > 0
        },
        _ => false,
    };
    if !resolved {
        refuse(
            refusals,
            "scenarios-unresolved",
            concat3(
                "resolved.scenarios is ",
                describe(found).as_str(),
                ", so the document does not record which scenarios the defaults expanded to",
            ),
        );
    }
    assert(reasons(refusals@) =~= reasons(old(refusals)@) + scenario_reasons(doc@));
}

/// Refuse cells that took another number of repetitions than was asked for.
fn check_reps(doc: &RawJson, refusals: &mut Vec<Refusal>)
    ensures
        reasons(final(refusals)@) == reasons(old(refusals)@) + reps_reasons(doc@),
{
    let found: Option<&RawJson> = at(doc, "provenance.invocation.resolved.reps");
    match as_u64(found) {
        None => {
            refuse(
                refusals,
                "reps-disagree",
                concat3(
                    "resolved.reps is ",
                    describe(found).as_str(),
                    ", so there is nothing to check the cells against",
                ),
            );
        },
        Some(reps) => {
            let ghost model = cells_of(doc@);
            let mut disagreeing: Vec<String> = Vec::new();
            match cells(doc) {
                Some(items) => {
                    let mut i: usize = 0;
                    while i < items.len()
                        invariant
                            i <= items@.len(),
                            model == RawJson::Array(*items)@->Array_0,
                            strings(disagreeing@) =~= disagreeing_cells(
                                model,
                                reps as nat,
                                i as int,
                            ),
                        decreases items@.len() - i,
                    {
                        assert(model[i as int] == items@[i as int]@);
                        let took: Option<&RawJson> = items[i].get("reps");
                        let agrees = match as_u64(took) {
                            Some(n) => n == reps,
                            None => false,
                        };
                        if !agrees {
                            disagreeing.push(
                                concat3(
                                    cell_name(i, &items[i]).as_str(),
                                    " has reps ",
                                    describe(took).as_str(),
                                ),
                            );
                        }
                        i = i + 1;
                    }
                },
                None => {
                    assert(strings(disagreeing@) =~= disagreeing_cells(model, reps as nat, 0));
                },
            }
            assert(strings(disagreeing@) == disagreeing_cells(
                model,
                reps as nat,
                model.len() as int,
            ));
            assert(strings(disagreeing@).len() == disagreeing@.len());
            if disagreeing.len() > 0 {
                let mut detail: String = concat3(
                    "the invocation resolved to ",
                    decimal_text(reps as u128).as_str(),
                    " repetitions per cell but ",
                );
                detail.append(join(&disagreeing, "; ").as_str());
                refuse(refusals, "reps-disagree", detail);
            }
        },
    }
    assert(reasons(refusals@) =~= reasons(old(refusals)@) + reps_reasons(doc@));
}

/// The invocation has to be recorded, resolved, and consistent with the cells.
fn check_invocation_and_reps(doc: &RawJson, refusals: &mut Vec<Refusal>)
    ensures
        reasons(final(refusals)@) == reasons(old(refusals)@) + invocation_reasons(doc@),
{
    match at(doc, "provenance.invocation") {
        None => {
            refuse(
                refusals,
                "invocation",
                "provenance.invocation is absent, so nothing records what was asked for and the numbers cannot be reproduced even on this machine".to_owned(),
            );
        },
        Some(invocation) => {
            check_field(invocation, "argv", refusals);
            check_field(invocation, "command", refusals);
            check_field(invocation, "cwd", refusals);
            check_field(invocation, "resolved", refusals);
            check_scenarios(doc, refusals);
            check_reps(doc, refusals);
        },
    }
    assert(reasons(refusals@) =~= reasons(old(refusals)@) + invocation_reasons(doc@));
}

/// A cell has to be attested if it claims to be ok, and explained if it is not.
pub open spec fn cell_reasons(index: int, cell: Json) -> Seq<Reason> {
    let outcome = match text_in(lookup(cell, "outcome"@)) {
        Some(s) => s,
        None => ""@,
    };
    if outcome == "ok"@ {
        if bool_of(lookup(cell, "storageAttested"@)) != Some(true) {
            seq![
                reason(
                    "unattested-cell"@,
                    named_cell(index, cell) + " claims outcome ok and storageAttested is "@
                        + described(lookup(cell, "storageAttested"@))
                        + "; an ok cell that was never observed to have measured the backend it names is a label, not a measurement"@,
                ),
            ]
        } else {
            Seq::empty()
        }
    } else if filled_text(cell, "reason"@) is None {
        seq![
            reason(
                "outcome-without-reason"@,
                named_cell(index, cell) + " has outcome "@ + debug_str_text(outcome)
                    + " and no reason"@,
            ),
        ]
    } else {
        Seq::empty()
    }
}

/// What the first `n` cells are refused for.
pub open spec fn all_cell_reasons(cells: Seq<Json>, n: int) -> Seq<Reason>
    decreases n,
{
    if n <= 0 {
        Seq::empty()
    } else {
        all_cell_reasons(cells, n - 1) + cell_reasons(n - 1, cells[n - 1])
    }
}

/// There has to be a cell, and every cell has to stand for itself.
pub open spec fn cells_reasons(t: Json) -> Seq<Reason> {
    if cells_of(t).len() == 0 {
        seq![
            reason(
                "no-cells"@,
                "the document has no cells; an empty reading is a refusal, not a result"@,
            ),
        ]
    } else {
        all_cell_reasons(cells_of(t), cells_of(t).len() as int)
    }
}

/// A cell has to be attested if it claims to be ok, and explained if it is not.
fn check_cell(index: usize, cell: &RawJson, refusals: &mut Vec<Refusal>)
    ensures
        reasons(final(refusals)@) == reasons(old(refusals)@) + cell_reasons(index as int, cell@),
{
    let outcome = text_or(cell.get("outcome"), "");
    if same_text(outcome, "ok") {
        let attested: Option<&RawJson> = cell.get("storageAttested");
        let seen = match as_bool(attested) {
            Some(b) => b,
            None => false,
        };
        if !seen {
            let mut detail: String = concat3(
                cell_name(index, cell).as_str(),
                " claims outcome ok and storageAttested is ",
                describe(attested).as_str(),
            );
            detail.append(
                "; an ok cell that was never observed to have measured the backend it names is a label, not a measurement",
            );
            refuse(refusals, "unattested-cell", detail);
        }
    } else if non_empty_str(cell, "reason").is_none() {
        let mut detail: String = concat3(
            cell_name(index, cell).as_str(),
            " has outcome ",
            debug_str(outcome).as_str(),
        );
        detail.append(" and no reason");
        refuse(refusals, "outcome-without-reason", detail);
    }
    assert(reasons(refusals@) =~= reasons(old(refusals)@) + cell_reasons(index as int, cell@));
}

/// Every cell has to be attested if it claims to be ok, and explained if it is
/// not.
fn check_cells(doc: &RawJson, refusals: &mut Vec<Refusal>)
    ensures
        reasons(final(refusals)@) == reasons(old(refusals)@) + cells_reasons(doc@),
{
    let ghost model = cells_of(doc@);
    let mut any = false;
    match cells(doc) {
        Some(items) => {
            any = items.len() > 0;
            let mut i: usize = 0;
            assert(reasons(refusals@) =~= reasons(old(refusals)@) + all_cell_reasons(model, 0));
            while i < items.len()
                invariant
                    i <= items@.len(),
                    model == RawJson::Array(*items)@->Array_0,
                    reasons(refusals@) == reasons(old(refusals)@) + all_cell_reasons(
                        model,
                        i as int,
                    ),
                decreases items@.len() - i,
            {
                assert(model[i as int] == items@[i as int]@);
                let ghost before = reasons(refusals@);
                check_cell(i, &items[i], refusals);
                i = i + 1;
                assert(reasons(refusals@) =~= reasons(old(refusals)@) + all_cell_reasons(
                    model,
                    i as int,
                ));
            }
        },
        None => {},
    }
    if !any {
        refuse(
            refusals,
            "no-cells",
            "the document has no cells; an empty reading is a refusal, not a result".to_owned(),
        );
    }
    assert(reasons(refusals@) =~= reasons(old(refusals)@) + cells_reasons(doc@));
}

/// Lines of a verification, each a reason.
pub open spec fn line_reasons(lines: Seq<Seq<char>>) -> Seq<Reason> {
    Seq::new(lines.len(), |i: int| reason("integrity"@, lines[i]))
}

/// If the document carries digests, they have to still hold. A document without
/// them is not sealed yet, which is no reason.
pub open spec fn integrity_reasons(t: Json) -> Seq<Reason> {
    if lookup(t, "integrity"@) is None {
        Seq::empty()
    } else {
        match findings_of(t) {
            Ok(found) => if found.stated is Some && found.moved.len() == 0 {
                Seq::empty()
            } else {
                line_reasons(lines_of(found))
            },
            Err(e) => seq![
                reason(
                    "integrity"@,
                    "the document cannot be canonicalised, so it cannot be digested: "@
                        + CanonicalError::message_text(e),
                ),
            ],
        }
    }
}

/// If the document carries digests, they have to still hold.
fn check_integrity(doc: &RawJson, refusals: &mut Vec<Refusal>)
    requires
        tokens_complete(doc@),
    ensures
        reasons(final(refusals)@) == reasons(old(refusals)@) + integrity_reasons(doc@),
{
    if doc.get("integrity").is_some() {
        match verify_raw(doc) {
            Ok(report) => {
                if !report.ok() {
                    let lines: Vec<String> = report.lines();
                    let ghost model = lines_of(report@);
                    let ghost before = reasons(refusals@);
                    let mut i: usize = 0;
                    assert(line_reasons(model).take(0) =~= Seq::<Reason>::empty());
                    assert(reasons(refusals@) =~= before + line_reasons(model).take(0));
                    while i < lines.len()
                        invariant
                            i <= lines@.len(),
                            strings(lines@) == model,
                            reasons(refusals@) == before + line_reasons(model).take(i as int),
                        decreases lines@.len() - i,
                    {
                        assert(lines@[i as int]@ == model[i as int]);
                        refuse(refusals, "integrity", lines[i].clone());
                        i = i + 1;
                        assert(reasons(refusals@) =~= before + line_reasons(model).take(
                            i as int,
                        ));
                    }
                    assert(line_reasons(model).take(i as int) =~= line_reasons(model));
                }
            },
            Err(e) => {
                refuse(
                    refusals,
                    "integrity",
                    concat2(
                        "the document cannot be canonicalised, so it cannot be digested: ",
                        e.message().as_str(),
                    ),
                );
            },
        }
    }
    assert(reasons(refusals@) =~= reasons(old(refusals)@) + integrity_reasons(doc@));
}

/// Every reason a document may not be archived.
pub open spec fn refusals_of(t: Json) -> Seq<Reason> {
    emulation_reasons(t) + source_reasons(t) + build_reasons(t) + filesystem_reasons(t)
        + invocation_reasons(t) + cells_reasons(t) + integrity_reasons(t)
}

/// Every reason this document may not be archived. Empty means admitted.
pub fn admission(doc: &RawJson) -> (refusals: Vec<Refusal>)
    requires
        tokens_complete(doc@),
    ensures
        reasons(refusals@) == refusals_of(doc@),
{
    let mut refusals: Vec<Refusal> = Vec::new();
    assert(reasons(refusals@) =~= Seq::<Reason>::empty());
    check_emulation(doc, &mut refusals);
    check_source_trees(doc, &mut refusals);
    check_build(doc, &mut refusals);
    check_filesystem(doc, &mut refusals);
    check_invocation_and_reps(doc, &mut refusals);
    check_cells(doc, &mut refusals);
    check_integrity(doc, &mut refusals);
    assert(reasons(refusals@) =~= refusals_of(doc@));
    refusals
}


/// Every reason the document in a text may not be archived, or why the text
/// holds none.
pub fn admission_of_text(text: &str) -> (got: Result<Vec<Refusal>, CanonicalError>)
    ensures
        got is Ok ==> read_document(text@) is Ok && reasons(got->Ok_0@) == refusals_of(
            read_document(text@)->Ok_0,
        ),
        got is Err ==> read_document(text@) == Err::<Json, Fault>(got->Err_0@),
{
    match RawJson::parse(text) {
        Err(e) => Err(e),
        Ok(doc) => {
            proof {
                lemma_valid_is_complete(doc@);
            }
            Ok(admission(&doc))
        },
    }
}

/// Why a run id could not be derived.
#[derive(Debug, Clone, PartialEq, Eq)]
pub enum RunIdError {
    /// A field the id is built from is absent or empty.
    Missing(&'static str),
}

impl RunIdError {
    /// What is missing, and why that matters.
    pub fn message(&self) -> (out: String)
        ensures
            out@ == self->Missing_0@
                + " is absent, and a run id derived around a missing field would collide with every other run missing it"@,
    {
        match self {
            RunIdError::Missing(path) => concat2(
                path,
                " is absent, and a run id derived around a missing field would collide with every other run missing it",
            ),
        }
    }
}

/// Whether a text is the offset of a time zone: a sign, and then digits, with
/// colons among them or none.
pub open spec fn is_offset(s: Seq<char>) -> bool {
    &&& s.len() > 1
    &&& s[0] == '+' || s[0] == '-'
    &&& forall|i: int| 1 <= i < s.len() ==> is_digit(#[trigger] s[i]) || s[i] == ':'
}

/// The time zone of a timestamp, from what stands behind its point: an offset
/// behind the digits of the fraction, or the `Z` it ends with.
pub open spec fn zone_behind(tail: Seq<char>) -> Seq<char> {
    let end = digits_end(tail, 0);
    if end > 0 && is_offset(tail.skip(end)) {
        tail.skip(end)
    } else if tail.len() > 0 && tail.last() == 'Z' {
        "Z"@
    } else {
        ""@
    }
}

/// A timestamp without its fraction: of what stands behind the first point, the
/// time zone alone stays.
pub open spec fn whole_seconds(iso: Seq<char>) -> Seq<char> {
    let dot = index_of(iso, '.', 0);
    if dot < iso.len() {
        iso.take(dot) + zone_behind(iso.skip(dot + 1))
    } else {
        iso
    }
}

/// A timestamp without its fraction, and without all that is neither a letter
/// nor a digit: `2026-09-13T21:45:00.123Z` becomes `20260913T214500Z`.
pub open spec fn compacted(iso: Seq<char>) -> Seq<char> {
    alnum_only(whole_seconds(iso))
}

/// Whether a text is the offset of a time zone.
fn offset(s: &[char]) -> (yes: bool)
    ensures
        yes == is_offset(s@),
{
    if s.len() < 2 || (s[0] != '+' && s[0] != '-') {
        return false;
    }
    let mut i: usize = 1;
    while i < s.len()
        invariant
            1 <= i <= s@.len(),
            forall|k: int| 1 <= k < i ==> is_digit(#[trigger] s@[k]) || s@[k] == ':',
        decreases s@.len() - i,
    {
        let c: char = s[i];
        if !('0' <= c && c <= '9') && c != ':' {
            assert(!is_digit(s@[i as int]));
            return false;
        }
        i = i + 1;
    }
    true
}

/// The time zone of a timestamp, from what stands behind its point.
fn zone_of(tail: &[char]) -> (out: String)
    ensures
        out@ == zone_behind(tail@),
{
    let end: usize = skip_digits(tail, 0);
    let rest: &[char] = vstd::slice::slice_subrange(tail, end, tail.len());
    assert(rest@ =~= tail@.skip(end as int));
    if end > 0 && offset(rest) {
        return text_between(rest, 0, rest.len());
    }
    if tail.len() > 0 && tail[tail.len() - 1] == 'Z' {
        "Z".to_owned()
    } else {
        "".to_owned()
    }
}

/// `2026-09-13T21:45:00.123Z` into `20260913T214500Z`.
pub fn compact_timestamp(iso: &str) -> (out: String)
    ensures
        out@ == compacted(iso@),
{
    let chars: Vec<char> = chars_of(iso);
    let dot: usize = find_char(chars.as_slice(), '.', 0);
    if dot == chars.len() {
        return keep_alnum(chars.as_slice());
    }
    let mut kept: String = text_between(chars.as_slice(), 0, dot);
    let tail: &[char] = vstd::slice::slice_subrange(chars.as_slice(), dot + 1, chars.len());
    assert(tail@ =~= iso@.skip(dot + 1));
    kept.append(zone_of(tail).as_str());
    assert(kept@ =~= whole_seconds(iso@));
    let letters: Vec<char> = chars_of(kept.as_str());
    keep_alnum(letters.as_slice())
}

/// The text at a path, or `unknown`.
pub open spec fn known_text(t: Json, path: Seq<char>) -> Seq<char> {
    match filled_text(t, path) {
        Some(s) => s,
        None => "unknown"@,
    }
}

/// The environment fields that decide whether two runs are comparable.
pub open spec fn host_fields(t: Json) -> Seq<Seq<char>> {
    seq![
        known_text(t, "provenance.os"@),
        known_text(t, "provenance.arch"@),
        known_text(t, "provenance.cpuModel"@),
        known_text(t, "provenance.node.rustc"@),
        known_text(t, "provenance.filesystem.fsType"@),
        described(value_at(t, "provenance.emulated"@)),
    ]
}

/// The environment bucket: eight characters of a digest over the fields, with a
/// NUL between each two, so that moving a letter from one field to the next
/// moves the bucket.
pub open spec fn host_bucket(t: Json) -> Seq<char> {
    sha256_hex_of(encode_utf8(joined(host_fields(t), "\0"@))).take(8)
}

/// The text at a path, or `unknown`.
fn text_at_or_unknown(doc: &RawJson, path: &str) -> (out: String)
    ensures
        out@ == known_text(doc@, path@),
{
    match non_empty_str(doc, path) {
        Some(s) => s,
        None => "unknown".to_owned(),
    }
}

/// The environment bucket.
fn host8(doc: &RawJson) -> (out: String)
    ensures
        out@ == host_bucket(doc@),
{
    let mut parts: Vec<String> = Vec::new();
    parts.push(text_at_or_unknown(doc, "provenance.os"));
    parts.push(text_at_or_unknown(doc, "provenance.arch"));
    parts.push(text_at_or_unknown(doc, "provenance.cpuModel"));
    parts.push(text_at_or_unknown(doc, "provenance.node.rustc"));
    parts.push(text_at_or_unknown(doc, "provenance.filesystem.fsType"));
    parts.push(describe(at(doc, "provenance.emulated")));
    assert(strings(parts@) =~= host_fields(doc@));
    let whole: String = join(&parts, "\0");
    let hex: String = sha256_hex(whole.as_str().as_bytes());
    let chars: Vec<char> = chars_of(hex.as_str());
    let out: String = text_between(chars.as_slice(), 0, 8);
    assert(out@ =~= host_bucket(doc@));
    out
}

/// The run's identity, or the field that it lacks.
pub open spec fn run_id_of(t: Json) -> Result<Seq<char>, Seq<char>> {
    match (filled_text(t, "startedAt"@), filled_text(t, "provenance.library.commit"@)) {
        (None, _) => Err("startedAt"@),
        (_, None) => Err("provenance.library.commit"@),
        (Some(started_at), Some(commit)) => Ok(
            compacted(started_at) + "-"@ + commit + "-"@ + host_bucket(t),
        ),
    }
}

/// The run's identity, derived from the run's own evidence:
/// `<startedAt>-<library commit>-<host8>`. Nothing here reads the clock.
pub fn run_id(doc: &RawJson) -> (got: Result<String, RunIdError>)
    ensures
        got is Ok ==> run_id_of(doc@) == Ok::<Seq<char>, Seq<char>>(got->Ok_0@),
        got is Err ==> run_id_of(doc@) == Err::<Seq<char>, Seq<char>>(got->Err_0->Missing_0@),
{
    match non_empty_str(doc, "startedAt") {
        None => Err(RunIdError::Missing("startedAt")),
        Some(started_at) => match non_empty_str(doc, "provenance.library.commit") {
            None => Err(RunIdError::Missing("provenance.library.commit")),
            Some(commit) => {
                let mut out: String = concat3(
                    compact_timestamp(started_at.as_str()).as_str(),
                    "-",
                    commit.as_str(),
                );
                out.append("-");
                out.append(host8(doc).as_str());
                Ok(out)
            },
        },
    }
}

/// The document that is sealed: the document itself, or an empty one where it
/// is no object.
pub open spec fn sealable(t: Json) -> Json {
    match t {
        Json::Object(_) => t,
        _ => Json::Object(Seq::empty()),
    }
}

/// A sealed copy of a document: the same evidence, plus the four digests and the
/// time it was combined.
pub open spec fn sealed_tree(t: Json, combined_at: Seq<char>, seal: Seal) -> Json {
    inserted(
        inserted(sealable(t), "combinedAt"@, Json::Str(combined_at)),
        "integrity"@,
        seal_tree(seal),
    )
}

/// Four digests as the `integrity` block holds them.
fn digests_tree(digests: &Digests) -> (out: RawJson)
    ensures
        out@ == seal_tree(digests@),
{
    let mut entries: Vec<(String, RawJson)> = Vec::new();
    entries.push(("cells".to_owned(), RawJson::Str(digests.cells.clone())));
    entries.push(("runners".to_owned(), RawJson::Str(digests.runners.clone())));
    entries.push(("measurements".to_owned(), RawJson::Str(digests.measurements.clone())));
    entries.push(("document".to_owned(), RawJson::Str(digests.document.clone())));
    let out = RawJson::Object(entries);
    proof {
        let built = out->Object_0@;
        assert(built[0].1@ == Json::Str(digests@.cells));
        assert(built[1].1@ == Json::Str(digests@.runners));
        assert(built[2].1@ == Json::Str(digests@.measurements));
        assert(built[3].1@ == Json::Str(digests@.document));
        assert(out@->Object_0 =~= seal_tree(digests@)->Object_0);
    }
    out
}

/// A sealed copy of `doc`, combined at the given time.
pub fn seal_at(doc: &RawJson, combined_at: &str) -> (got: Result<
    (RawJson, Digests),
    CanonicalError,
>)
    requires
        tokens_complete(doc@),
    ensures
        got is Ok ==> digests_of(doc@) == Ok::<Seal, Fault>(got->Ok_0.1@) && got->Ok_0.0@
            == sealed_tree(doc@, combined_at@, got->Ok_0.1@),
        got is Err ==> digests_of(doc@) == Err::<Seal, Fault>(got->Err_0@),
{
    let digests: Digests = match compute_digests_raw(doc) {
        Ok(d) => d,
        Err(e) => return Err(e),
    };
    let mut sealed: RawJson = match doc {
        RawJson::Object(_) => doc.clone(),
        _ => {
            let empty = RawJson::Object(Vec::new());
            assert(empty@->Object_0 =~= Seq::<(Seq<char>, Json)>::empty());
            empty
        },
    };
    sealed.insert("combinedAt", RawJson::Str(combined_at.to_owned()));
    sealed.insert("integrity", digests_tree(&digests));
    Ok((sealed, digests))
}

/// Whether a text is a time in UTC to the millisecond: `-MM-DDTHH:MM:SS.mmmZ`
/// behind a year of at least four characters.
pub open spec fn is_utc_millis(s: Seq<char>) -> bool {
    let n = s.len() as int;
    &&& n >= 24
    &&& s[n - 20] == '-' && is_digit(s[n - 19]) && is_digit(s[n - 18])
    &&& s[n - 17] == '-' && is_digit(s[n - 16]) && is_digit(s[n - 15])
    &&& s[n - 14] == 'T' && is_digit(s[n - 13]) && is_digit(s[n - 12])
    &&& s[n - 11] == ':' && is_digit(s[n - 10]) && is_digit(s[n - 9])
    &&& s[n - 8] == ':' && is_digit(s[n - 7]) && is_digit(s[n - 6])
    &&& s[n - 5] == '.' && is_digit(s[n - 4]) && is_digit(s[n - 3]) && is_digit(s[n - 2])
    &&& s[n - 1] == 'Z'
}

/// `chrono::Utc::now`, printed by `to_rfc3339_opts` with milliseconds and `Z`:
/// whatever the time is, the text has this form. Nothing is said of the time.
#[verifier::external_body]
pub(crate) fn now_iso() -> (out: String)
    ensures
        is_utc_millis(out@),
{
    chrono::Utc::now().to_rfc3339_opts(chrono::SecondsFormat::Millis, true)
}

/// A sealed copy of `doc`: the same evidence, plus the four digests and the time
/// it was combined, which is now.
pub fn seal(doc: &RawJson) -> (got: Result<(RawJson, Digests), CanonicalError>)
    requires
        tokens_complete(doc@),
    ensures
        got is Ok ==> digests_of(doc@) == Ok::<Seal, Fault>(got->Ok_0.1@) && exists|now: Seq<char>|
            is_utc_millis(now) && got->Ok_0.0@ == #[trigger] sealed_tree(
                doc@,
                now,
                got->Ok_0.1@,
            ),
        got is Err ==> digests_of(doc@) == Err::<Seal, Fault>(got->Err_0@),
{
    let now: String = now_iso();
    seal_at(doc, now.as_str())
}

/// What happened when a document was archived.
#[derive(Debug, Clone, PartialEq, Eq)]
pub struct ArchiveEntry {
    /// The run's derived id.
    pub run_id: String,
    /// Where the sealed document was written, or already was.
    pub path: String,
    /// The `document` digest.
    pub document_digest: String,
    /// `false` when an identical run was already archived, so nothing changed.
    pub written: bool,
}

/// Why an archive attempt failed.
#[derive(Debug)]
pub enum ArchiveError {
    /// The document was refused. Every reason, not the first.
    Refused(Vec<Refusal>),
    /// The id could not be derived.
    RunId(RunIdError),
    /// The document could not be canonicalised.
    Canonical(CanonicalError),
    /// A different run is already archived under this id.
    Collision {
        /// The id both runs derive to.
        run_id: String,
        /// The digest already on disk.
        existing: String,
        /// The digest of the document being archived.
        incoming: String,
    },
    /// The filesystem said no, in these words.
    Io(String),
}

/// The lines that a refused document is answered with.
pub open spec fn refusal_lines(refusals: Seq<Reason>) -> Seq<char>
    decreases refusals.len(),
{
    if refusals.len() == 0 {
        Seq::empty()
    } else {
        refusal_lines(refusals.drop_last()) + "  REFUSED["@ + refusals.last().code + "]: "@
            + refusals.last().detail + "\n"@
    }
}

/// The message of an archive attempt that failed.
pub open spec fn archive_message(e: ArchiveError) -> Seq<char> {
    match e {
        ArchiveError::Refused(refusals) => "the document was refused for "@ + decimal(
            refusals@.len(),
        ) + " reasons:\n"@ + refusal_lines(reasons(refusals@)),
        ArchiveError::RunId(RunIdError::Missing(path)) => "the run id could not be derived: "@ + (
        path@
            + " is absent, and a run id derived around a missing field would collide with every other run missing it"@),
        ArchiveError::Canonical(e) => CanonicalError::message_text(e@),
        ArchiveError::Collision { run_id, existing, incoming } => run_id@
            + " is already archived with document digest "@ + existing@
            + " and this document digests to "@ + incoming@
            + "; two different runs derived the same id, which means the id is missing a field that distinguishes them"@,
        ArchiveError::Io(words) => words@,
    }
}

impl ArchiveError {
    /// What went wrong.
    pub fn message(&self) -> (out: String)
        ensures
            out@ == archive_message(*self),
    {
        match self {
            ArchiveError::Refused(refusals) => {
                let mut out: String = concat3(
                    "the document was refused for ",
                    decimal_text(refusals.len() as u128).as_str(),
                    " reasons:\n",
                );
                let ghost head = out@;
                let ghost all = reasons(refusals@);
                let mut i: usize = 0;
                assert(all.take(0) =~= Seq::<Reason>::empty());
                assert(out@ =~= head + refusal_lines(all.take(0)));
                while i < refusals.len()
                    invariant
                        i <= refusals@.len(),
                        all == reasons(refusals@),
                        out@ == head + refusal_lines(all.take(i as int)),
                    decreases refusals@.len() - i,
                {
                    assert(all.take(i + 1).drop_last() =~= all.take(i as int));
                    assert(all.take(i + 1).last() == refusals@[i as int]@);
                    out.append("  REFUSED[");
                    out.append(refusals[i].code);
                    out.append("]: ");
                    out.append(refusals[i].detail.as_str());
                    out.append("\n");
                    i = i + 1;
                    assert(out@ =~= head + refusal_lines(all.take(i as int)));
                }
                assert(all.take(i as int) =~= all);
                out
            },
            ArchiveError::RunId(e) => concat2(
                "the run id could not be derived: ",
                e.message().as_str(),
            ),
            ArchiveError::Canonical(e) => e.message(),
            ArchiveError::Collision { run_id, existing, incoming } => {
                let mut out: String = concat3(
                    run_id.as_str(),
                    " is already archived with document digest ",
                    existing.as_str(),
                );
                out.append(" and this document digests to ");
                out.append(incoming.as_str());
                out.append(
                    "; two different runs derived the same id, which means the id is missing a field that distinguishes them",
                );
                out
            },
            ArchiveError::Io(words) => words.clone(),
        }
    }
}


/// A document that may be filed: its id, its sealed copy and its digests.
#[derive(Debug)]
pub struct Filing {
    /// The run's derived id.
    pub run_id: String,
    /// The document, sealed.
    pub sealed: RawJson,
    /// The four digests in the seal.
    pub digests: Digests,
}

/// Admit and seal a document. It is refused for every reason there is, before
/// anything else is asked of it.
pub fn prepare(doc: &RawJson, combined_at: &str) -> (got: Result<Filing, ArchiveError>)
    requires
        tokens_complete(doc@),
    ensures
        match got {
            Ok(filing) => {
                &&& refusals_of(doc@).len() == 0
                &&& run_id_of(doc@) == Ok::<Seq<char>, Seq<char>>(filing.run_id@)
                &&& digests_of(doc@) == Ok::<Seal, Fault>(filing.digests@)
                &&& filing.sealed@ == sealed_tree(doc@, combined_at@, filing.digests@)
            },
            Err(ArchiveError::Refused(refusals)) => reasons(refusals@) == refusals_of(doc@)
                && refusals@.len() > 0,
            Err(ArchiveError::RunId(e)) => refusals_of(doc@).len() == 0 && run_id_of(doc@) == Err::<
                Seq<char>,
                Seq<char>,
            >(e->Missing_0@),
            Err(ArchiveError::Canonical(e)) => refusals_of(doc@).len() == 0 && run_id_of(
                doc@,
            ) is Ok && digests_of(doc@) == Err::<Seal, Fault>(e@),
            Err(_) => false,
        },
{
    let refusals: Vec<Refusal> = admission(doc);
    assert(reasons(refusals@).len() == refusals@.len());
    if refusals.len() > 0 {
        return Err(ArchiveError::Refused(refusals));
    }
    match run_id(doc) {
        Err(e) => Err(ArchiveError::RunId(e)),
        Ok(id) => match seal_at(doc, combined_at) {
            Err(e) => Err(ArchiveError::Canonical(e)),
            Ok((sealed, digests)) => Ok(Filing { run_id: id, sealed, digests }),
        },
    }
}

/// The `document` digest that an archived document states, or nothing.
pub open spec fn archived_digest(t: Json) -> Seq<char> {
    match text_in(
        match lookup(t, "integrity"@) {
            Some(integrity) => lookup(integrity, "document"@),
            None => None,
        },
    ) {
        Some(s) => s,
        None => ""@,
    }
}

/// Whether a document still has to be written, where `existing` is what is
/// archived under its id. The same run is filed once; a different run under the
/// same id is a collision.
pub fn settle(run_id: &str, document_digest: &str, existing: Option<&RawJson>) -> (got: Result<
    bool,
    ArchiveError,
>)
    ensures
        match existing {
            None => got == Ok::<bool, ArchiveError>(true),
            Some(there) => if archived_digest(there@) == document_digest@ {
                got == Ok::<bool, ArchiveError>(false)
            } else {
                got matches Err(ArchiveError::Collision { run_id: id, existing: was, incoming })
                    && id@ == run_id@ && was@ == archived_digest(there@) && incoming@
                    == document_digest@
            },
        },
{
    match existing {
        None => Ok(true),
        Some(there) => {
            let inner: Option<&RawJson> = match there.get("integrity") {
                Some(integrity) => integrity.get("document"),
                None => None,
            };
            let was = text_or(inner, "");
            if same_text(was, document_digest) {
                Ok(false)
            } else {
                Err(
                    ArchiveError::Collision {
                        run_id: run_id.to_owned(),
                        existing: was.to_owned(),
                        incoming: document_digest.to_owned(),
                    },
                )
            }
        },
    }
}

/// The name of the file that a run is archived in.
pub fn file_name(run_id: &str) -> (out: String)
    ensures
        out@ == run_id@ + ".json"@,
{
    concat2(run_id, ".json")
}

/// The value at a path, or `null`.
pub open spec fn value_or_null(t: Json, path: Seq<char>) -> Json {
    match value_at(t, path) {
        Some(v) => v,
        None => Json::Null,
    }
}

/// The row that the index has for a run.
pub open spec fn index_row(run_id: Seq<char>, document_digest: Seq<char>, t: Json) -> Json {
    Json::Object(
        seq![
            ("runId"@, Json::Str(run_id)),
            ("documentDigest"@, Json::Str(document_digest)),
            ("startedAt"@, value_or_null(t, "startedAt"@)),
            ("libraryCommit"@, value_or_null(t, "provenance.library.commit"@)),
            ("emulated"@, value_or_null(t, "provenance.emulated"@)),
            ("fsType"@, value_or_null(t, "provenance.filesystem.fsType"@)),
            ("file"@, Json::Str(run_id + ".json"@)),
        ],
    )
}

/// The run that a row is about.
pub open spec fn row_run(row: Json) -> Option<Seq<char>> {
    text_in(lookup(row, "runId"@))
}

/// What a row is sorted by: rows without a run come first.
pub open spec fn row_key(row: Json) -> Seq<char> {
    match row_run(row) {
        Some(s) => seq!['\0'] + s,
        None => Seq::empty(),
    }
}

/// What rows are sorted by.
pub open spec fn row_keys(rows: Seq<Json>) -> Seq<Seq<char>> {
    Seq::new(rows.len(), |i: int| row_key(rows[i]))
}

/// Rows in ascending order of their runs.
pub open spec fn sorted_rows(rows: Seq<Json>) -> Seq<Json> {
    Seq::new(rows.len(), |k: int| rows[key_order(row_keys(rows))[k]])
}

/// Whether the index has a row for a run.
pub open spec fn is_listed(rows: Seq<Json>, run_id: Seq<char>) -> bool {
    exists|i: int| 0 <= i < rows.len() && row_run(#[trigger] rows[i]) == Some(run_id)
}

/// Rows, as trees.
pub open spec fn trees(rows: Seq<RawJson>) -> Seq<Json> {
    Seq::new(rows.len(), |i: int| rows[i]@)
}

/// The value at a path, or `null`.
fn at_or_null(doc: &RawJson, path: &str) -> (out: RawJson)
    ensures
        out@ == value_or_null(doc@, path@),
{
    match at(doc, path) {
        Some(v) => v.clone(),
        None => RawJson::Null,
    }
}

/// The row that the index has for a run.
fn row_for(run_id: &str, document_digest: &str, doc: &RawJson) -> (out: RawJson)
    ensures
        out@ == index_row(run_id@, document_digest@, doc@),
{
    let mut entries: Vec<(String, RawJson)> = Vec::new();
    entries.push(("runId".to_owned(), RawJson::Str(run_id.to_owned())));
    entries.push(("documentDigest".to_owned(), RawJson::Str(document_digest.to_owned())));
    entries.push(("startedAt".to_owned(), at_or_null(doc, "startedAt")));
    entries.push(("libraryCommit".to_owned(), at_or_null(doc, "provenance.library.commit")));
    entries.push(("emulated".to_owned(), at_or_null(doc, "provenance.emulated")));
    entries.push(("fsType".to_owned(), at_or_null(doc, "provenance.filesystem.fsType")));
    entries.push(("file".to_owned(), RawJson::Str(file_name(run_id))));
    let out = RawJson::Object(entries);
    proof {
        let built = out->Object_0@;
        assert(built[0].1@ == Json::Str(run_id@));
        assert(built[1].1@ == Json::Str(document_digest@));
        assert(built[6].1@ == Json::Str(run_id@ + ".json"@));
        assert(out@->Object_0 =~= index_row(run_id@, document_digest@, doc@)->Object_0);
    }
    out
}

/// What a row is sorted by.
fn key_of_row(row: &RawJson) -> (out: Vec<char>)
    ensures
        out@ == row_key(row@),
{
    let mut out: Vec<char> = Vec::new();
    match as_text(row.get("runId")) {
        Some(s) => {
            let mut letters: Vec<char> = chars_of(s);
            out.push('\0');
            out.append(&mut letters);
            assert(out@ =~= row_key(row@));
        },
        None => {
            assert(out@ =~= row_key(row@));
        },
    }
    out
}

/// The index with a row for a run, or nothing where it has that row already.
pub fn index_with(
    mut rows: Vec<RawJson>,
    run_id: &str,
    document_digest: &str,
    doc: &RawJson,
) -> (got: Option<Vec<RawJson>>)
    ensures
        got is None <==> is_listed(trees(rows@), run_id@),
        got is Some ==> trees(got->0@) == sorted_rows(
            trees(rows@).push(index_row(run_id@, document_digest@, doc@)),
        ),
{
    let ghost before = trees(rows@);
    let mut i: usize = 0;
    while i < rows.len()
        invariant
            i <= rows@.len(),
            before == trees(rows@),
            forall|k: int| 0 <= k < i ==> row_run(#[trigger] before[k]) != Some(run_id@),
        decreases rows@.len() - i,
    {
        assert(before[i as int] == rows@[i as int]@);
        match as_text(rows[i].get("runId")) {
            Some(s) => {
                if same_text(s, run_id) {
                    return None;
                }
            },
            None => {},
        }
        i = i + 1;
    }
    rows.push(row_for(run_id, document_digest, doc));
    let ghost all = before.push(index_row(run_id@, document_digest@, doc@));
    assert(trees(rows@) =~= all);
    let mut keys: Vec<Vec<char>> = Vec::new();
    let mut j: usize = 0;
    while j < rows.len()
        invariant
            j <= rows@.len(),
            trees(rows@) == all,
            keys@.len() == j,
            forall|k: int| 0 <= k < j ==> (#[trigger] keys@[k])@ == row_key(all[k]),
        decreases rows@.len() - j,
    {
        assert(all[j as int] == rows@[j as int]@);
        keys.push(key_of_row(&rows[j]));
        j = j + 1;
    }
    assert(texts(keys@) =~= row_keys(all));
    let order: Vec<usize> = sorted_indices(&keys);
    let mut out: Vec<RawJson> = Vec::new();
    let mut k: usize = 0;
    while k < order.len()
        invariant
            k <= order@.len(),
            order@.len() == rows@.len(),
            trees(rows@) == all,
            as_ints(order@) == key_order(row_keys(all)),
            forall|m: int| 0 <= m < order@.len() ==> (#[trigger] order@[m]) < rows@.len(),
            out@.len() == k,
            forall|m: int| 0 <= m < k ==> (#[trigger] out@[m])@ == sorted_rows(all)[m],
        decreases order@.len() - k,
    {
        let from: usize = order[k];
        assert(from < rows@.len());
        assert(as_ints(order@)[k as int] == from);
        assert(all[from as int] == rows@[from as int]@);
        out.push(rows[from].clone());
        k = k + 1;
    }
    assert(trees(out@) =~= sorted_rows(all));
    Some(out)
}

} // verus!
