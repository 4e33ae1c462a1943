//! Version identity and release order.
//!
//! A snapshot's column is named `version@short_sha`, so that two builds of one
//! version at different commits stay distinct, and columns stand in release
//! order: `0.10.0` after `0.9.0`.

use crate::text::{
    chars_of, concat3, is_less, lemma_less_asymmetric, lemma_less_irreflexive, lemma_less_total,
    lemma_less_transitive, lists, same_text, strings, text_less,
};
use crate::words::{bounded_value, parse_u64, parts_of, split_text};
use vstd::prelude::*;

verus! {

/// What identifies the build that a snapshot of the history measured.
#[derive(Debug)]
pub struct BenchmarkSnapshot {
    pub version: String,
    /// The short commit, empty or `unknown` in the oldest history.
    pub git_sha: String,
    /// The time it was taken, as RFC 3339 writes it.
    pub timestamp: String,
}

/// Whether a commit says anything.
pub open spec fn is_known(git_sha: Seq<char>) -> bool {
    git_sha.len() > 0 && git_sha != "unknown"@
}

/// The name of a build: its version, and its commit where that is known.
pub open spec fn key_of(version: Seq<char>, git_sha: Seq<char>) -> Seq<char> {
    if is_known(git_sha) {
        version + "@"@ + git_sha
    } else {
        version
    }
}

/// The name of a build: `version@short_sha`, or the bare version where the
/// commit is not known.
pub fn version_key(version: &str, git_sha: &str) -> (out: String)
    ensures
        out@ == key_of(version@, git_sha@),
{
    if chars_of(git_sha).len() == 0 || same_text(git_sha, "unknown") {
        version.to_owned()
    } else {
        concat3(version, "@", git_sha)
    }
}

/// Two builds of one version at different known commits have different names,
/// and neither has the bare version's.
pub proof fn law_builds_stay_distinct(version: Seq<char>, a: Seq<char>, b: Seq<char>)
    requires
        is_known(a),
        a != b,
    ensures
        key_of(version, a) != key_of(version, b),
{
    reveal_strlit("@");
    let n = version.len() + 1;
    assert(key_of(version, a).skip(n as int) =~= a);
    if is_known(b) {
        assert(key_of(version, b).skip(n as int) =~= b);
    } else {
        assert(key_of(version, b).len() < n);
    }
}

/// A text without the `v`s it starts with.
pub open spec fn without_v(s: Seq<char>) -> Seq<char>
    decreases s.len(),
{
    if s.len() > 0 && s[0] == 'v' {
        without_v(s.skip(1))
    } else {
        s
    }
}

/// The first place from `p` on where a pre-release or build suffix starts, or
/// the length of the text.
pub open spec fn suffix_at(s: Seq<char>, p: int) -> int
    decreases s.len() - p,
{
    if 0 <= p < s.len() && s[p] != '-' && s[p] != '+' {
        suffix_at(s, p + 1)
    } else {
        p
    }
}

/// The part of a version that is numbered.
pub open spec fn core_of(version: Seq<char>) -> Seq<char> {
    without_v(version).take(suffix_at(without_v(version), 0))
}

/// The release that a version names: three numbers with dots between them. What
/// is anything else comes after every release.
pub open spec fn release_of(version: Seq<char>) -> (u64, u64, u64) {
    let parts = parts_of(core_of(version), '.');
    if parts.len() == 3 && bounded_value(parts[0], u64::MAX as nat) is Some && bounded_value(
        parts[1],
        u64::MAX as nat,
    ) is Some && bounded_value(parts[2], u64::MAX as nat) is Some {
        (
            bounded_value(parts[0], u64::MAX as nat)->0 as u64,
            bounded_value(parts[1], u64::MAX as nat)->0 as u64,
            bounded_value(parts[2], u64::MAX as nat)->0 as u64,
        )
    } else {
        (u64::MAX, u64::MAX, u64::MAX)
    }
}

/// The numbered part of a version.
fn numbered(version: &str) -> (out: Vec<char>)
    ensures
        out@ == core_of(version@),
{
    let chars: Vec<char> = chars_of(version);
    let mut from: usize = 0;
    assert(chars@.skip(0) =~= chars@);
    while from < chars.len() && chars[from] == 'v'
        invariant
            from <= chars@.len(),
            without_v(chars@) == without_v(chars@.skip(from as int)),
        decreases chars@.len() - from,
    {
        assert(chars@.skip(from as int).skip(1) =~= chars@.skip(from + 1));
        from = from + 1;
    }
    let ghost s = chars@.skip(from as int);
    let mut out: Vec<char> = Vec::new();
    let mut i: usize = from;
    while i < chars.len() && chars[i] != '-' && chars[i] != '+'
        invariant
            from <= i <= chars@.len(),
            s == chars@.skip(from as int),
            suffix_at(s, 0) == suffix_at(s, i - from),
            out@ == s.take(i - from),
        decreases chars@.len() - i,
    {
        out.push(chars[i]);
        i = i + 1;
        assert(out@ =~= s.take(i - from));
    }
    out
}

/// The release that a version names, as a key that orders by number. A leading
/// `v` and a pre-release or build suffix are not read. What is not three
/// integers comes last.
pub fn semver_sort_key(version: &str) -> (key: (u64, u64, u64))
    ensures
        key == release_of(version@),
{
    let numbered: Vec<char> = numbered(version);
    let parts: Vec<String> = split_text(numbered.as_slice(), '.');
    let ghost model = parts_of(core_of(version@), '.');
    assert(strings(parts@) == model);
    assert(parts@.len() == model.len());
    if parts.len() == 3 {
        assert(model[0] == parts@[0]@ && model[1] == parts@[1]@ && model[2] == parts@[2]@);
        let a: Vec<char> = chars_of(parts[0].as_str());
        let b: Vec<char> = chars_of(parts[1].as_str());
        let c: Vec<char> = chars_of(parts[2].as_str());
        if let Some(major) = parse_u64(a.as_slice()) {
            if let Some(minor) = parse_u64(b.as_slice()) {
                if let Some(patch) = parse_u64(c.as_slice()) {
                    return (major, minor, patch);
                }
            }
        }
    }
    (u64::MAX, u64::MAX, u64::MAX)
}

/// A build in the history: its name, its release and when it was measured.
pub struct Build {
    pub key: Seq<char>,
    pub release: (u64, u64, u64),
    pub timestamp: Seq<char>,
}

/// The build that a snapshot measured.
pub open spec fn build_of(s: BenchmarkSnapshot) -> Build {
    Build {
        key: key_of(s.version@, s.git_sha@),
        release: release_of(s.version@),
        timestamp: s.timestamp@,
    }
}

/// The builds of a history.
pub open spec fn builds_of(history: Seq<BenchmarkSnapshot>) -> Seq<Build> {
    Seq::new(history.len(), |i: int| build_of(history[i]))
}

/// Whether a release comes before another.
pub open spec fn release_less(a: (u64, u64, u64), b: (u64, u64, u64)) -> bool {
    a.0 < b.0 || (a.0 == b.0 && (a.1 < b.1 || (a.1 == b.1 && a.2 < b.2)))
}

/// Whether a build comes before another: by release, then by the time it was
/// measured, then by name.
pub open spec fn build_less(a: Build, b: Build) -> bool {
    release_less(a.release, b.release) || (a.release == b.release && (text_less(
        a.timestamp,
        b.timestamp,
    ) || (a.timestamp == b.timestamp && text_less(a.key, b.key))))
}

/// Whether a build does not come after another.
pub open spec fn no_newer() -> spec_fn(Build, Build) -> bool {
    |a: Build, b: Build| !build_less(b, a)
}

/// Builds are totally ordered.
proof fn lemma_builds_ordered()
    ensures
        vstd::relations::total_ordering(no_newer()),
{
    let leq = no_newer();
    assert forall|a: Build| #[trigger] leq(a, a) by {
        lemma_less_irreflexive(a.timestamp);
        lemma_less_irreflexive(a.key);
    }
    assert forall|a: Build, b: Build| #[trigger] leq(a, b) && #[trigger] leq(b, a) implies a
        == b by {
        lemma_less_total(a.timestamp, b.timestamp);
        lemma_less_total(a.key, b.key);
    }
    assert forall|a: Build, b: Build, c: Build| #[trigger]
        leq(a, b) && #[trigger] leq(b, c) implies leq(a, c) by {
        lemma_build_transitive(a, b, c);
    }
    assert forall|a: Build, b: Build| #[trigger] leq(a, b) || #[trigger] leq(b, a) by {
        lemma_less_asymmetric(a.timestamp, b.timestamp);
        lemma_less_asymmetric(a.key, b.key);
        lemma_less_irreflexive(a.timestamp);
    }
}

/// Not coming after is transitive.
proof fn lemma_build_transitive(a: Build, b: Build, c: Build)
    requires
        !build_less(b, a),
        !build_less(c, b),
    ensures
        !build_less(c, a),
{
    lemma_less_total(a.timestamp, b.timestamp);
    lemma_less_total(b.timestamp, c.timestamp);
    lemma_less_total(a.key, b.key);
    lemma_less_total(b.key, c.key);
    lemma_less_irreflexive(a.timestamp);
    lemma_less_irreflexive(a.key);
    if text_less(a.timestamp, b.timestamp) && text_less(b.timestamp, c.timestamp) {
        lemma_less_transitive(a.timestamp, b.timestamp, c.timestamp);
    }
    if text_less(a.key, b.key) && text_less(b.key, c.key) {
        lemma_less_transitive(a.key, b.key, c.key);
    }
    lemma_less_asymmetric(a.timestamp, c.timestamp);
    lemma_less_asymmetric(a.key, c.key);
}

/// The names of the first `n` builds, each where it first stands.
pub open spec fn first_keys(builds: Seq<Build>, n: int) -> Seq<Seq<char>>
    decreases n,
{
    if n <= 0 {
        Seq::empty()
    } else {
        let before = first_keys(builds, n - 1);
        if before.contains(builds[n - 1].key) {
            before
        } else {
            before.push(builds[n - 1].key)
        }
    }
}

/// The builds of a history in release order.
pub open spec fn in_order(history: Seq<BenchmarkSnapshot>) -> Seq<Build> {
    builds_of(history).sort_by(no_newer())
}

/// The columns of a history.
pub open spec fn columns_of(history: Seq<BenchmarkSnapshot>) -> Seq<Seq<char>> {
    first_keys(in_order(history), in_order(history).len() as int)
}

/// A build, while the history is sorted.
#[derive(Debug)]
struct Column {
    key: String,
    release: (u64, u64, u64),
    timestamp: String,
}

spec fn column_build(c: Column) -> Build {
    Build { key: c.key@, release: c.release, timestamp: c.timestamp@ }
}

spec fn column_builds(v: Seq<Column>) -> Seq<Build> {
    Seq::new(v.len(), |i: int| column_build(v[i]))
}

/// Whether a build comes before another.
fn comes_before(a: &Column, b: &Column) -> (yes: bool)
    ensures
        yes == build_less(column_build(*a), column_build(*b)),
{
    if a.release.0 != b.release.0 {
        return a.release.0 < b.release.0;
    }
    if a.release.1 != b.release.1 {
        return a.release.1 < b.release.1;
    }
    if a.release.2 != b.release.2 {
        return a.release.2 < b.release.2;
    }
    let (at, bt): (Vec<char>, Vec<char>) = (
        chars_of(a.timestamp.as_str()),
        chars_of(b.timestamp.as_str()),
    );
    if is_less(at.as_slice(), bt.as_slice()) {
        return true;
    }
    if !same_text(a.timestamp.as_str(), b.timestamp.as_str()) {
        return false;
    }
    let (ak, bk): (Vec<char>, Vec<char>) = (chars_of(a.key.as_str()), chars_of(b.key.as_str()));
    is_less(ak.as_slice(), bk.as_slice())
}

/// The builds of a history in release order.
fn sorted_columns(history: &Vec<BenchmarkSnapshot>) -> (out: Vec<Column>)
    ensures
        column_builds(out@) == in_order(history@),
{
    let ghost all = builds_of(history@);
    let ghost leq = no_newer();
    let mut out: Vec<Column> = Vec::new();
    let mut i: usize = 0;
    proof {
        lemma_builds_ordered();
        assert(column_builds(out@) =~= all.take(0));
    }
    while i < history.len()
        invariant
            i <= history@.len(),
            all == builds_of(history@),
            leq == no_newer(),
            vstd::relations::total_ordering(leq),
            vstd::relations::sorted_by(column_builds(out@), leq),
            column_builds(out@).to_multiset() == all.take(i as int).to_multiset(),
        decreases history@.len() - i,
    {
        let s: &BenchmarkSnapshot = &history[i];
        let column = Column {
            key: version_key(s.version.as_str(), s.git_sha.as_str()),
            release: semver_sort_key(s.version.as_str()),
            timestamp: s.timestamp.clone(),
        };
        let ghost build = column_build(column);
        assert(build == all[i as int]);
        let ghost before = out@;
        let mut at: usize = out.len();
        while at > 0 && comes_before(&column, &out[at - 1])
            invariant
                at <= out@.len(),
                out@ == before,
                build == column_build(column),
                forall|k: int|
                    at <= k < out@.len() ==> build_less(build, column_build(#[trigger] out@[k])),
            decreases at,
        {
            at = at - 1;
        }
        proof {
            lemma_inserted_in_order(column_builds(before), build, at as int);
        }
        out.insert(at, column);
        proof {
            broadcast use vstd::seq_lib::group_to_multiset_ensures;

            assert(column_builds(out@) =~= column_builds(before).insert(at as int, build));
            assert(all.take(i + 1) =~= all.take(i as int).push(build));
        }
        i = i + 1;
    }
    proof {
        assert(all.take(i as int) =~= all);
        all.lemma_sort_by_ensures(leq);
        vstd::seq_lib::lemma_sorted_unique(column_builds(out@), all.sort_by(leq), leq);
    }
    out
}

/// A build put before exactly those that come after it keeps the order.
proof fn lemma_inserted_in_order(builds: Seq<Build>, build: Build, at: int)
    requires
        vstd::relations::sorted_by(builds, no_newer()),
        0 <= at <= builds.len(),
        forall|k: int| at <= k < builds.len() ==> build_less(build, #[trigger] builds[k]),
        at > 0 ==> !build_less(build, builds[at - 1]),
    ensures
        vstd::relations::sorted_by(builds.insert(at, build), no_newer()),
        builds.insert(at, build).to_multiset() == builds.to_multiset().insert(build),
{
    let leq = no_newer();
    let out = builds.insert(at, build);
    lemma_builds_ordered();
    assert forall|i: int, j: int| 0 <= i < j < out.len() implies #[trigger] leq(out[i], out[j]) by {
        if i < at && j < at {
            assert(leq(builds[i], builds[j]));
        } else if i < at && j == at {
            if i < at - 1 {
                assert(leq(builds[i], builds[at - 1]));
                lemma_build_transitive(builds[i], builds[at - 1], build);
            }
        } else if i < at {
            assert(leq(builds[i], builds[j - 1]));
        } else if i == at {
            assert(build_less(build, builds[j - 1]));
            assert(leq(build, builds[j - 1]) || leq(builds[j - 1], build));
        } else {
            assert(leq(builds[i - 1], builds[j - 1]));
        }
    }
    broadcast use vstd::seq_lib::group_to_multiset_ensures;

}

/// The names of a history's builds, each once, in release order; builds of one
/// release stand in the order they were measured, and what names no release
/// stands last.
pub fn ordered_version_keys(history: &Vec<BenchmarkSnapshot>) -> (out: Vec<String>)
    ensures
        strings(out@) == columns_of(history@),
{
    let columns: Vec<Column> = sorted_columns(history);
    let ghost builds = in_order(history@);
    let mut out: Vec<String> = Vec::new();
    let mut i: usize = 0;
    assert(strings(out@) =~= first_keys(builds, 0));
    while i < columns.len()
        invariant
            i <= columns@.len(),
            column_builds(columns@) == builds,
            strings(out@) == first_keys(builds, i as int),
        decreases columns@.len() - i,
    {
        let ghost before = strings(out@);
        assert(builds[i as int] == column_build(columns@[i as int]));
        if !lists(&out, columns[i].key.as_str()) {
            out.push(columns[i].key.clone());
            assert(strings(out@) =~= before.push(columns@[i as int].key@));
        }
        i = i + 1;
    }
    assert(column_builds(columns@).len() == columns@.len());
    out
}

/// Each name stands once, and the names are those of the builds.
proof fn lemma_first_keys(builds: Seq<Build>, n: int)
    requires
        0 <= n <= builds.len(),
    ensures
        first_keys(builds, n).no_duplicates(),
        forall|key: Seq<char>| #[trigger]
            first_keys(builds, n).contains(key) <==> exists|k: int|
                0 <= k < n && (#[trigger] builds[k]).key == key,
    decreases n,
{
    if n > 0 {
        lemma_first_keys(builds, n - 1);
        let before = first_keys(builds, n - 1);
        let now = first_keys(builds, n);
        let last = builds[n - 1].key;
        assert forall|key: Seq<char>| #[trigger] now.contains(key) <==> exists|k: int|
            0 <= k < n && (#[trigger] builds[k]).key == key by {
            if now.contains(key) && !before.contains(key) {
                assert(key == last);
                assert(builds[n - 1].key == key);
            }
            if before.contains(key) {
                let k = choose|k: int| 0 <= k < before.len() && before[k] == key;
                assert(now[k] == key);
            }
            if key == last {
                if !before.contains(last) {
                    assert(now[before.len() as int] == key);
                }
            }
        }
    }
}

/// A history's columns are the names of its builds, each once.
pub proof fn law_each_build_has_one_column(history: Seq<BenchmarkSnapshot>, key: Seq<char>)
    ensures
        columns_of(history).no_duplicates(),
        columns_of(history).contains(key) <==> exists|i: int|
            0 <= i < history.len() && key_of(
                (#[trigger] history[i]).version@,
                history[i].git_sha@,
            ) == key,
{
    let builds = builds_of(history);
    let sorted = in_order(history);
    lemma_sorted_same(history);
    lemma_first_keys(sorted, sorted.len() as int);
    if columns_of(history).contains(key) {
        let k = choose|k: int| 0 <= k < sorted.len() && (#[trigger] sorted[k]).key == key;
        assert(sorted.contains(sorted[k]));
        let i = choose|i: int| 0 <= i < builds.len() && builds[i] == sorted[k];
        assert(key_of(history[i].version@, history[i].git_sha@) == key);
    }
    if exists|i: int|
        0 <= i < history.len() && key_of((#[trigger] history[i]).version@, history[i].git_sha@)
            == key {
        let i = choose|i: int|
            0 <= i < history.len() && key_of(
                (#[trigger] history[i]).version@,
                history[i].git_sha@,
            ) == key;
        assert(builds.contains(builds[i]));
        let k = choose|k: int| 0 <= k < sorted.len() && sorted[k] == builds[i];
        assert(sorted[k].key == key);
    }
}

/// Sorting a history loses no build and adds none.
proof fn lemma_sorted_same(history: Seq<BenchmarkSnapshot>)
    ensures
        forall|b: Build|
            #![trigger in_order(history).contains(b)]
            #![trigger builds_of(history).contains(b)]
            in_order(history).contains(b) <==> builds_of(history).contains(b),
        vstd::relations::sorted_by(in_order(history), no_newer()),
        in_order(history).len() == history.len(),
{
    broadcast use vstd::seq_lib::group_to_multiset_ensures;

    let builds = builds_of(history);
    lemma_builds_ordered();
    builds.lemma_sort_by_ensures(no_newer());
    let sorted = in_order(history);
    assert(sorted.len() == sorted.to_multiset().len() && builds.len()
        == builds.to_multiset().len());
    assert forall|b: Build|
        #![trigger sorted.contains(b)]
        #![trigger builds.contains(b)]
        sorted.contains(b) <==> builds.contains(b) by {
        assert(builds.to_multiset().count(b) == sorted.to_multiset().count(b));
    }
}

/// The place of a name among the first ones is that of its earliest build.
proof fn lemma_earliest(builds: Seq<Build>, n: int, c: int, d: int)
    requires
        0 <= n <= builds.len(),
        vstd::relations::sorted_by(builds, no_newer()),
        0 <= c < d < first_keys(builds, n).len(),
    ensures
        exists|k: int|
            0 <= k < n && (#[trigger] builds[k]).key == first_keys(builds, n)[c] && forall|m: int|
                0 <= m < builds.len() && (#[trigger] builds[m]).key == first_keys(builds, n)[d]
                    ==> !build_less(builds[m], builds[k]),
    decreases n,
{
    let now = first_keys(builds, n);
    let before = first_keys(builds, n - 1);
    lemma_first_keys(builds, n);
    lemma_first_keys(builds, n - 1);
    if d < before.len() {
        assert(now[c] == before[c] && now[d] == before[d]);
        lemma_earliest(builds, n - 1, c, d);
    } else {
        assert(now[c] == before[c]);
        assert(before.contains(before[c]));
        let k = choose|k: int| 0 <= k < n - 1 && (#[trigger] builds[k]).key == before[c];
        assert forall|m: int|
            0 <= m < builds.len() && (#[trigger] builds[m]).key == now[d] implies !build_less(
            builds[m],
            builds[k],
        ) by {
            if m < n - 1 {
                assert(before.contains(now[d]));
            }
            assert(no_newer()(builds[k], builds[m]));
        }
        assert(builds[k].key == now[c]);
    }
}

/// A column stands before another where it has a build that none of the
/// other's builds comes before: by release, then by time, then by name.
pub proof fn law_columns_stand_in_release_order(
    history: Seq<BenchmarkSnapshot>,
    c: int,
    d: int,
)
    requires
        0 <= c < d < columns_of(history).len(),
    ensures
        exists|i: int|
            0 <= i < history.len() && build_of(#[trigger] history[i]).key == columns_of(history)[c]
                && forall|j: int|
                0 <= j < history.len() && build_of(#[trigger] history[j]).key == columns_of(
                    history,
                )[d] ==> !build_less(build_of(history[j]), build_of(history[i])),
{
    let builds = builds_of(history);
    let sorted = in_order(history);
    let columns = columns_of(history);
    lemma_sorted_same(history);
    lemma_earliest(sorted, sorted.len() as int, c, d);
    let k = choose|k: int|
        0 <= k < sorted.len() && (#[trigger] sorted[k]).key == columns[c] && forall|m: int|
            0 <= m < sorted.len() && (#[trigger] sorted[m]).key == columns[d] ==> !build_less(
                sorted[m],
                sorted[k],
            );
    assert(sorted.contains(sorted[k]));
    let i = choose|i: int| 0 <= i < builds.len() && builds[i] == sorted[k];
    assert(build_of(history[i]).key == columns[c]);
    assert forall|j: int|
        0 <= j < history.len() && build_of(#[trigger] history[j]).key
            == columns[d] implies !build_less(build_of(history[j]), build_of(history[i])) by {
        assert(builds.contains(builds[j]));
        let m = choose|m: int| 0 <= m < sorted.len() && sorted[m] == builds[j];
        assert(sorted[m].key == columns[d]);
    }
}

} // verus!
