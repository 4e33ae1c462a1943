//! What a version is read as, and how builds are ordered.

use crate::text::{decimal, is_digit, text_less};
use crate::version_id::{
    build_less, core_of, key_of, release_less, release_of, suffix_at, without_v, Build,
};
use crate::version_matrix::{
    added, answered, appended_in, is_outcome, safe_ref, version_from, version_in_line,
    CommandOutcome, MatrixError, MatrixFault, Measured, VersionOutcome,
};
use crate::words::{
    bounded_value, joined, lemma_decimal_reads_back, lemma_joined_parts, parts_of, trimmed,
};
use crate::words_laws::law_number_is_read_from_its_digits;
use vstd::prelude::*;

verus! {

/// A build is known by its version and its commit, where the commit is known, and by
/// its version alone where it is empty or says that it is unknown.
pub proof fn law_build_is_named_by_version_and_commit(version: Seq<char>, sha: Seq<char>)
    ensures
        sha.len() > 0 && sha != "unknown"@ ==> key_of(version, sha) == version + "@"@ + sha,
        sha.len() == 0 || sha == "unknown"@ ==> key_of(version, sha) == version,
{
}

/// Releases are ordered by their first number that differs.
pub proof fn law_releases_are_ordered_by_number(a: (u64, u64, u64), b: (u64, u64, u64))
    ensures
        a.0 < b.0 ==> release_less(a, b),
        a.0 == b.0 && a.1 < b.1 ==> release_less(a, b),
        a.0 == b.0 && a.1 == b.1 ==> (release_less(a, b) <==> a.2 < b.2),
        a.0 == b.0 && a.1 > b.1 ==> !release_less(a, b),
        a.0 > b.0 ==> !release_less(a, b),
{
}

/// Builds are ordered by release, those of one release by when they were measured, and
/// those of one moment by name.
pub proof fn law_builds_are_ordered_by_release_time_and_name(a: Build, b: Build)
    ensures
        release_less(a.release, b.release) ==> build_less(a, b) && !build_less(b, a),
        a.release == b.release && text_less(a.timestamp, b.timestamp) ==> build_less(a, b),
        a.release == b.release && a.timestamp == b.timestamp ==> (build_less(a, b) <==> text_less(
            a.key,
            b.key,
        )),
        a.release == b.release && a.timestamp != b.timestamp && build_less(a, b) ==> text_less(
            a.timestamp,
            b.timestamp,
        ),
{
    crate::text::lemma_less_irreflexive(a.timestamp);
    crate::text::lemma_less_irreflexive(a.key);
}

/// What is left of a version without the letters before its numbers.
proof fn lemma_without_v(s: Seq<char>)
    requires
        s.len() > 0,
        s[0] != 'v',
    ensures
        without_v(s) == s,
        without_v(seq!['v'] + s) == s,
{
    let t = seq!['v'] + s;
    assert(t[0] == 'v');
    assert(t.skip(1) =~= s);
}

/// A suffix starts at the first sign of one.
proof fn lemma_suffix_at(s: Seq<char>, p: int, q: int)
    requires
        0 <= p <= q <= s.len(),
        forall|k: int| p <= k < q ==> #[trigger] s[k] != '-' && s[k] != '+',
        q < s.len() ==> s[q] == '-' || s[q] == '+',
    ensures
        suffix_at(s, p) == q,
    decreases q - p,
{
    if p < q {
        assert(s[p] != '-' && s[p] != '+');
        lemma_suffix_at(s, p + 1, q);
    }
}

/// Three numbers with points between them.
pub open spec fn dotted(a: u64, b: u64, c: u64) -> Seq<char> {
    decimal(a as nat) + "."@ + decimal(b as nat) + "."@ + decimal(c as nat)
}

/// A version is read as its three numbers, with or without a `v` before them, whatever
/// follows behind a `-` or a `+`.
pub proof fn law_version_is_read_as_its_numbers(a: u64, b: u64, c: u64, suffix: Seq<char>)
    requires
        suffix.len() > 0 ==> suffix[0] == '-' || suffix[0] == '+',
    ensures
        release_of(dotted(a, b, c) + suffix) == (a, b, c),
        release_of(seq!['v'] + (dotted(a, b, c) + suffix)) == (a, b, c),
{
    reveal_strlit(".");
    let core = dotted(a, b, c);
    let s = core + suffix;
    let (x, y, z) = (decimal(a as nat), decimal(b as nat), decimal(c as nat));
    lemma_decimal_reads_back(a as nat);
    lemma_decimal_reads_back(b as nat);
    lemma_decimal_reads_back(c as nat);
    assert(core == x + "."@ + y + "."@ + z);
    assert(is_digit(x[0]));
    assert(s[0] == x[0]);
    lemma_without_v(s);
    assert forall|k: int| 0 <= k < core.len() implies #[trigger] s[k] != '-' && s[k] != '+' by {
        let (p, q) = (x.len() as int, x.len() + 1 + y.len() as int);
        if k < p {
            assert(s[k] == x[k] && is_digit(x[k]));
        } else if p < k && k < q {
            assert(s[k] == y[k - p - 1] && is_digit(y[k - p - 1]));
        } else if k > q {
            assert(s[k] == z[k - q - 1] && is_digit(z[k - q - 1]));
        }
    }
    assert(suffix.len() > 0 ==> s[core.len() as int] == suffix[0]);
    lemma_suffix_at(s, 0, core.len() as int);
    assert(s.take(core.len() as int) =~= core);
    let parts = seq![x, y, z];
    assert(parts.drop_last() =~= seq![x, y]);
    assert(seq![x, y].drop_last() =~= seq![x]);
    assert(joined(seq![x], seq!['.']) == x);
    assert(joined(seq![x, y], seq!['.']) == x + seq!['.'] + y);
    assert(joined(parts, seq!['.']) == x + seq!['.'] + y + seq!['.'] + z);
    assert(core =~= joined(parts, seq!['.']));
    assert forall|i: int, k: int| 0 <= i < parts.len() && 0 <= k < parts[i].len() implies
        #[trigger] parts[i][k] != '.' by {
        if i == 0 {
            assert(is_digit(x[k]));
        } else if i == 1 {
            assert(is_digit(y[k]));
        } else {
            assert(is_digit(z[k]));
        }
    }
    lemma_joined_parts(parts, '.');
    law_number_is_read_from_its_digits(a as nat, x, u64::MAX as nat);
    law_number_is_read_from_its_digits(b as nat, y, u64::MAX as nat);
    law_number_is_read_from_its_digits(c as nat, z, u64::MAX as nat);
}

/// A version that does not have three parts comes after every one that does.
pub proof fn law_unreadable_version_comes_last(version: Seq<char>, other: (u64, u64, u64))
    ensures
        parts_of(core_of(version), '.').len() != 3 ==> !release_less(release_of(version), other),
        release_of(version) != (u64::MAX, u64::MAX, u64::MAX) ==> {
            let parts = parts_of(core_of(version), '.');
            &&& parts.len() == 3
            &&& bounded_value(parts[0], u64::MAX as nat) == Some(release_of(version).0 as nat)
            &&& bounded_value(parts[1], u64::MAX as nat) == Some(release_of(version).1 as nat)
            &&& bounded_value(parts[2], u64::MAX as nat) == Some(release_of(version).2 as nat)
        },
{
}

/// Lines outside of the package, or without a version, are passed over.
proof fn lemma_version_later(lines: Seq<Seq<char>>, i: int, j: int, inside: bool)
    requires
        0 <= i <= j <= lines.len(),
        forall|k: int|
            i <= k < j ==> {
                let line = trimmed(#[trigger] lines[k]);
                &&& !(line.len() > 0 && line[0] == '[')
                &&& inside ==> version_in_line(line) is None
            },
    ensures
        version_from(lines, i, inside) == version_from(lines, j, inside),
    decreases j - i,
{
    if i < j {
        lemma_version_later(lines, i + 1, j, inside);
    }
}

/// Sections other than the package are passed over.
proof fn lemma_no_package(lines: Seq<Seq<char>>, i: int, j: int)
    requires
        0 <= i <= j <= lines.len(),
        forall|k: int| i <= k < j ==> trimmed(#[trigger] lines[k]) != "[package]"@,
    ensures
        version_from(lines, i, false) == version_from(lines, j, false),
    decreases j - i,
{
    if i < j {
        assert(trimmed(lines[i]) != "[package]"@);
        lemma_no_package(lines, i + 1, j);
    }
}

/// The version of a manifest is that of the first line in its package section that
/// gives one: a version in a section before it is none of the package. Without such a
/// line it is unknown.
pub proof fn law_version_is_that_of_the_package(lines: Seq<Seq<char>>, header: int, at: int)
    requires
        0 <= header < at <= lines.len(),
        trimmed(lines[header]) == "[package]"@,
        forall|k: int| 0 <= k < header ==> trimmed(#[trigger] lines[k]) != "[package]"@,
        forall|k: int|
            header < k < at ==> {
                let line = trimmed(#[trigger] lines[k]);
                &&& !(line.len() > 0 && line[0] == '[')
                &&& version_in_line(line) is None
            },
    ensures
        at < lines.len() && version_in_line(trimmed(lines[at])) is Some && !(trimmed(lines[at]).len()
            > 0 && trimmed(lines[at])[0] == '[') ==> version_from(lines, 0, false)
            == version_in_line(trimmed(lines[at]))->0,
        at == lines.len() ==> version_from(lines, 0, false) == "unknown"@,
{
    reveal_strlit("[package]");
    assert("[package]"@.len() == 9 && "[package]"@[0] == '[');
    lemma_no_package(lines, 0, header);
    assert(version_from(lines, header, false) == version_from(lines, header + 1, true));
    lemma_version_later(lines, header + 1, at, true);
}

/// Without a package section nothing is known of the version.
pub proof fn law_no_package_no_version(lines: Seq<Seq<char>>)
    requires
        forall|k: int| 0 <= k < lines.len() ==> trimmed(#[trigger] lines[k]) != "[package]"@,
    ensures
        version_from(lines, 0, false) == "unknown"@,
{
    lemma_no_package(lines, 0, lines.len() as int);
}

/// A version that was measured is appended, under its ref, its version and its commit,
/// and one that was not is skipped with the reason; no version stops the others.
pub proof fn law_failed_version_is_skipped(
    outcome: VersionOutcome,
    refname: Seq<char>,
    result: Result<Measured, MatrixError>,
)
    requires
        is_outcome(outcome, refname, result),
    ensures
        result is Ok <==> outcome is Appended,
        result is Err <==> outcome is Skipped,
        outcome matches VersionOutcome::Appended { refname: name, version, short_sha, entries }
            ==> name@ == refname && version@ == (result->Ok_0).0@ && short_sha@ == (result->Ok_0).1@
            && entries == (result->Ok_0).2,
        outcome matches VersionOutcome::Skipped { refname: name, reason } ==> name@ == refname
            && reason@ == (match result->Err_0 {
            MatrixError::Git(m) => "git error: "@ + m@,
            MatrixError::Build(m) => "build error: "@ + m@,
            MatrixError::History(m) => "history error: "@ + m@,
        }),
{
}

/// A ref as part of a file name has its letters, digits, points, hyphens and
/// underscores where they were, and an underscore in every other place.
pub proof fn law_unsafe_characters_become_underscores(refname: Seq<char>, i: int)
    requires
        0 <= i < refname.len(),
    ensures
        safe_ref(refname).len() == refname.len(),
        ({
            let c = refname[i];
            safe_ref(refname)[i] == (if ('0' <= c && c <= '9') || ('a' <= c && c <= 'z') || ('A'
                <= c && c <= 'Z') || c == '.' || c == '-' || c == '_' {
                c
            } else {
                '_'
            })
        }),
{
}

/// A command has done its work exactly where it was started and ended well; what it
/// printed is then taken without the white space round it.
pub proof fn law_command_is_believed_iff_it_ended_well(
    repo: Seq<char>,
    refname: Seq<char>,
    args: Seq<Seq<char>>,
    outcome: CommandOutcome,
)
    ensures
        added(refname, repo, outcome) is None <==> (outcome matches CommandOutcome::Ended {
            success,
            stdout,
            stderr,
        } && success),
        answered(repo, args, outcome) is Ok <==> (outcome matches CommandOutcome::Ended {
            success,
            stdout,
            stderr,
        } && success),
        outcome matches CommandOutcome::Ended { success, stdout, stderr } ==> success ==> answered(
            repo,
            args,
            outcome,
        ) == Ok::<Seq<char>, MatrixFault>(trimmed(stdout@)),
        added(refname, repo, outcome) matches Some(fault) ==> fault is Git,
        answered(repo, args, outcome) matches Err(fault) ==> fault is Git,
{
}

/// A matrix has appended as many versions as came to an entry.
pub proof fn law_tally_counts_what_was_appended(outcomes: Seq<VersionOutcome>, n: int)
    requires
        0 <= n < outcomes.len(),
    ensures
        appended_in(outcomes, 0) == 0,
        outcomes[n] is Appended ==> appended_in(outcomes, n + 1) == appended_in(outcomes, n) + 1,
        outcomes[n] is Skipped ==> appended_in(outcomes, n + 1) == appended_in(outcomes, n),
{
}

} // verus!
