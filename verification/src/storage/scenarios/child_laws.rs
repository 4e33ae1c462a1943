//! What a child process is understood to have said.

use crate::storage::scenarios::first_lookup::{
    first_bad, lemma_run_end, lemma_run_end_is, parsed_line, parsed_spec, prefixed_line, rep_fault,
    run_end, words_from, ChildOutcome,
};
use crate::words::{bounded_value, is_float, is_white, parts_of};
use vstd::prelude::*;

verus! {

/// A run that starts behind a prefix.
proof fn lemma_run_behind(a: Seq<char>, b: Seq<char>, white_space: bool, p: int)
    requires
        0 <= p <= b.len(),
    ensures
        run_end(a + b, white_space, a.len() + p) == a.len() + run_end(b, white_space, p),
    decreases b.len() - p,
{
    if p < b.len() {
        assert((a + b)[a.len() + p] == b[p]);
        if is_white(b[p]) == white_space {
            lemma_run_behind(a, b, white_space, p + 1);
        }
    }
}

/// The words behind a prefix are those of the rest.
proof fn lemma_words_behind(a: Seq<char>, b: Seq<char>, p: int)
    requires
        0 <= p <= b.len(),
    ensures
        words_from(a + b, a.len() + p) == words_from(b, p),
    decreases b.len() - p,
{
    let start = run_end(b, true, p);
    lemma_run_end(b, true, p);
    lemma_run_end(b, false, start);
    lemma_run_behind(a, b, true, p);
    lemma_run_behind(a, b, false, start);
    let end = run_end(b, false, start);
    if start < end {
        lemma_words_behind(a, b, end);
        assert((a + b).subrange(a.len() + start, a.len() + end) =~= b.subrange(start, end));
    }
}

/// A line falls into its words at white space alone: a word stands for itself, white
/// space before it is passed over, and behind it the rest is read by itself.
pub proof fn law_words_end_at_white_space(word: Seq<char>, c: char, rest: Seq<char>)
    requires
        forall|i: int| 0 <= i < word.len() ==> !is_white(#[trigger] word[i]),
        is_white(c),
    ensures
        words_from(Seq::<char>::empty(), 0).len() == 0,
        words_from(seq![c] + rest, 0) == words_from(rest, 0),
        word.len() > 0 ==> words_from(word, 0) == seq![word],
        word.len() > 0 ==> words_from(word + seq![c] + rest, 0) == seq![word] + words_from(rest, 0),
{
    let one = seq![c] + rest;
    assert(one[0] == c);
    lemma_words_behind(seq![c], rest, 0);
    lemma_run_end(one, true, 1);
    assert(run_end(one, true, 0) == run_end(one, true, 1));
    assert(words_from(one, 0) == words_from(one, 1));
    if word.len() > 0 {
        let n = word.len() as int;
        lemma_run_end_is(word, true, 0, 0);
        lemma_run_end_is(word, false, 0, n);
        lemma_run_end_is(word, true, n, n);
        assert(words_from(word, n) =~= Seq::empty());
        assert(word.subrange(0, n) =~= word);
        assert(words_from(word, 0) =~= seq![word]);
        let all = word + seq![c] + rest;
        assert(all =~= word + one);
        assert forall|k: int| 0 <= k < n implies is_white(#[trigger] all[k]) == false by {
            assert(all[k] == word[k]);
        }
        assert(all[n] == c);
        lemma_run_end_is(all, true, 0, 0);
        lemma_run_end_is(all, false, 0, n);
        assert(all.subrange(0, n) =~= word);
        lemma_words_behind(word, one, 0);
    }
}

/// The first line that starts with a prefix.
proof fn lemma_prefixed(lines: Seq<Seq<char>>, prefix: Seq<char>, i: int)
    requires
        0 <= i <= lines.len(),
    ensures
        i <= prefixed_line(lines, prefix, i) <= lines.len(),
        forall|j: int|
            i <= j < prefixed_line(lines, prefix, i) ==> !((#[trigger] lines[j]).len()
                >= prefix.len() && lines[j].take(prefix.len() as int) == prefix),
        prefixed_line(lines, prefix, i) < lines.len() ==> {
            let line = lines[prefixed_line(lines, prefix, i)];
            line.len() >= prefix.len() && line.take(prefix.len() as int) == prefix
        },
    decreases lines.len() - i,
{
    if i < lines.len() {
        lemma_prefixed(lines, prefix, i + 1);
    }
}

/// A child is understood by the first line of its output that starts with
/// `K14-FIRST-LOOKUP`, and by no other: a process id, a time, and `1` where it hit.
/// Without such a line, or where it lacks one of these, nothing is understood.
pub proof fn law_child_is_understood_by_its_first_line(stdout: Seq<char>, i: int)
    requires
        0 <= i < parts_of(stdout, '\n').len(),
        parts_of(stdout, '\n')[i].len() >= 16,
        parts_of(stdout, '\n')[i].take(16) == "K14-FIRST-LOOKUP"@,
        forall|j: int|
            0 <= j < i ==> !((#[trigger] parts_of(stdout, '\n')[j]).len() >= 16 && parts_of(
                stdout,
                '\n',
            )[j].take(16) == "K14-FIRST-LOOKUP"@),
    ensures
        ({
            let words = words_from(parts_of(stdout, '\n')[i], 0);
            &&& parsed_line(stdout) is Some <==> words.len() >= 4 && is_float(words[2])
                && bounded_value(words[1], 0xffff_ffff) is Some
            &&& parsed_line(stdout) matches Some((pid, micros, hit)) ==> Some(pid) == bounded_value(
                words[1],
                0xffff_ffff,
            ) && micros == words[2] && (hit <==> words[3] == "1"@)
        }),
{
    reveal_strlit("K14-FIRST-LOOKUP");
    let lines = parts_of(stdout, '\n');
    let prefix = "K14-FIRST-LOOKUP"@;
    lemma_prefixed(lines, prefix, 0);
    let k = prefixed_line(lines, prefix, 0);
    if k < i {
        assert(lines[k].len() >= 16 && lines[k].take(16) == prefix);
    } else if k > i {
        assert(!(lines[i].len() >= prefix.len() && lines[i].take(prefix.len() as int) == prefix));
    }
}

/// Without a line that starts with `K14-FIRST-LOOKUP` nothing is understood.
pub proof fn law_silent_child_is_not_understood(stdout: Seq<char>)
    requires
        forall|j: int|
            0 <= j < parts_of(stdout, '\n').len() ==> !((#[trigger] parts_of(stdout, '\n')[j]).len()
                >= 16 && parts_of(stdout, '\n')[j].take(16) == "K14-FIRST-LOOKUP"@),
    ensures
        parsed_line(stdout) is None,
{
    reveal_strlit("K14-FIRST-LOOKUP");
    let lines = parts_of(stdout, '\n');
    let prefix = "K14-FIRST-LOOKUP"@;
    lemma_prefixed(lines, prefix, 0);
    let k = prefixed_line(lines, prefix, 0);
    if k < lines.len() {
        assert(lines[k].len() >= 16 && lines[k].take(16) == prefix);
    }
}

/// A task is a path and three numbers, with tabs between them, and nothing else is one.
pub proof fn law_task_is_a_path_and_three_numbers(text: Seq<char>)
    ensures
        ({
            let parts = parts_of(text, '\t');
            &&& parsed_spec(text) is Some <==> parts.len() == 4 && bounded_value(
                parts[1],
                0xffff_ffff,
            ) is Some && bounded_value(parts[2], 0xffff_ffff) is Some && bounded_value(
                parts[3],
                0xffff_ffff,
            ) is Some
            &&& parsed_spec(text) matches Some((path, coord)) ==> path == parts[0] && Some(
                coord.level as nat,
            ) == bounded_value(parts[1], 0xffff_ffff) && Some(coord.col as nat) == bounded_value(
                parts[2],
                0xffff_ffff,
            ) && Some(coord.row as nat) == bounded_value(parts[3], 0xffff_ffff)
        }),
{
}

/// The children of a cell are a measurement exactly where every one of them ended and
/// was understood; the first that was not is the reason.
pub proof fn law_first_child_that_failed_decides(outcomes: Seq<ChildOutcome>, i: int, k: int)
    requires
        0 <= i <= outcomes.len(),
    ensures
        first_bad(outcomes, i) >= outcomes.len() <==> forall|j: int|
            i <= j < outcomes.len() ==> {
                &&& (#[trigger] outcomes[j]) is Ended
                &&& parsed_line(outcomes[j]->stdout@) is Some
            },
        i <= k < outcomes.len() && (outcomes[k] is NotSpawned || parsed_line(
            outcomes[k]->stdout@,
        ) is None) && (forall|j: int|
            i <= j < k ==> {
                &&& (#[trigger] outcomes[j]) is Ended
                &&& parsed_line(outcomes[j]->stdout@) is Some
            }) ==> first_bad(outcomes, i) == k,
        rep_fault(i as nat, outcomes[k]) is None <==> outcomes[k] is Ended && parsed_line(
            outcomes[k]->stdout@,
        ) is Some,
    decreases outcomes.len() - i,
{
    if i < outcomes.len() {
        law_first_child_that_failed_decides(outcomes, i + 1, k);
        if first_bad(outcomes, i) >= outcomes.len() {
            assert(rep_fault(i as nat, outcomes[i]) is None);
            assert forall|j: int| i <= j < outcomes.len() implies {
                &&& (#[trigger] outcomes[j]) is Ended
                &&& parsed_line(outcomes[j]->stdout@) is Some
            } by {}
        }
        if forall|j: int|
            i <= j < outcomes.len() ==> {
                &&& (#[trigger] outcomes[j]) is Ended
                &&& parsed_line(outcomes[j]->stdout@) is Some
            } {
            assert(outcomes[i] is Ended);
        }
        if i < k < outcomes.len() && (forall|j: int|
            i <= j < k ==> {
                &&& (#[trigger] outcomes[j]) is Ended
                &&& parsed_line(outcomes[j]->stdout@) is Some
            }) {
            assert(outcomes[i] is Ended);
        }
    }
}

} // verus!
