//! One lookup, in a process that has never opened the archive before.
//!
//! The evidence that a repetition is a process of its own is the child's own
//! pid, printed by the child.

use crate::storage::plan::TileCoord;
use crate::text::{chars_of, concat3, decimal, decimal_text, is_digit, strings};
use crate::words::{
    bounded_value, has_prefix, is_float, is_white, lemma_decimal_reads_back, lemma_float_is_a_word,
    parse_u32, parts_from, parts_of, spells_float, split_text, starts_with, white,
};
use vstd::prelude::*;

verus! {

/// The environment variable a child reads to learn what to measure.
pub const CHILD_VAR: &'static str = "LIBVIPRS_STORAGE_FIRST_LOOKUP";

/// The prefix a child puts on the one line the parent reads back.
pub const CHILD_LINE_PREFIX: &'static str = "K14-FIRST-LOOKUP";

/// What a child should measure: an archive and a coordinate, with a tab between
/// each two parts.
pub open spec fn spec_text(archive: Seq<char>, coord: TileCoord) -> Seq<char> {
    archive + "\t"@ + decimal(coord.level as nat) + "\t"@ + decimal(coord.col as nat) + "\t"@
        + decimal(coord.row as nat)
}

/// Spell out what a child should measure.
pub fn child_spec(archive: &str, coord: TileCoord) -> (out: String)
    ensures
        out@ == spec_text(archive@, coord),
{
    let mut out: String = concat3(archive, "\t", decimal_text(coord.level as u128).as_str());
    out.append("\t");
    out.append(decimal_text(coord.col as u128).as_str());
    out.append("\t");
    out.append(decimal_text(coord.row as u128).as_str());
    out
}

/// What a spec asks for: four parts, of which the last three are numbers.
pub open spec fn parsed_spec(text: Seq<char>) -> Option<(Seq<char>, TileCoord)> {
    let parts = parts_of(text, '\t');
    if parts.len() != 4 {
        None
    } else {
        match (
            bounded_value(parts[1], u32::MAX as nat),
            bounded_value(parts[2], u32::MAX as nat),
            bounded_value(parts[3], u32::MAX as nat),
        ) {
            (Some(level), Some(col), Some(row)) => Some(
                (parts[0], TileCoord { level: level as u32, col: col as u32, row: row as u32 }),
            ),
            _ => None,
        }
    }
}

/// The number that a part of a spec spells.
fn part_number(part: &String) -> (n: Option<u32>)
    ensures
        n is Some <==> bounded_value(part@, u32::MAX as nat) is Some,
        n is Some ==> n->0 == bounded_value(part@, u32::MAX as nat)->0,
{
    let chars: Vec<char> = chars_of(part.as_str());
    parse_u32(chars.as_slice())
}

/// Read a spec back.
pub fn parse_child_spec(spec: &str) -> (got: Option<(String, TileCoord)>)
    ensures
        got is Some <==> parsed_spec(spec@) is Some,
        got is Some ==> (got->0).0@ == (parsed_spec(spec@)->0).0 && (got->0).1 == (parsed_spec(
            spec@,
        )->0).1,
{
    let chars: Vec<char> = chars_of(spec);
    let parts: Vec<String> = split_text(chars.as_slice(), '\t');
    let ghost names = parts_of(spec@, '\t');
    assert(strings(parts@).len() == parts@.len());
    if parts.len() != 4 {
        return None;
    }
    assert(parts@[0]@ == names[0] && parts@[1]@ == names[1] && parts@[2]@ == names[2]
        && parts@[3]@ == names[3]);
    match (part_number(&parts[1]), part_number(&parts[2]), part_number(&parts[3])) {
        (Some(level), Some(col), Some(row)) => Some(
            (parts[0].clone(), TileCoord { level, col, row }),
        ),
        _ => None,
    }
}

/// A text without tabs, followed by a tab, is the first part.
proof fn lemma_first_part(s: Seq<char>, p: int, front: Seq<char>)
    requires
        0 <= p,
        p + front.len() < s.len(),
        s.subrange(p, p + front.len()) == front,
        s[p + front.len()] == '\t',
        forall|i: int| 0 <= i < front.len() ==> #[trigger] front[i] != '\t',
    ensures
        parts_from(s, '\t', p) == seq![front] + parts_from(s, '\t', p + front.len() + 1),
{
    assert forall|k: int| p <= k < p + front.len() implies #[trigger] s[k] != '\t' by {
        assert(s.subrange(p, p + front.len())[k - p] == s[k]);
        assert(front[k - p] != '\t');
    }
    crate::words::lemma_index_is(s, '\t', p, p + front.len());
}

/// A text without tabs, at the end, is the last part.
proof fn lemma_last_part(s: Seq<char>, p: int)
    requires
        0 <= p <= s.len(),
        forall|k: int| p <= k < s.len() ==> #[trigger] s[k] != '\t',
    ensures
        parts_from(s, '\t', p) == seq![s.subrange(p, s.len() as int)],
{
    crate::words::lemma_index_is(s, '\t', p, s.len() as int);
}

/// What a child is asked to measure reads back, for an archive whose path holds
/// no tab.
pub proof fn law_child_spec_reads_back(archive: Seq<char>, coord: TileCoord)
    requires
        forall|i: int| 0 <= i < archive.len() ==> #[trigger] archive[i] != '\t',
    ensures
        parsed_spec(spec_text(archive, coord)) == Some((archive, coord)),
{
    reveal_strlit("\t");
    let s = spec_text(archive, coord);
    let (l, c, r) = (
        decimal(coord.level as nat),
        decimal(coord.col as nat),
        decimal(coord.row as nat),
    );
    lemma_decimal_reads_back(coord.level as nat);
    lemma_decimal_reads_back(coord.col as nat);
    lemma_decimal_reads_back(coord.row as nat);
    let (a, b, d) = (
        archive.len() as int,
        archive.len() + 1 + l.len() as int,
        archive.len() + 1 + l.len() + 1 + c.len() as int,
    );
    assert(s.subrange(0, a) =~= archive);
    assert(s.subrange(a + 1, b) =~= l);
    assert(s.subrange(b + 1, d) =~= c);
    assert(s.subrange(d + 1, s.len() as int) =~= r);
    assert forall|i: int| 0 <= i < l.len() implies #[trigger] l[i] != '\t' by {
        assert(is_digit(l[i]));
    }
    assert forall|i: int| 0 <= i < c.len() implies #[trigger] c[i] != '\t' by {
        assert(is_digit(c[i]));
    }
    assert forall|k: int| d + 1 <= k < s.len() implies #[trigger] s[k] != '\t' by {
        assert(s[k] == r[k - d - 1]);
        assert(is_digit(r[k - d - 1]));
    }
    lemma_first_part(s, 0, archive);
    lemma_first_part(s, a + 1, l);
    lemma_first_part(s, b + 1, c);
    lemma_last_part(s, d + 1);
    let parts = parts_of(s, '\t');
    assert(parts =~= seq![archive, l, c, r]);
}

/// What a child said of itself: its process id, the microseconds it measured, as
/// the text it printed, and whether its lookup found a tile.
#[derive(Debug)]
pub struct RepLine {
    pub pid: u32,
    pub micros: String,
    pub hit: bool,
}

/// The end of the run of characters from `p` on that are white space, or are
/// not.
pub open spec fn run_end(s: Seq<char>, white_space: bool, p: int) -> int
    decreases s.len() - p,
{
    if 0 <= p < s.len() && is_white(s[p]) == white_space {
        run_end(s, white_space, p + 1)
    } else {
        p
    }
}

/// The words of a text from `p` on, with white space between them.
pub open spec fn words_from(s: Seq<char>, p: int) -> Seq<Seq<char>>
    decreases s.len() - p,
{
    let start = run_end(s, true, p);
    let end = run_end(s, false, start);
    if p <= start < end <= s.len() {
        seq![s.subrange(start, end)] + words_from(s, end)
    } else {
        Seq::empty()
    }
}

/// The end of a run stays within the text.
pub(crate) proof fn lemma_run_end(s: Seq<char>, white_space: bool, p: int)
    requires
        0 <= p <= s.len(),
    ensures
        p <= run_end(s, white_space, p) <= s.len(),
        run_end(s, white_space, p) < s.len() ==> is_white(s[run_end(s, white_space, p)])
            != white_space,
    decreases s.len() - p,
{
    if p < s.len() && is_white(s[p]) == white_space {
        lemma_run_end(s, white_space, p + 1);
    }
}

/// The end of a run.
fn find_run_end(s: &[char], white_space: bool, p: usize) -> (q: usize)
    requires
        p <= s@.len(),
    ensures
        q == run_end(s@, white_space, p as int),
        p <= q <= s@.len(),
{
    let mut q: usize = p;
    while q < s.len() && white(s[q]) == white_space
        invariant
            p <= q <= s@.len(),
            run_end(s@, white_space, p as int) == run_end(s@, white_space, q as int),
        decreases s@.len() - q,
    {
        q = q + 1;
    }
    q
}

/// The words of a text.
pub fn split_words(s: &[char]) -> (out: Vec<String>)
    ensures
        strings(out@) == words_from(s@, 0),
{
    let mut out: Vec<String> = Vec::new();
    let mut p: usize = 0;
    assert(strings(out@) + words_from(s@, 0) =~= words_from(s@, 0));
    loop
        invariant
            p <= s@.len(),
            strings(out@) + words_from(s@, p as int) == words_from(s@, 0),
        decreases s@.len() - p,
    {
        let start: usize = find_run_end(s, true, p);
        let end: usize = find_run_end(s, false, start);
        let ghost before = strings(out@);
        if start == end {
            proof {
                lemma_run_end(s@, true, p as int);
                assert(before + words_from(s@, p as int) =~= before);
            }
            return out;
        }
        let word: String = crate::text::text_between(s, start, end);
        out.push(word);
        proof {
            assert(strings(out@) =~= before.push(word@));
            assert(strings(out@) + words_from(s@, end as int) =~= before + words_from(
                s@,
                p as int,
            ));
        }
        p = end;
    }
}

/// The first line from the line `i` on that starts with the prefix, or the
/// number of lines.
pub open spec fn prefixed_line(lines: Seq<Seq<char>>, prefix: Seq<char>, i: int) -> int
    decreases lines.len() - i,
{
    if 0 <= i < lines.len() && !has_prefix(lines[i], prefix) {
        prefixed_line(lines, prefix, i + 1)
    } else {
        i
    }
}

/// What the line of a child says: a word for the prefix, then a pid, a number of
/// microseconds and a one for a hit. A pid or a number that is none makes it no
/// line.
pub open spec fn parsed_line(stdout: Seq<char>) -> Option<(nat, Seq<char>, bool)> {
    let lines = parts_of(stdout, '\n');
    let i = prefixed_line(lines, CHILD_LINE_PREFIX@, 0);
    if i >= lines.len() {
        None
    } else {
        let words = words_from(lines[i], 0);
        if words.len() < 4 || !is_float(words[2]) {
            None
        } else {
            match bounded_value(words[1], u32::MAX as nat) {
                Some(pid) => Some((pid, words[2], words[3] == "1"@)),
                None => None,
            }
        }
    }
}

/// The line of a child: the prefix, its pid, the microseconds it measured and a
/// one for a hit.
pub open spec fn line_text(pid: u32, micros: Seq<char>, hit: bool) -> Seq<char> {
    CHILD_LINE_PREFIX@ + " "@ + decimal(pid as nat) + " "@ + micros + " "@ + (if hit {
        "1"@
    } else {
        "0"@
    })
}

/// What a child prints of itself.
pub fn child_line(pid: u32, micros: &str, hit: bool) -> (out: String)
    ensures
        out@ == line_text(pid, micros@, hit),
{
    let mut out: String = concat3(CHILD_LINE_PREFIX, " ", decimal_text(pid as u128).as_str());
    out.append(" ");
    out.append(micros);
    out.append(" ");
    out.append(
        if hit {
            "1"
        } else {
            "0"
        },
    );
    out
}

/// Read a child's line back out of its stdout.
pub fn parse_child_line(stdout: &str) -> (got: Option<RepLine>)
    ensures
        got is Some <==> parsed_line(stdout@) is Some,
        got is Some ==> got->0.pid == (parsed_line(stdout@)->0).0 && got->0.micros@ == (parsed_line(
            stdout@,
        )->0).1 && got->0.hit == (parsed_line(stdout@)->0).2,
{
    let chars: Vec<char> = chars_of(stdout);
    let lines: Vec<String> = split_text(chars.as_slice(), '\n');
    let ghost model = parts_of(stdout@, '\n');
    let prefix: Vec<char> = chars_of(CHILD_LINE_PREFIX);
    let mut i: usize = 0;
    while i < lines.len()
        invariant
            i <= lines@.len(),
            strings(lines@) == model,
            model == parts_of(stdout@, '\n'),
            prefix@ == CHILD_LINE_PREFIX@,
            prefixed_line(model, CHILD_LINE_PREFIX@, 0) == prefixed_line(
                model,
                CHILD_LINE_PREFIX@,
                i as int,
            ),
        decreases lines@.len() - i,
    {
        let line: Vec<char> = chars_of(lines[i].as_str());
        assert(lines@[i as int]@ == model[i as int]);
        if starts_with(line.as_slice(), prefix.as_slice()) {
            let words: Vec<String> = split_words(line.as_slice());
            assert(strings(words@).len() == words@.len());
            if words.len() < 4 {
                return None;
            }
            assert(words@[1]@ == strings(words@)[1] && words@[2]@ == strings(words@)[2]
                && words@[3]@ == strings(words@)[3]);
            if !spells_float(words[2].as_str()) {
                return None;
            }
            return match part_number(&words[1]) {
                Some(pid) => Some(
                    RepLine {
                        pid,
                        micros: words[2].clone(),
                        hit: crate::text::same_text(words[3].as_str(), "1"),
                    },
                ),
                None => None,
            };
        }
        i = i + 1;
    }
    None
}

/// How many distinct processes a set of repetitions ran in.
pub fn distinct_pids(pids: &[u32]) -> (n: usize)
    ensures
        n == pids@.to_set().len(),
{
    let mut n: usize = 0;
    let mut i: usize = 0;
    proof {
        assert(pids@.take(0).to_set() =~= Set::<u32>::empty());
    }
    while i < pids.len()
        invariant
            i <= pids@.len(),
            n <= i,
            n == pids@.take(i as int).to_set().len(),
        decreases pids@.len() - i,
    {
        let pid: u32 = pids[i];
        let mut seen = false;
        let mut k: usize = 0;
        while k < i
            invariant
                k <= i < pids@.len(),
                seen == (exists|j: int| 0 <= j < k && pids@[j] == pid),
            decreases i - k,
        {
            if pids[k] == pid {
                seen = true;
            }
            k = k + 1;
        }
        proof {
            let before = pids@.take(i as int);
            let after = pids@.take(i + 1);
            assert(after =~= before.push(pid));
            vstd::seq_lib::seq_to_set_is_finite(before);
            assert(after.to_set() =~= before.to_set().insert(pid)) by {
                assert forall|x: u32| after.to_set().contains(x) <==> before.to_set().insert(
                    pid,
                ).contains(x) by {
                    if after.contains(x) {
                        let j = choose|j: int| 0 <= j < after.len() && after[j] == x;
                        if j < before.len() {
                            assert(before[j] == x);
                        }
                    }
                    if before.contains(x) {
                        let j = choose|j: int| 0 <= j < before.len() && before[j] == x;
                        assert(after[j] == x);
                    }
                    assert(after[before.len() as int] == pid);
                }
            }
            assert(seen == before.to_set().contains(pid)) by {
                if seen {
                    let j = choose|j: int| 0 <= j < i && pids@[j] == pid;
                    assert(before[j] == pid);
                }
                if before.contains(pid) {
                    let j = choose|j: int| 0 <= j < before.len() && before[j] == pid;
                    assert(pids@[j] == pid);
                }
            }
        }
        if !seen {
            n = n + 1;
        }
        i = i + 1;
    }
    assert(pids@.take(i as int) =~= pids@);
    n
}

/// Why a repetition gave no line.
pub open spec fn no_line_text(rep: nat, status: Seq<char>, stderr: Seq<char>) -> Seq<char> {
    "repetition "@ + decimal(rep) + " printed no `"@ + CHILD_LINE_PREFIX@ + "` line; status "@
        + status + ", stderr: "@ + stderr
}

/// What one repetition's process came to.
#[derive(Debug)]
pub enum ChildOutcome {
    /// It did not start, in these words.
    NotSpawned(String),
    /// It ended, with this status and these outputs.
    Ended { stdout: String, status: String, stderr: String },
}

/// What is wrong with a repetition, if anything is.
pub open spec fn rep_fault(rep: nat, outcome: ChildOutcome) -> Option<Seq<char>> {
    match outcome {
        ChildOutcome::NotSpawned(e) => Some(
            "repetition "@ + decimal(rep) + " could not be spawned: "@ + e@,
        ),
        ChildOutcome::Ended { stdout, status, stderr } => if parsed_line(stdout@) is None {
            Some(no_line_text(rep, status@, stderr@))
        } else {
            None
        },
    }
}

/// The first repetition from `i` on that something is wrong with, or their
/// number.
pub open spec fn first_bad(outcomes: Seq<ChildOutcome>, i: int) -> int
    decreases outcomes.len() - i,
{
    if 0 <= i < outcomes.len() && rep_fault(i as nat, outcomes[i]) is None {
        first_bad(outcomes, i + 1)
    } else {
        i
    }
}

/// Whether a line is the one that a repetition printed.
pub open spec fn is_line_of(line: RepLine, outcome: ChildOutcome) -> bool {
    outcome matches ChildOutcome::Ended { stdout, status, stderr } && parsed_line(stdout@) == Some(
        (line.pid as nat, line.micros@, line.hit),
    )
}

/// The lines of the repetitions, each of which is a process of its own. The
/// first one that something is wrong with decides.
pub fn run(outcomes: &Vec<ChildOutcome>) -> (got: Result<Vec<RepLine>, String>)
    ensures
        got is Ok <==> first_bad(outcomes@, 0) >= outcomes@.len(),
        got is Ok ==> got->Ok_0@.len() == outcomes@.len(),
        got is Ok ==> forall|i: int|
            0 <= i < outcomes@.len() ==> is_line_of(#[trigger] got->Ok_0@[i], outcomes@[i]),
        got is Err ==> Some(got->Err_0@) == rep_fault(
            first_bad(outcomes@, 0) as nat,
            outcomes@[first_bad(outcomes@, 0)],
        ),
{
    let mut lines: Vec<RepLine> = Vec::new();
    let mut i: usize = 0;
    while i < outcomes.len()
        invariant
            i <= outcomes@.len(),
            first_bad(outcomes@, 0) == first_bad(outcomes@, i as int),
            lines@.len() == i,
            forall|k: int| 0 <= k < i ==> is_line_of(#[trigger] lines@[k], outcomes@[k]),
        decreases outcomes@.len() - i,
    {
        match &outcomes[i] {
            ChildOutcome::NotSpawned(e) => {
                let mut text: String = concat3(
                    "repetition ",
                    decimal_text(i as u128).as_str(),
                    " could not be spawned: ",
                );
                text.append(e.as_str());
                return Err(text);
            },
            ChildOutcome::Ended { stdout, status, stderr } => match parse_child_line(
                stdout.as_str(),
            ) {
                Some(line) => {
                    lines.push(line);
                },
                None => {
                    let mut text: String = concat3(
                        "repetition ",
                        decimal_text(i as u128).as_str(),
                        " printed no `",
                    );
                    text.append(CHILD_LINE_PREFIX);
                    text.append("` line; status ");
                    text.append(status.as_str());
                    text.append(", stderr: ");
                    text.append(stderr.as_str());
                    return Err(text);
                },
            },
        }
        i = i + 1;
    }
    Ok(lines)
}

/// Where a run ends, where that is known.
pub(crate) proof fn lemma_run_end_is(s: Seq<char>, white_space: bool, p: int, q: int)
    requires
        0 <= p <= q <= s.len(),
        forall|k: int| p <= k < q ==> is_white(#[trigger] s[k]) == white_space,
        q < s.len() ==> is_white(s[q]) != white_space,
    ensures
        run_end(s, white_space, p) == q,
    decreases q - p,
{
    if p < q {
        assert(is_white(s[p]) == white_space);
        lemma_run_end_is(s, white_space, p + 1, q);
    }
}

/// A word, and what follows it behind a space.
proof fn lemma_first_word(s: Seq<char>, p: int, word: Seq<char>)
    requires
        0 <= p,
        p + word.len() < s.len(),
        s.subrange(p, p + word.len()) == word,
        word.len() > 0,
        forall|i: int| 0 <= i < word.len() ==> !is_white(#[trigger] word[i]),
        s[p + word.len()] == ' ',
    ensures
        words_from(s, p) == seq![word] + words_from(s, p + word.len() + 1),
{
    let end = p + word.len();
    assert forall|k: int| p <= k < end implies is_white(#[trigger] s[k]) == false by {
        assert(s.subrange(p, end)[k - p] == s[k]);
        assert(!is_white(word[k - p]));
    }
    lemma_run_end_is(s, true, p, p);
    lemma_run_end_is(s, false, p, end);
    lemma_run_end(s, true, end + 1);
    assert(run_end(s, true, end) == run_end(s, true, end + 1));
    assert(words_from(s, end) == words_from(s, end + 1));
}

/// A word at the end.
proof fn lemma_last_word(s: Seq<char>, p: int)
    requires
        0 <= p < s.len(),
        forall|k: int| p <= k < s.len() ==> !is_white(#[trigger] s[k]),
    ensures
        words_from(s, p) == seq![s.subrange(p, s.len() as int)],
{
    let n = s.len() as int;
    lemma_run_end_is(s, true, p, p);
    lemma_run_end_is(s, false, p, n);
    lemma_run_end_is(s, true, n, n);
    assert(words_from(s, n) =~= Seq::empty());
    assert(words_from(s, p) =~= seq![s.subrange(p, n)]);
}

/// What a child prints reads back, whatever number of microseconds it measured.
pub proof fn law_child_line_reads_back(pid: u32, micros: Seq<char>, hit: bool)
    requires
        is_float(micros),
    ensures
        parsed_line(line_text(pid, micros, hit) + "\n"@) == Some((pid as nat, micros, hit)),
{
    reveal_strlit("K14-FIRST-LOOKUP");
    reveal_strlit(" ");
    reveal_strlit("\n");
    reveal_strlit("0");
    reveal_strlit("1");
    let line = line_text(pid, micros, hit);
    let stdout = line + "\n"@;
    let head = CHILD_LINE_PREFIX@;
    let number = decimal(pid as nat);
    let flag = if hit {
        "1"@
    } else {
        "0"@
    };
    lemma_decimal_reads_back(pid as nat);
    lemma_float_is_a_word(micros);
    let a = head.len() as int;
    let b = a + 1 + number.len();
    let c = b + 1 + micros.len();
    assert(line.len() == c + 2);
    assert(line.subrange(0, a) =~= head);
    assert(line.subrange(a + 1, b) =~= number);
    assert(line.subrange(b + 1, c) =~= micros);
    assert(line.subrange(c + 1, c + 2) =~= flag);
    assert(line[a] == ' ' && line[b] == ' ' && line[c] == ' ');
    assert forall|i: int| 0 <= i < number.len() implies !is_white(#[trigger] number[i]) by {
        assert(is_digit(number[i]));
    }
    lemma_first_word(line, 0, head);
    lemma_first_word(line, a + 1, number);
    lemma_first_word(line, b + 1, micros);
    lemma_last_word(line, c + 1);
    let words = words_from(line, 0);
    assert(words =~= seq![head, number, micros, flag]);
    assert forall|k: int| 0 <= k < line.len() implies #[trigger] stdout[k] != '\n' by {
        assert(stdout[k] == line[k]);
        if k < a {
            assert(line[k] == head[k]);
        } else if a < k && k < b {
            assert(line[k] == number[k - a - 1]);
            assert(is_digit(number[k - a - 1]));
        } else if b < k && k < c {
            assert(line[k] == micros[k - b - 1]);
            assert(!is_white(micros[k - b - 1]));
        }
    }
    crate::words::lemma_index_is(stdout, '\n', 0, line.len() as int);
    assert(stdout.subrange(0, line.len() as int) =~= line);
    let lines = parts_of(stdout, '\n');
    assert(lines[0] == line);
    assert(line.take(a) =~= head);
    assert(prefixed_line(lines, head, 0) == 0);
}

} // verus!
