//! A run over a series of releases: what is checked out, built, measured and
//! recorded, and what a version that cannot be is answered with.
//!
//! No version's failure ends the run. It is a skip with a reason, and the rest
//! of the series goes on.

pub use crate::version_id::{
    ordered_version_keys, semver_sort_key, version_key, BenchmarkSnapshot,
};

use crate::storage::artefacts::{inside, path_inside};
use crate::text::{
    chars_of, concat2, concat3, debug_str, debug_str_text, decimal, decimal_text, same_text,
    strings, text_between,
};
use crate::words::{
    alnum, bounded_value, has_prefix, is_alnum, join, joined, parse_u32, parts_of, split_text,
    starts_with, trim, trimmed, trimmed_front, white,
};
use vstd::prelude::*;

verus! {

/// The binary that is rebuilt for each version and measures each cell.
pub const HARNESS_BIN: &'static str = "report";

/// Anything that can go wrong resolving, building or recording one version.
#[derive(Debug)]
pub enum MatrixError {
    /// A `git` invocation failed.
    Git(String),
    /// The build failed or produced no binary.
    Build(String),
    /// The history could not be loaded, and was left alone.
    History(String),
}

/// A [`MatrixError`], as text.
pub enum MatrixFault {
    Git(Seq<char>),
    Build(Seq<char>),
    History(Seq<char>),
}

impl View for MatrixError {
    type V = MatrixFault;

    open spec fn view(&self) -> MatrixFault {
        match self {
            MatrixError::Git(m) => MatrixFault::Git(m@),
            MatrixError::Build(m) => MatrixFault::Build(m@),
            MatrixError::History(m) => MatrixFault::History(m@),
        }
    }
}

/// What went wrong, in words.
pub open spec fn fault_text(e: MatrixFault) -> Seq<char> {
    match e {
        MatrixFault::Git(m) => "git error: "@ + m,
        MatrixFault::Build(m) => "build error: "@ + m,
        MatrixFault::History(m) => "history error: "@ + m,
    }
}

impl MatrixError {
    /// What went wrong, in words.
    pub fn message(&self) -> (out: String)
        ensures
            out@ == fault_text(self@),
    {
        match self {
            MatrixError::Git(m) => concat2("git error: ", m.as_str()),
            MatrixError::Build(m) => concat2("build error: ", m.as_str()),
            MatrixError::History(m) => concat2("history error: ", m.as_str()),
        }
    }
}

/// Whether a character may stand in the name of a worktree.
pub open spec fn is_safe(c: char) -> bool {
    is_alnum(c) || c == '.' || c == '-' || c == '_'
}

/// A ref as a part of a file name: what is not safe in one becomes `_`, and
/// nothing becomes `ref`.
pub open spec fn safe_ref(refname: Seq<char>) -> Seq<char> {
    if refname.len() == 0 {
        "ref"@
    } else {
        Seq::new(
            refname.len(),
            |i: int|
                if is_safe(refname[i]) {
                    refname[i]
                } else {
                    '_'
                },
        )
    }
}

/// A ref as a part of a file name.
pub fn sanitize_ref(refname: &str) -> (out: String)
    ensures
        out@ == safe_ref(refname@),
{
    let chars: Vec<char> = chars_of(refname);
    if chars.len() == 0 {
        return "ref".to_owned();
    }
    let mut out: String = String::new();
    let mut i: usize = 0;
    while i < chars.len()
        invariant
            i <= chars@.len(),
            chars@ == refname@,
            chars@.len() > 0,
            out@ == safe_ref(refname@).take(i as int),
        decreases chars@.len() - i,
    {
        let c: char = chars[i];
        let safe: char = if alnum(c) || c == '.' || c == '-' || c == '_' {
            c
        } else {
            '_'
        };
        out.push(safe);
        i = i + 1;
        assert(out@ =~= safe_ref(refname@).take(i as int));
    }
    assert(safe_ref(refname@).take(i as int) =~= safe_ref(refname@));
    out
}

/// A ref always becomes a file name: it is not empty, every character of it is
/// safe, and one that was safe is kept.
pub proof fn law_safe_ref_is_a_file_name(refname: Seq<char>)
    ensures
        safe_ref(refname).len() > 0,
        forall|i: int| 0 <= i < safe_ref(refname).len() ==> is_safe(#[trigger] safe_ref(refname)[i]),
        refname.len() > 0 && (forall|i: int|
            0 <= i < refname.len() ==> is_safe(#[trigger] refname[i])) ==> safe_ref(refname)
            == refname,
{
    reveal_strlit("ref");
    if refname.len() > 0 && (forall|i: int|
        0 <= i < refname.len() ==> is_safe(#[trigger] refname[i])) {
        assert(safe_ref(refname) =~= refname);
    }
}

/// The directory name of a worktree: the ref, the process and the instant.
pub fn worktree_name(refname: &str, pid: u32, nanos: u128) -> (out: String)
    ensures
        out@ == safe_ref(refname@) + "-"@ + decimal(pid as nat) + "-"@ + decimal(nanos as nat),
{
    let mut out: String = concat3(
        sanitize_ref(refname).as_str(),
        "-",
        decimal_text(pid as u128).as_str(),
    );
    out.append("-");
    out.append(decimal_text(nanos).as_str());
    out
}

/// What became of a command: it did not start, or it ended.
#[derive(Debug)]
pub enum CommandOutcome {
    /// It did not start, in these words.
    NotSpawned(String),
    /// It ended, with what it printed.
    Ended { success: bool, stdout: String, stderr: String },
}

/// What became of `git worktree add`.
pub open spec fn added(refname: Seq<char>, repo: Seq<char>, outcome: CommandOutcome) -> Option<
    MatrixFault,
> {
    match outcome {
        CommandOutcome::NotSpawned(e) => Some(
            MatrixFault::Git("failed to spawn git worktree add: "@ + e@),
        ),
        CommandOutcome::Ended { success, stdout: _, stderr } => if success {
            None
        } else {
            Some(
                MatrixFault::Git(
                    "git worktree add "@ + refname + " in "@ + repo + " failed: "@ + trimmed(
                        stderr@,
                    ),
                ),
            )
        },
    }
}

/// What became of `git worktree add`. A ref that does not resolve is an error,
/// never a panic.
pub fn worktree_added(refname: &str, repo: &str, outcome: &CommandOutcome) -> (got: Result<
    (),
    MatrixError,
>)
    ensures
        got is Ok <==> added(refname@, repo@, *outcome) is None,
        got is Err ==> got->Err_0@ == added(refname@, repo@, *outcome)->0,
{
    match outcome {
        CommandOutcome::NotSpawned(e) => Err(
            MatrixError::Git(concat2("failed to spawn git worktree add: ", e.as_str())),
        ),
        CommandOutcome::Ended { success, stdout: _, stderr } => {
            if *success {
                return Ok(());
            }
            let chars: Vec<char> = chars_of(stderr.as_str());
            let mut text: String = concat3("git worktree add ", refname, " in ");
            text.append(repo);
            text.append(" failed: ");
            text.append(trim(chars.as_slice()).as_str());
            Err(MatrixError::Git(text))
        },
    }
}

/// A list of texts as it is shown for inspection.
pub open spec fn shown_list(args: Seq<Seq<char>>) -> Seq<char> {
    "["@ + joined(Seq::new(args.len(), |i: int| debug_str_text(args[i])), ", "@) + "]"@
}

/// A list of texts as it is shown for inspection.
fn show_list(args: &Vec<String>) -> (out: String)
    ensures
        out@ == shown_list(strings(args@)),
{
    let ghost shown = Seq::new(strings(args@).len(), |i: int| debug_str_text(strings(args@)[i]));
    let mut items: Vec<String> = Vec::new();
    let mut i: usize = 0;
    while i < args.len()
        invariant
            i <= args@.len(),
            items@.len() == i,
            forall|k: int| 0 <= k < i ==> (#[trigger] items@[k])@ == debug_str_text(args@[k]@),
        decreases args@.len() - i,
    {
        items.push(debug_str(args[i].as_str()));
        i = i + 1;
    }
    assert(strings(items@) =~= shown);
    concat3("[", join(&items, ", ").as_str(), "]")
}

/// What a `git` command answered.
pub open spec fn answered(repo: Seq<char>, args: Seq<Seq<char>>, outcome: CommandOutcome) -> Result<
    Seq<char>,
    MatrixFault,
> {
    match outcome {
        CommandOutcome::NotSpawned(e) => Err(
            MatrixFault::Git("failed to spawn git "@ + shown_list(args) + ": "@ + e@),
        ),
        CommandOutcome::Ended { success, stdout, stderr } => if success {
            Ok(trimmed(stdout@))
        } else {
            Err(
                MatrixFault::Git(
                    "git "@ + shown_list(args) + " in "@ + repo + " failed: "@ + trimmed(stderr@),
                ),
            )
        },
    }
}

/// What a `git` command answered, without the white space around it.
pub fn git_stdout(repo: &str, args: &Vec<String>, outcome: &CommandOutcome) -> (got: Result<
    String,
    MatrixError,
>)
    ensures
        match got {
            Ok(text) => answered(repo@, strings(args@), *outcome) == Ok::<Seq<char>, MatrixFault>(
                text@,
            ),
            Err(e) => answered(repo@, strings(args@), *outcome) == Err::<Seq<char>, MatrixFault>(e@),
        },
{
    match outcome {
        CommandOutcome::NotSpawned(e) => {
            let mut text: String = concat3("failed to spawn git ", show_list(args).as_str(), ": ");
            text.append(e.as_str());
            Err(MatrixError::Git(text))
        },
        CommandOutcome::Ended { success, stdout, stderr } => {
            if *success {
                let chars: Vec<char> = chars_of(stdout.as_str());
                return Ok(trim(chars.as_slice()));
            }
            let chars: Vec<char> = chars_of(stderr.as_str());
            let mut text: String = concat3("git ", show_list(args).as_str(), " in ");
            text.append(repo);
            text.append(" failed: ");
            text.append(trim(chars.as_slice()).as_str());
            Err(MatrixError::Git(text))
        },
    }
}

/// A text without the quotes it starts with.
pub open spec fn unquoted_front(s: Seq<char>) -> Seq<char>
    decreases s.len(),
{
    if s.len() > 0 && s[0] == '"' {
        unquoted_front(s.skip(1))
    } else {
        s
    }
}

/// A text without the quotes it ends with.
pub open spec fn unquoted_back(s: Seq<char>) -> Seq<char>
    decreases s.len(),
{
    if s.len() > 0 && s.last() == '"' {
        unquoted_back(s.drop_last())
    } else {
        s
    }
}

/// A text without the quotes around it.
fn unquote(s: &[char]) -> (out: String)
    ensures
        out@ == unquoted_back(unquoted_front(s@)),
{
    let mut a: usize = 0;
    assert(s@.skip(0) =~= s@);
    while a < s.len() && s[a] == '"'
        invariant
            a <= s@.len(),
            unquoted_front(s@) == unquoted_front(s@.skip(a as int)),
        decreases s@.len() - a,
    {
        assert(s@.skip(a as int).skip(1) =~= s@.skip(a + 1));
        a = a + 1;
    }
    let mut b: usize = s.len();
    assert(s@.subrange(a as int, b as int) =~= s@.skip(a as int));
    while b > a && s[b - 1] == '"'
        invariant
            a <= b <= s@.len(),
            unquoted_back(unquoted_front(s@)) == unquoted_back(s@.subrange(a as int, b as int)),
        decreases b,
    {
        assert(s@.subrange(a as int, b as int).drop_last() =~= s@.subrange(a as int, b - 1));
        b = b - 1;
    }
    text_between(s, a, b)
}

/// What a line of a `[package]` table says the version is, if it does.
pub open spec fn version_in_line(line: Seq<char>) -> Option<Seq<char>> {
    if has_prefix(line, "version"@) {
        let rest = trimmed_front(line.skip("version"@.len() as int));
        if rest.len() > 0 && rest[0] == '=' {
            Some(unquoted_back(unquoted_front(trimmed(rest.skip(1)))))
        } else {
            None
        }
    } else {
        None
    }
}

/// The version that the lines of a manifest give the package, from the `i`-th
/// on.
pub open spec fn version_from(lines: Seq<Seq<char>>, i: int, in_package: bool) -> Seq<char>
    decreases lines.len() - i,
{
    if 0 <= i < lines.len() {
        let line = trimmed(lines[i]);
        if line.len() > 0 && line[0] == '[' {
            version_from(lines, i + 1, line == "[package]"@)
        } else if in_package && version_in_line(line) is Some {
            version_in_line(line)->0
        } else {
            version_from(lines, i + 1, in_package)
        }
    } else {
        "unknown"@
    }
}

/// What a line of a `[package]` table says the version is.
fn line_version(line: &[char]) -> (got: Option<String>)
    ensures
        got is Some <==> version_in_line(line@) is Some,
        got is Some ==> got->0@ == version_in_line(line@)->0,
{
    let word: Vec<char> = chars_of("version");
    if !starts_with(line, word.as_slice()) {
        return None;
    }
    let ghost rest = line@.skip("version"@.len() as int);
    let mut a: usize = word.len();
    assert(line@.skip(a as int) =~= rest);
    while a < line.len() && white(line[a])
        invariant
            a <= line@.len(),
            trimmed_front(rest) == trimmed_front(line@.skip(a as int)),
        decreases line@.len() - a,
    {
        assert(line@.skip(a as int)[0] == line@[a as int]);
        assert(line@.skip(a as int).skip(1) =~= line@.skip(a + 1));
        a = a + 1;
    }
    assert(trimmed_front(rest) == line@.skip(a as int));
    if a < line.len() && line[a] == '=' {
        let mut tail: Vec<char> = Vec::new();
        let mut k: usize = a + 1;
        while k < line.len()
            invariant
                a < k <= line@.len(),
                tail@ == line@.subrange(a + 1, k as int),
            decreases line@.len() - k,
        {
            tail.push(line[k]);
            k = k + 1;
            assert(tail@ =~= line@.subrange(a + 1, k as int));
        }
        assert(tail@ =~= line@.skip(a as int).skip(1));
        let value: String = trim(tail.as_slice());
        let chars: Vec<char> = chars_of(value.as_str());
        Some(unquote(chars.as_slice()))
    } else {
        None
    }
}

/// The `[package] version` of a manifest, or `unknown` where it has none or
/// could not be read.
pub fn read_package_version(manifest: Option<&str>) -> (out: String)
    ensures
        out@ == (match manifest {
            Some(text) => version_from(parts_of(text@, '\n'), 0, false),
            None => "unknown"@,
        }),
{
    let text: &str = match manifest {
        Some(text) => text,
        None => {
            return "unknown".to_owned();
        },
    };
    let chars: Vec<char> = chars_of(text);
    let lines: Vec<String> = split_text(chars.as_slice(), '\n');
    let ghost model = parts_of(text@, '\n');
    assert(strings(lines@) == model);
    assert(strings(lines@).len() == lines@.len());
    let mut in_package = false;
    let mut i: usize = 0;
    while i < lines.len()
        invariant
            i <= lines@.len(),
            manifest is Some,
            manifest->0@ == text@,
            model == parts_of(text@, '\n'),
            strings(lines@) == model,
            version_from(model, 0, false) == version_from(model, i as int, in_package),
        decreases lines@.len() - i,
    {
        assert(model[i as int] == lines@[i as int]@);
        let raw: Vec<char> = chars_of(lines[i].as_str());
        let line: String = trim(raw.as_slice());
        let chars: Vec<char> = chars_of(line.as_str());
        if chars.len() > 0 && chars[0] == '[' {
            in_package = same_text(line.as_str(), "[package]");
        } else if in_package {
            if let Some(version) = line_version(chars.as_slice()) {
                return version;
            }
        }
        i = i + 1;
    }
    "unknown".to_owned()
}

/// A throwaway worktree of the measured crate, at one ref.
#[derive(Debug)]
pub struct CoreWorktree {
    pub path: String,
    /// The ref that was asked for.
    pub refname: String,
    /// The commit that the ref resolved to.
    pub short_sha: String,
    /// The version that its manifest gives, or `unknown`.
    pub version: String,
    /// The repository that the worktree was cut from.
    pub repo: String,
    /// Whether its removal was begun.
    pub removed: bool,
}

impl CoreWorktree {
    /// The worktree that was added at `path`, from the commit that `git`
    /// answered and the manifest that was found there.
    pub fn resolved(
        repo: &str,
        refname: &str,
        path: &str,
        short_sha: Result<String, MatrixError>,
        manifest: Option<&str>,
    ) -> (got: Result<CoreWorktree, MatrixError>)
        ensures
            got is Ok <==> short_sha is Ok,
            got is Err ==> got->Err_0 == short_sha->Err_0,
            got is Ok ==> ({
                let tree = got->Ok_0;
                &&& tree.path@ == path@
                &&& tree.refname@ == refname@
                &&& tree.short_sha@ == short_sha->Ok_0@
                &&& tree.version@ == (match manifest {
                    Some(text) => version_from(parts_of(text@, '\n'), 0, false),
                    None => "unknown"@,
                })
                &&& tree.repo@ == repo@
                &&& !tree.removed
            }),
    {
        match short_sha {
            Err(e) => Err(e),
            Ok(sha) => Ok(
                CoreWorktree {
                    path: path.to_owned(),
                    refname: refname.to_owned(),
                    short_sha: sha,
                    version: read_package_version(manifest),
                    repo: repo.to_owned(),
                    removed: false,
                },
            ),
        }
    }

    /// Begin the removal. Whether there is anything to do: a worktree is removed
    /// once.
    pub fn remove(&mut self) -> (begun: bool)
        ensures
            begun == !old(self).removed,
            final(self).removed,
            final(self).path == old(self).path,
            final(self).refname == old(self).refname,
            final(self).short_sha == old(self).short_sha,
            final(self).version == old(self).version,
            final(self).repo == old(self).repo,
    {
        if self.removed {
            return false;
        }
        self.removed = true;
        true
    }
}

/// What became of `git worktree remove`.
pub fn worktree_removed(outcome: &CommandOutcome) -> (got: Result<(), MatrixError>)
    ensures
        match *outcome {
            CommandOutcome::NotSpawned(e) => got is Err && got->Err_0@ == MatrixFault::Git(
                "failed to spawn git worktree remove: "@ + e@,
            ),
            CommandOutcome::Ended { success, stdout: _, stderr } => (got is Ok <==> success) && (
            !success ==> got->Err_0@ == MatrixFault::Git(
                "git worktree remove failed: "@ + trimmed(stderr@),
            )),
        },
{
    match outcome {
        CommandOutcome::NotSpawned(e) => Err(
            MatrixError::Git(concat2("failed to spawn git worktree remove: ", e.as_str())),
        ),
        CommandOutcome::Ended { success, stdout: _, stderr } => {
            if *success {
                return Ok(());
            }
            let chars: Vec<char> = chars_of(stderr.as_str());
            Err(
                MatrixError::Git(
                    concat2(
                        "git worktree remove failed: ",
                        trim(chars.as_slice()).as_str(),
                    ),
                ),
            )
        },
    }
}

/// How the binary of a version is obtained.
#[derive(Debug)]
pub enum HarnessBuild {
    /// Rebuilt from source against the worktree.
    Rebuild,
    /// One that was built before.
    Reuse(String),
}

/// A binary that is ready to measure one version.
#[derive(Debug)]
pub struct BuiltHarness {
    pub exe: String,
}

/// Where a build into a target directory leaves the binary.
pub fn harness_path(target_dir: &str) -> (out: String)
    ensures
        out@ == inside(inside(target_dir@, "release"@), HARNESS_BIN@),
{
    path_inside(path_inside(target_dir, "release").as_str(), HARNESS_BIN)
}

/// The setting that puts a worktree in the place of the measured crate.
pub fn paths_override(worktree: &str) -> (out: String)
    ensures
        out@ == "paths=[\""@ + worktree@ + "\"]"@,
{
    concat3("paths=[\"", worktree, "\"]")
}

/// A binary that was built before, where it is still there.
pub fn reuse_harness(exe: &str, exists: bool) -> (got: Result<BuiltHarness, MatrixError>)
    ensures
        got is Ok <==> exists,
        got is Ok ==> got->Ok_0.exe@ == exe@,
        got is Err ==> got->Err_0@ == MatrixFault::Build(
            "reuse harness "@ + exe@ + " does not exist"@,
        ),
{
    if exists {
        Ok(BuiltHarness { exe: exe.to_owned() })
    } else {
        Err(MatrixError::Build(concat3("reuse harness ", exe, " does not exist")))
    }
}

/// What became of the build of a version: a build that failed, or that left no
/// binary, is an error.
pub fn build_harness(
    worktree: &CoreWorktree,
    exe: &str,
    build: &Result<bool, String>,
    exists: bool,
) -> (got: Result<BuiltHarness, MatrixError>)
    ensures
        got is Ok <==> *build == Ok::<bool, String>(true) && exists,
        got is Ok ==> got->Ok_0.exe@ == exe@,
        got is Err ==> got->Err_0@ == MatrixFault::Build(
            match *build {
                Err(e) => "failed to spawn cargo build: "@ + e@,
                Ok(success) => if !success {
                    "cargo build against "@ + worktree.refname@ + " ("@ + worktree.short_sha@
                        + ") failed"@
                } else {
                    "harness binary "@ + exe@ + " missing after build"@
                },
            },
        ),
{
    match build {
        Err(e) => Err(MatrixError::Build(concat2("failed to spawn cargo build: ", e.as_str()))),
        Ok(success) => {
            if !*success {
                let mut text: String = concat3(
                    "cargo build against ",
                    worktree.refname.as_str(),
                    " (",
                );
                text.append(worktree.short_sha.as_str());
                text.append(") failed");
                return Err(MatrixError::Build(text));
            }
            if !exists {
                return Err(
                    MatrixError::Build(concat3("harness binary ", exe, " missing after build")),
                );
            }
            Ok(BuiltHarness { exe: exe.to_owned() })
        },
    }
}

/// A history with one more snapshot, and how many it then holds. A history that
/// could not be loaded is an error, and there is nothing to save over it.
pub fn append_version_snapshot(
    history: Result<Vec<BenchmarkSnapshot>, String>,
    snapshot: BenchmarkSnapshot,
) -> (got: Result<(Vec<BenchmarkSnapshot>, usize), MatrixError>)
    ensures
        match history {
            Ok(was) => got is Ok && (got->Ok_0).0@ == was@.push(snapshot) && (got->Ok_0).1
                == was@.len() + 1,
            Err(e) => got is Err && got->Err_0@ == MatrixFault::History(e@),
        },
{
    match history {
        Err(e) => Err(MatrixError::History(e)),
        Ok(was) => {
            let mut now: Vec<BenchmarkSnapshot> = was;
            now.push(snapshot);
            let entries: usize = now.len();
            Ok((now, entries))
        },
    }
}

/// What a run measures each version with.
#[derive(Debug)]
pub struct MatrixConfig {
    pub sizes: Vec<(u32, u32)>,
    pub concurrency: Vec<usize>,
    pub tile_size: u32,
    pub memory_budget_bytes: u64,
    pub iters: u32,
    pub warmup: u32,
    pub build: HarnessBuild,
    /// Where builds land; `None` is a directory that the run makes and removes.
    pub target_dir: Option<String>,
}

impl MatrixConfig {
    /// The everyday suite, with the counts that the harness takes.
    pub fn with_counts(iters: u32, warmup: u32) -> (cfg: MatrixConfig)
        ensures
            cfg.sizes@ == seq![
                (512u32, 512u32),
                (1024u32, 1024u32),
                (2048u32, 2048u32),
                (4096u32, 4096u32),
            ],
            cfg.concurrency@ == seq![0usize, 4usize],
            cfg.tile_size == 256,
            cfg.memory_budget_bytes == 1_000_000,
            cfg.iters == iters,
            cfg.warmup == warmup,
            cfg.build is Rebuild,
            cfg.target_dir is None,
    {
        let sizes: Vec<(u32, u32)> = vec![
            (512, 512),
            (1024, 1024),
            (2048, 2048),
            (4096, 4096),
        ];
        let concurrency: Vec<usize> = vec![0, 4];
        assert(sizes@ =~= seq![
            (512u32, 512u32),
            (1024u32, 1024u32),
            (2048u32, 2048u32),
            (4096u32, 4096u32),
        ]);
        assert(concurrency@ =~= seq![0usize, 4usize]);
        MatrixConfig {
            sizes,
            concurrency,
            tile_size: 256,
            memory_budget_bytes: 1_000_000,
            iters,
            warmup,
            build: HarnessBuild::Rebuild,
            target_dir: None,
        }
    }

    /// Whether the run removes the directory that its builds landed in: only one
    /// that it made, and only where it built.
    pub fn cleans_up(&self) -> (yes: bool)
        ensures
            yes == (self.target_dir is None && self.build is Rebuild),
    {
        match (&self.target_dir, &self.build) {
            (None, HarnessBuild::Rebuild) => true,
            _ => false,
        }
    }
}

/// A count that the environment overrides, where it says a number.
pub fn overridden(var: Option<&str>, default: u32) -> (n: u32)
    ensures
        n == (match var {
            Some(text) => match bounded_value(text@, u32::MAX as nat) {
                Some(v) => v as u32,
                None => default,
            },
            None => default,
        }),
{
    match var {
        Some(text) => {
            let chars: Vec<char> = chars_of(text);
            match parse_u32(chars.as_slice()) {
                Some(v) => v,
                None => default,
            }
        },
        None => default,
    }
}

/// An engine that a suite measures.
#[derive(Debug, Clone, Copy, PartialEq, Eq, Structural)]
pub enum Engine {
    Monolithic,
    Streaming,
    MapReduce,
    Libvips,
}

/// The engines that a run measures: the three of the measured crate always, and
/// `libvips` where it is installed.
pub fn engine_set(vips_available: bool) -> (out: Vec<Engine>)
    ensures
        out@ == (if vips_available {
            seq![Engine::Monolithic, Engine::Streaming, Engine::MapReduce, Engine::Libvips]
        } else {
            seq![Engine::Monolithic, Engine::Streaming, Engine::MapReduce]
        }),
{
    let mut out: Vec<Engine> = Vec::new();
    out.push(Engine::Monolithic);
    out.push(Engine::Streaming);
    out.push(Engine::MapReduce);
    if vips_available {
        out.push(Engine::Libvips);
    }
    assert(out@ =~= (if vips_available {
        seq![Engine::Monolithic, Engine::Streaming, Engine::MapReduce, Engine::Libvips]
    } else {
        seq![Engine::Monolithic, Engine::Streaming, Engine::MapReduce]
    }));
    out
}

/// What became of one version.
#[derive(Debug)]
pub enum VersionOutcome {
    /// It was measured and recorded; `entries` is the length of the history.
    Appended { refname: String, version: String, short_sha: String, entries: usize },
    /// It was skipped, for this reason.
    Skipped { refname: String, reason: String },
}

/// A version that was measured: its version, its commit and the length of the
/// history.
pub type Measured = (String, String, usize);

/// Whether an outcome is what became of a ref.
pub open spec fn is_outcome(
    outcome: VersionOutcome,
    refname: Seq<char>,
    result: Result<Measured, MatrixError>,
) -> bool {
    match result {
        Ok(m) => outcome matches VersionOutcome::Appended {
            refname: name,
            version,
            short_sha,
            entries,
        } && name@ == refname && version@ == m.0@ && short_sha@ == m.1@ && entries == m.2,
        Err(e) => outcome matches VersionOutcome::Skipped { refname: name, reason } && name@
            == refname && reason@ == fault_text(e@),
    }
}

/// What became of one version.
pub fn outcome_of(refname: &str, result: Result<Measured, MatrixError>) -> (outcome: VersionOutcome)
    ensures
        is_outcome(outcome, refname@, result),
{
    match result {
        Ok(m) => VersionOutcome::Appended {
            refname: refname.to_owned(),
            version: m.0,
            short_sha: m.1,
            entries: m.2,
        },
        Err(e) => VersionOutcome::Skipped { refname: refname.to_owned(), reason: e.message() },
    }
}

/// What became of every version, in the order they were asked for. A version
/// that failed is skipped, and the ones behind it have their outcomes too.
pub fn run_matrix(refs: &Vec<String>, results: Vec<Result<Measured, MatrixError>>) -> (outcomes: Vec<
    VersionOutcome,
>)
    requires
        refs@.len() == results@.len(),
    ensures
        outcomes@.len() == refs@.len(),
        forall|i: int|
            0 <= i < refs@.len() ==> is_outcome(#[trigger] outcomes@[i], refs@[i]@, results@[i]),
{
    let ghost all = results@;
    let mut outcomes: Vec<VersionOutcome> = Vec::new();
    let ghost mut n: int = 0;
    for result in it: results
        invariant
            it.seq() == all,
            n == it.index(),
            refs@.len() == all.len(),
            outcomes@.len() == n,
            forall|i: int|
                0 <= i < n ==> is_outcome(#[trigger] outcomes@[i], refs@[i]@, all[i]),
    {
        let i: usize = outcomes.len();
        assert(result == all[n]);
        outcomes.push(outcome_of(refs[i].as_str(), result));
        proof {
            n = n + 1;
        }
    }
    outcomes
}

/// How many of the first `n` outcomes were recorded.
pub open spec fn appended_in(outcomes: Seq<VersionOutcome>, n: int) -> nat
    decreases n,
{
    if n <= 0 {
        0
    } else {
        appended_in(outcomes, n - 1) + (if outcomes[n - 1] is Appended {
            1nat
        } else {
            0
        })
    }
}

/// How many versions were recorded and how many were skipped.
pub fn tally(outcomes: &Vec<VersionOutcome>) -> (counts: (usize, usize))
    ensures
        counts.0 == appended_in(outcomes@, outcomes@.len() as int),
        counts.0 + counts.1 == outcomes@.len(),
{
    let mut appended: usize = 0;
    let mut i: usize = 0;
    while i < outcomes.len()
        invariant
            i <= outcomes@.len(),
            appended <= i,
            appended == appended_in(outcomes@, i as int),
        decreases outcomes@.len() - i,
    {
        match &outcomes[i] {
            VersionOutcome::Appended { .. } => {
                appended = appended + 1;
            },
            VersionOutcome::Skipped { .. } => {},
        }
        i = i + 1;
    }
    (appended, outcomes.len() - appended)
}

/// The status of a run: zero only where something was recorded and nothing was
/// skipped.
pub fn exit_code(appended: usize, skipped: usize) -> (code: u8)
    ensures
        code == (if appended > 0 && skipped == 0 {
            0u8
        } else {
            1u8
        }),
{
    if appended == 0 || skipped > 0 {
        1
    } else {
        0
    }
}

} // verus!
