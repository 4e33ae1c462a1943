//! The door to the archive: what it was asked for, and what it answers.
//!
//! It refuses rather than reports. A refusal is an answer, so its status is not
//! that of a wrong invocation.

use crate::storage::archive::{
    admission_of_text, archive_message, reasons, refusals_of, ArchiveEntry, ArchiveError, Reason,
    Refusal, ARCHIVE_DIR,
};
use crate::storage::integrity::{findings_of_text, lines_of, verify_text, Findings, VerifyReport};
use crate::storage::json::{lookup, read_document, str_of, CanonicalError, RawJson};
use crate::storage::wire::text_view;
use crate::text::{
    chars_of, concat2, concat3, debug_str, debug_str_text, decimal, decimal_text, same_text, slices,
    strings, text_between, text_of,
};
use crate::version_matrix::{safe_ref, sanitize_ref};
use crate::words::{has_prefix, join, joined, starts_with};
use vstd::prelude::*;

verus! {

/// The document is admissible, or it verifies.
pub const ADMITTED: u8 = 0;

/// The document is refused, or a digest moved: an answer, not a failure to run.
pub const REFUSED: u8 = 1;

/// The invocation was wrong, or a file could not be read.
pub const USAGE: u8 = 2;

/// What the door was asked for.
#[derive(Debug)]
pub enum Command {
    Help,
    Check { document: String },
    Archive { document: String, root: Option<String> },
    Verify { document: String },
    Provenance { scratch: String },
}

/// What the door was asked for, as texts.
pub enum Asked {
    Help,
    Check { document: Seq<char> },
    Archive { document: Seq<char>, root: Option<Seq<char>> },
    Verify { document: Seq<char> },
    Provenance { scratch: Seq<char> },
}

impl View for Command {
    type V = Asked;

    open spec fn view(&self) -> Asked {
        match self {
            Command::Help => Asked::Help,
            Command::Check { document } => Asked::Check { document: document@ },
            Command::Archive { document, root } => Asked::Archive {
                document: document@,
                root: text_view(*root),
            },
            Command::Verify { document } => Asked::Verify { document: document@ },
            Command::Provenance { scratch } => Asked::Provenance { scratch: scratch@ },
        }
    }
}

/// A way the door is used.
#[derive(Debug, Clone, Copy, PartialEq, Eq, Structural)]
pub enum Mode {
    Check,
    Archive,
    Verify,
    Provenance,
}

/// What the arguments said so far: the mode, with the document that it names,
/// and where to file and to measure.
pub struct Said {
    pub mode: Option<(Mode, Seq<char>)>,
    pub root: Option<Seq<char>>,
    pub scratch: Seq<char>,
}

/// The mode that a flag with a document stands for.
pub open spec fn mode_of(arg: Seq<char>) -> Option<Mode> {
    if arg == "--check"@ {
        Some(Mode::Check)
    } else if arg == "--archive"@ {
        Some(Mode::Archive)
    } else if arg == "--verify"@ {
        Some(Mode::Verify)
    } else {
        None
    }
}

/// What the arguments come to, once all were read.
pub open spec fn concluded(said: Said) -> Result<Asked, Seq<char>> {
    match said.mode {
        None => Err("no mode given"@),
        Some((Mode::Check, document)) => Ok(Asked::Check { document }),
        Some((Mode::Archive, document)) => Ok(Asked::Archive { document, root: said.root }),
        Some((Mode::Verify, document)) => Ok(Asked::Verify { document }),
        Some((Mode::Provenance, _)) => Ok(Asked::Provenance { scratch: said.scratch }),
    }
}

/// What the arguments from the `i`-th on make of what was said before.
pub open spec fn said_from(args: Seq<Seq<char>>, i: int, said: Said) -> Result<Asked, Seq<char>>
    decreases args.len() - i,
{
    if !(0 <= i < args.len()) {
        concluded(said)
    } else if mode_of(args[i]) is Some {
        if said.mode is Some {
            Err("give exactly one of --check, --archive, --verify, --provenance"@)
        } else if i + 1 >= args.len() {
            Err(args[i] + " needs a document path"@)
        } else {
            said_from(
                args,
                i + 2,
                Said { mode: Some((mode_of(args[i])->0, args[i + 1])), ..said },
            )
        }
    } else if args[i] == "--provenance"@ {
        if said.mode is Some {
            Err("give exactly one mode"@)
        } else {
            said_from(args, i + 1, Said { mode: Some((Mode::Provenance, ""@)), ..said })
        }
    } else if args[i] == "--root"@ {
        if i + 1 >= args.len() {
            Err("--root needs a directory"@)
        } else {
            said_from(args, i + 2, Said { root: Some(args[i + 1]), ..said })
        }
    } else if args[i] == "--scratch"@ {
        if i + 1 >= args.len() {
            Err("--scratch needs a directory"@)
        } else {
            said_from(args, i + 2, Said { scratch: args[i + 1], ..said })
        }
    } else if args[i] == "-h"@ || args[i] == "--help"@ {
        Ok(Asked::Help)
    } else {
        Err("unknown argument "@ + debug_str_text(args[i]))
    }
}

/// The mode that a flag with a document stands for.
fn document_mode(arg: &str) -> (mode: Option<Mode>)
    ensures
        mode == mode_of(arg@),
{
    if same_text(arg, "--check") {
        Some(Mode::Check)
    } else if same_text(arg, "--archive") {
        Some(Mode::Archive)
    } else if same_text(arg, "--verify") {
        Some(Mode::Verify)
    } else {
        None
    }
}

/// A mode and its document, as text.
pub open spec fn mode_view(mode: Option<(Mode, String)>) -> Option<(Mode, Seq<char>)> {
    match mode {
        Some(m) => Some((m.0, m.1@)),
        None => None,
    }
}

/// Read the arguments of the door. Exactly one mode is asked for.
pub fn parse_command(args: &Vec<String>, temp_dir: &str) -> (got: Result<Command, String>)
    ensures
        ({
            let asked = said_from(
                strings(args@),
                0,
                Said { mode: None, root: None, scratch: temp_dir@ },
            );
            match got {
                Ok(command) => asked == Ok::<Asked, Seq<char>>(command@),
                Err(e) => asked == Err::<Asked, Seq<char>>(e@),
            }
        }),
{
    let ghost model = strings(args@);
    let ghost start = Said { mode: None, root: None, scratch: temp_dir@ };
    assert(model.len() == args@.len());
    let mut mode: Option<(Mode, String)> = None;
    let mut root: Option<String> = None;
    let mut scratch: String = temp_dir.to_owned();
    let mut i: usize = 0;
    while i < args.len()
        invariant
            i <= args@.len(),
            model == strings(args@),
            model.len() == args@.len(),
            start == (Said { mode: None, root: None, scratch: temp_dir@ }),
            said_from(model, 0, start) == said_from(
                model,
                i as int,
                Said { mode: mode_view(mode), root: text_view(root), scratch: scratch@ },
            ),
        decreases args@.len() - i,
    {
        assert(model[i as int] == args@[i as int]@);
        let arg: &str = args[i].as_str();
        let more = args.len() - i > 1;
        if more {
            assert(model[i + 1] == args@[i + 1]@);
        }
        if let Some(asked) = document_mode(arg) {
            if mode.is_some() {
                return Err(
                    "give exactly one of --check, --archive, --verify, --provenance".to_owned(),
                );
            }
            if !more {
                return Err(concat2(arg, " needs a document path"));
            }
            mode = Some((asked, args[i + 1].clone()));
            i = i + 2;
        } else if same_text(arg, "--provenance") {
            if mode.is_some() {
                return Err("give exactly one mode".to_owned());
            }
            mode = Some((Mode::Provenance, "".to_owned()));
            i = i + 1;
        } else if same_text(arg, "--root") {
            if !more {
                return Err("--root needs a directory".to_owned());
            }
            root = Some(args[i + 1].clone());
            i = i + 2;
        } else if same_text(arg, "--scratch") {
            if !more {
                return Err("--scratch needs a directory".to_owned());
            }
            scratch = args[i + 1].clone();
            i = i + 2;
        } else if same_text(arg, "-h") || same_text(arg, "--help") {
            return Ok(Command::Help);
        } else {
            return Err(concat2("unknown argument ", debug_str(arg).as_str()));
        }
    }
    match mode {
        None => Err("no mode given".to_owned()),
        Some((Mode::Check, document)) => Ok(Command::Check { document }),
        Some((Mode::Archive, document)) => Ok(Command::Archive { document, root }),
        Some((Mode::Verify, document)) => Ok(Command::Verify { document }),
        Some((Mode::Provenance, _)) => Ok(Command::Provenance { scratch }),
    }
}

/// What the door answers: a status and the lines it says. A refusal is said to
/// standard error.
#[derive(Debug)]
pub struct Answer {
    pub code: u8,
    pub lines: Vec<String>,
}

/// The lines of some reasons, set in.
pub open spec fn reason_lines(reasons: Seq<Reason>) -> Seq<Seq<char>> {
    Seq::new(
        reasons.len(),
        |i: int| "  REFUSED["@ + reasons[i].code + "]: "@ + reasons[i].detail,
    )
}

/// The lines of some refusals, set in, behind some lines.
fn push_refusals(lines: &mut Vec<String>, refusals: &Vec<Refusal>)
    ensures
        strings(final(lines)@) == strings(old(lines)@) + reason_lines(reasons(refusals@)),
{
    let ghost before = strings(lines@);
    let ghost added = reason_lines(reasons(refusals@));
    let mut i: usize = 0;
    assert(strings(lines@) =~= before + added.take(0));
    while i < refusals.len()
        invariant
            i <= refusals@.len(),
            before == strings(old(lines)@),
            added == reason_lines(reasons(refusals@)),
            strings(lines@) == before + added.take(i as int),
        decreases refusals@.len() - i,
    {
        let ghost was = strings(lines@);
        let mut line: String = concat3("  REFUSED[", refusals[i].code, "]: ");
        line.append(refusals[i].detail.as_str());
        assert(reasons(refusals@)[i as int] == refusals@[i as int]@);
        assert(added[i as int] =~= line@);
        lines.push(line);
        assert(strings(lines@) =~= was.push(line@));
        i = i + 1;
        assert(strings(lines@) =~= before + added.take(i as int));
    }
    assert(added.take(i as int) =~= added);
}

/// What the door says of a document it was asked to check.
pub open spec fn check_answer(path: Seq<char>, refusals: Seq<Reason>) -> (u8, Seq<Seq<char>>) {
    if refusals.len() == 0 {
        (ADMITTED, seq![path + ": admissible"@])
    } else {
        (
            REFUSED,
            seq![path + ": refused for "@ + decimal(refusals.len()) + " reasons"@] + reason_lines(
                refusals,
            ),
        )
    }
}

/// Say whether a document would be archived, and if not, every reason. A text
/// that is no document is an error.
pub fn check(path: &str, text: &str) -> (got: Result<Answer, String>)
    ensures
        match read_document(text@) {
            Ok(doc) => got is Ok && (got->Ok_0.code, strings(got->Ok_0.lines@)) == check_answer(
                path@,
                refusals_of(doc),
            ),
            Err(fault) => got is Err && got->Err_0@ == path@ + ": "@ + CanonicalError::message_text(
                fault,
            ),
        },
{
    let refusals: Vec<Refusal> = match admission_of_text(text) {
        Ok(refusals) => refusals,
        Err(e) => {
            return Err(concat3(path, ": ", e.message().as_str()));
        },
    };
    let ghost all = reasons(refusals@);
    assert(all.len() == refusals@.len());
    let mut lines: Vec<String> = Vec::new();
    if refusals.len() == 0 {
        lines.push(concat2(path, ": admissible"));
        assert(strings(lines@) =~= seq![path@ + ": admissible"@]);
        return Ok(Answer { code: ADMITTED, lines });
    }
    let mut head: String = concat3(
        path,
        ": refused for ",
        decimal_text(refusals.len() as u128).as_str(),
    );
    head.append(" reasons");
    lines.push(head);
    assert(strings(lines@) =~= seq![
        path@ + ": refused for "@ + decimal(all.len()) + " reasons"@,
    ]);
    push_refusals(&mut lines, &refusals);
    Ok(Answer { code: REFUSED, lines })
}

/// What the door says of a document it was asked to file.
pub open spec fn filing_answer(path: Seq<char>, result: Result<ArchiveEntry, ArchiveError>) -> (
    u8,
    Seq<Seq<char>>,
) {
    match result {
        Ok(entry) => (
            ADMITTED,
            seq![
                if entry.written {
                    "archived "@ + path + " as "@ + entry.run_id@ + " ("@ + entry.document_digest@
                        + ")"@
                } else {
                    path + " is already archived as "@ + entry.run_id@
                        + ", and its digest still matches, so nothing changed"@
                },
            ],
        ),
        Err(ArchiveError::Refused(refusals)) => (
            REFUSED,
            seq![
                path + ": refused for "@ + decimal(refusals@.len())
                    + " reasons, and nothing was written"@,
            ] + reason_lines(reasons(refusals@)),
        ),
        Err(other) => (REFUSED, seq![path + ": "@ + archive_message(other)]),
    }
}

/// What the door says of a document it was asked to file.
pub fn filed(path: &str, result: &Result<ArchiveEntry, ArchiveError>) -> (answer: Answer)
    ensures
        (answer.code, strings(answer.lines@)) == filing_answer(path@, *result),
{
    let mut lines: Vec<String> = Vec::new();
    let code: u8 = match result {
        Ok(entry) => {
            let line: String = if entry.written {
                let mut line: String = concat3("archived ", path, " as ");
                line.append(entry.run_id.as_str());
                line.append(" (");
                line.append(entry.document_digest.as_str());
                line.append(")");
                line
            } else {
                let mut line: String = concat3(
                    path,
                    " is already archived as ",
                    entry.run_id.as_str(),
                );
                line.append(", and its digest still matches, so nothing changed");
                line
            };
            lines.push(line);
            ADMITTED
        },
        Err(ArchiveError::Refused(refusals)) => {
            let mut head: String = concat3(
                path,
                ": refused for ",
                decimal_text(refusals.len() as u128).as_str(),
            );
            head.append(" reasons, and nothing was written");
            lines.push(head);
            assert(strings(lines@) =~= seq![head@]);
            push_refusals(&mut lines, refusals);
            REFUSED
        },
        Err(other) => {
            lines.push(concat3(path, ": ", other.message().as_str()));
            REFUSED
        },
    };
    assert(strings(lines@) =~= filing_answer(path@, *result).1);
    Answer { code, lines }
}

/// What the door says of a document it was asked to verify.
pub open spec fn verify_answer(found: Findings) -> (u8, Seq<Seq<char>>) {
    let ok = found.stated is Some && found.moved.len() == 0;
    (
        if ok {
            ADMITTED
        } else {
            REFUSED
        },
        if !ok && found.unchanged.len() > 0 {
            lines_of(found).push(
                "  the "@ + joined(found.unchanged, " and "@)
                    + " block(s) did not move, so this is a change to the numbers rather than to the environment they were measured in"@,
            )
        } else {
            lines_of(found)
        },
    )
}

/// Names, as strings.
fn owned(names: &Vec<&'static str>) -> (out: Vec<String>)
    ensures
        strings(out@) == slices(names@),
{
    let mut out: Vec<String> = Vec::new();
    let mut i: usize = 0;
    while i < names.len()
        invariant
            i <= names@.len(),
            out@.len() == i,
            forall|k: int| 0 <= k < i ==> (#[trigger] out@[k])@ == names@[k]@,
        decreases names@.len() - i,
    {
        out.push(names[i].to_owned());
        i = i + 1;
    }
    assert(strings(out@) =~= slices(names@));
    out
}

/// Recompute the four digests and name the block that moved. A text that is no
/// document is an error.
pub fn verify(text: &str) -> (got: Result<Answer, String>)
    ensures
        match findings_of_text(text@) {
            Ok(found) => got is Ok && (got->Ok_0.code, strings(got->Ok_0.lines@)) == verify_answer(
                found,
            ),
            Err(fault) => got is Err && got->Err_0@ == CanonicalError::message_text(fault),
        },
{
    let report: VerifyReport = match verify_text(text) {
        Ok(report) => report,
        Err(e) => {
            return Err(e.message());
        },
    };
    let mut lines: Vec<String> = report.lines();
    let ghost said = strings(lines@);
    assert(slices(report.unchanged@).len() == report.unchanged@.len());
    if report.ok() {
        return Ok(Answer { code: ADMITTED, lines });
    }
    if report.unchanged.len() > 0 {
        let names: Vec<String> = owned(&report.unchanged);
        let line: String = concat3(
            "  the ",
            join(&names, " and ").as_str(),
            " block(s) did not move, so this is a change to the numbers rather than to the environment they were measured in",
        );
        lines.push(line);
        assert(strings(lines@) =~= said.push(line@));
    }
    Ok(Answer { code: REFUSED, lines })
}

/// A document is said to be admissible exactly where it is refused for nothing,
/// and a refusal is a status of its own.
pub proof fn law_refusal_is_an_answer(path: Seq<char>, refusals: Seq<Reason>)
    ensures
        check_answer(path, refusals).0 == ADMITTED <==> refusals.len() == 0,
        check_answer(path, refusals).0 != USAGE,
        refusals.len() > 0 ==> check_answer(path, refusals).1.len() == 1 + refusals.len(),
{
}

/// A family without the project's name before it.
pub open spec fn short_family(family: Seq<char>) -> Seq<char> {
    if has_prefix(family, "libviprs-"@) {
        family.skip("libviprs-"@.len() as int)
    } else {
        family
    }
}

/// The archive directory of a family: the one of the storage family, where a
/// document names none, else one of its own.
pub open spec fn family_dir(family: Option<Seq<char>>) -> Seq<char> {
    match family {
        None => ARCHIVE_DIR@,
        Some(name) => if short_family(name) == "storage"@ {
            ARCHIVE_DIR@
        } else {
            "archive/"@ + safe_ref(short_family(name))
        },
    }
}

/// Where a document is filed unless the invocation says otherwise: the family
/// that it declares decides the directory.
pub fn dir_for_document(doc: &RawJson) -> (dir: String)
    ensures
        dir@ == family_dir(
            match lookup(doc@, "family"@) {
                Some(v) => str_of(v),
                None => None,
            },
        ),
{
    let family: &str = match doc.get("family") {
        None => {
            return ARCHIVE_DIR.to_owned();
        },
        Some(v) => match v.as_str() {
            None => {
                return ARCHIVE_DIR.to_owned();
            },
            Some(family) => family,
        },
    };
    let chars: Vec<char> = chars_of(family);
    let prefix: Vec<char> = chars_of("libviprs-");
    let name: String = if starts_with(chars.as_slice(), prefix.as_slice()) {
        let rest: String = text_between(chars.as_slice(), prefix.len(), chars.len());
        assert(chars@.subrange(prefix@.len() as int, chars@.len() as int) =~= chars@.skip(
            prefix@.len() as int,
        ));
        rest
    } else {
        text_of(chars.as_slice())
    };
    if same_text(name.as_str(), "storage") {
        ARCHIVE_DIR.to_owned()
    } else {
        concat2("archive/", sanitize_ref(name.as_str()).as_str())
    }
}

/// A family that is not the storage family is never filed in its directory.
pub proof fn law_families_do_not_share_a_directory(family: Seq<char>)
    ensures
        family_dir(Some(family)) == ARCHIVE_DIR@ <==> short_family(family) == "storage"@,
{
    reveal_strlit("archive/");
    reveal_strlit("archive/storage");
    reveal_strlit("storage");
    reveal_strlit("ref");
    let name = short_family(family);
    let dir = "archive/"@ + safe_ref(name);
    if dir == ARCHIVE_DIR@ {
        assert(ARCHIVE_DIR@ == "archive/storage"@);
        assert(dir.len() == 15 && "archive/"@.len() == 8);
        assert(safe_ref(name).len() == 7);
        assert forall|i: int| 0 <= i < 7 implies #[trigger] name[i] == "storage"@[i] by {
            assert(dir[8 + i] == safe_ref(name)[i]);
        }
        assert(name =~= "storage"@);
    }
}

} // verus!
