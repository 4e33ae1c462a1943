//! The command lines of the two runners.

use crate::storage::cells::{profile_name, Profile};
use crate::text::{
    chars_of, concat2, concat3, debug_str, debug_str_text, same_text, strings, text_between,
};
use crate::words::{bounded_value, parse_u64, parts_of, split_text, trim, trimmed};
use vstd::prelude::*;

verus! {

/// The parts of a list with commas between them that are not blank, without the
/// white space around them.
pub open spec fn items_in(parts: Seq<Seq<char>>, n: int) -> Seq<Seq<char>>
    decreases n,
{
    if n <= 0 {
        Seq::empty()
    } else if trimmed(parts[n - 1]).len() > 0 {
        items_in(parts, n - 1).push(trimmed(parts[n - 1]))
    } else {
        items_in(parts, n - 1)
    }
}

/// The items of a list with commas between them.
pub open spec fn items_of(s: Seq<char>) -> Seq<Seq<char>> {
    items_in(parts_of(s, ','), parts_of(s, ',').len() as int)
}

/// The items of a list with commas between them.
pub fn items(s: &str) -> (out: Vec<String>)
    ensures
        strings(out@) == items_of(s@),
{
    let chars: Vec<char> = chars_of(s);
    let parts: Vec<String> = split_text(chars.as_slice(), ',');
    let ghost model = parts_of(s@, ',');
    assert(strings(parts@) == model);
    assert(strings(parts@).len() == parts@.len());
    let mut out: Vec<String> = Vec::new();
    let mut i: usize = 0;
    assert(strings(out@) =~= items_in(model, 0));
    while i < parts.len()
        invariant
            i <= parts@.len(),
            strings(parts@) == model,
            strings(out@) == items_in(model, i as int),
        decreases parts@.len() - i,
    {
        assert(model[i as int] == parts@[i as int]@);
        let part: Vec<char> = chars_of(parts[i].as_str());
        let item: String = trim(part.as_slice());
        let ghost before = strings(out@);
        if chars_of(item.as_str()).len() > 0 {
            out.push(item);
            assert(strings(out@) =~= before.push(item@));
        }
        i = i + 1;
    }
    out
}

/// The refs of a list. A list of none is an error.
pub fn parse_versions(s: &str) -> (got: Result<Vec<String>, String>)
    ensures
        got is Ok <==> items_of(s@).len() > 0,
        got is Ok ==> strings(got->Ok_0@) == items_of(s@),
        got is Err ==> got->Err_0@ == "--versions is empty"@,
{
    let v: Vec<String> = items(s);
    assert(strings(v@).len() == v@.len());
    if v.len() == 0 {
        return Err("--versions is empty".to_owned());
    }
    Ok(v)
}

/// The first place from `p` on that holds an `x`, of either case, or the length
/// of the text.
pub open spec fn cross_at(s: Seq<char>, p: int) -> int
    decreases s.len() - p,
{
    if 0 <= p < s.len() && s[p] != 'x' && s[p] != 'X' {
        cross_at(s, p + 1)
    } else {
        p
    }
}

/// The size that an item gives, or what is wrong with it.
pub open spec fn size_of(pair: Seq<char>) -> Result<(u32, u32), Seq<char>> {
    let at = cross_at(pair, 0);
    if at >= pair.len() {
        Err("bad size '"@ + pair + "', expected WxH"@)
    } else {
        match (
            bounded_value(trimmed(pair.take(at)), u32::MAX as nat),
            bounded_value(trimmed(pair.skip(at + 1)), u32::MAX as nat),
        ) {
            (None, _) => Err("bad width in '"@ + pair + "'"@),
            (Some(_), None) => Err("bad height in '"@ + pair + "'"@),
            (Some(w), Some(h)) => Ok((w as u32, h as u32)),
        }
    }
}

/// The number that a text is, without the white space around it.
fn number(s: &[char]) -> (got: Option<u32>)
    ensures
        got is Some <==> bounded_value(trimmed(s@), u32::MAX as nat) is Some,
        got is Some ==> got->0 == bounded_value(trimmed(s@), u32::MAX as nat)->0,
{
    let t: String = trim(s);
    let chars: Vec<char> = chars_of(t.as_str());
    crate::words::parse_u32(chars.as_slice())
}

/// The size that an item gives, or what is wrong with it.
fn parse_size(pair: &str) -> (got: Result<(u32, u32), String>)
    ensures
        match got {
            Ok(size) => size_of(pair@) == Ok::<(u32, u32), Seq<char>>(size),
            Err(e) => size_of(pair@) == Err::<(u32, u32), Seq<char>>(e@),
        },
{
    let chars: Vec<char> = chars_of(pair);
    let mut at: usize = 0;
    while at < chars.len() && chars[at] != 'x' && chars[at] != 'X'
        invariant
            at <= chars@.len(),
            cross_at(chars@, 0) == cross_at(chars@, at as int),
        decreases chars@.len() - at,
    {
        at = at + 1;
    }
    if at == chars.len() {
        return Err(concat3("bad size '", pair, "', expected WxH"));
    }
    let w: String = text_between(chars.as_slice(), 0, at);
    let h: String = text_between(chars.as_slice(), at + 1, chars.len());
    assert(w@ =~= pair@.take(at as int));
    assert(h@ =~= pair@.skip(at + 1));
    let wide: Vec<char> = chars_of(w.as_str());
    let high: Vec<char> = chars_of(h.as_str());
    match number(wide.as_slice()) {
        None => Err(concat3("bad width in '", pair, "'")),
        Some(width) => match number(high.as_slice()) {
            None => Err(concat3("bad height in '", pair, "'")),
            Some(height) => Ok((width, height)),
        },
    }
}

/// The sizes that the first `n` items give, or what is wrong with the first bad
/// one.
pub open spec fn sizes_in(pairs: Seq<Seq<char>>, n: int) -> Result<Seq<(u32, u32)>, Seq<char>>
    decreases n,
{
    if n <= 0 {
        Ok(Seq::empty())
    } else {
        match (sizes_in(pairs, n - 1), size_of(pairs[n - 1])) {
            (Err(e), _) => Err(e),
            (Ok(_), Err(e)) => Err(e),
            (Ok(sizes), Ok(size)) => Ok(sizes.push(size)),
        }
    }
}

/// The sizes of a list.
pub open spec fn sizes_of(s: Seq<char>) -> Result<Seq<(u32, u32)>, Seq<char>> {
    sizes_in(items_of(s), items_of(s).len() as int)
}

/// A bad item among the first is one among more.
proof fn lemma_bad_size_stays(pairs: Seq<Seq<char>>, m: int, n: int)
    requires
        m <= n,
        sizes_in(pairs, m) is Err,
    ensures
        sizes_in(pairs, n) == sizes_in(pairs, m),
    decreases n - m,
{
    if m < n {
        lemma_bad_size_stays(pairs, m, n - 1);
    }
}

/// The sizes of a list, `WxH` each.
pub fn parse_sizes(s: &str) -> (got: Result<Vec<(u32, u32)>, String>)
    ensures
        match got {
            Ok(sizes) => sizes_of(s@) == Ok::<Seq<(u32, u32)>, Seq<char>>(sizes@),
            Err(e) => sizes_of(s@) == Err::<Seq<(u32, u32)>, Seq<char>>(e@),
        },
{
    let pairs: Vec<String> = items(s);
    let ghost model = items_of(s@);
    assert(strings(pairs@).len() == pairs@.len());
    let mut out: Vec<(u32, u32)> = Vec::new();
    let mut i: usize = 0;
    while i < pairs.len()
        invariant
            i <= pairs@.len(),
            model == items_of(s@),
            strings(pairs@) == model,
            sizes_in(model, i as int) == Ok::<Seq<(u32, u32)>, Seq<char>>(out@),
        decreases pairs@.len() - i,
    {
        assert(model[i as int] == pairs@[i as int]@);
        match parse_size(pairs[i].as_str()) {
            Ok(size) => {
                out.push(size);
            },
            Err(e) => {
                proof {
                    lemma_bad_size_stays(model, i + 1, model.len() as int);
                }
                return Err(e);
            },
        }
        i = i + 1;
    }
    Ok(out)
}

/// The levels that the first `n` items give, or what is wrong with the first bad
/// one.
pub open spec fn levels_in(items: Seq<Seq<char>>, n: int) -> Result<Seq<usize>, Seq<char>>
    decreases n,
{
    if n <= 0 {
        Ok(Seq::empty())
    } else {
        match (levels_in(items, n - 1), bounded_value(items[n - 1], usize::MAX as nat)) {
            (Err(e), _) => Err(e),
            (Ok(_), None) => Err("bad concurrency '"@ + items[n - 1] + "'"@),
            (Ok(levels), Some(v)) => Ok(levels.push(v as usize)),
        }
    }
}

/// The concurrency levels of a list.
pub open spec fn levels_of(s: Seq<char>) -> Result<Seq<usize>, Seq<char>> {
    levels_in(items_of(s), items_of(s).len() as int)
}

/// A bad item among the first is one among more.
proof fn lemma_bad_level_stays(items: Seq<Seq<char>>, m: int, n: int)
    requires
        m <= n,
        levels_in(items, m) is Err,
    ensures
        levels_in(items, n) == levels_in(items, m),
    decreases n - m,
{
    if m < n {
        lemma_bad_level_stays(items, m, n - 1);
    }
}

/// The concurrency levels of a list.
pub fn parse_concurrency(s: &str) -> (got: Result<Vec<usize>, String>)
    ensures
        match got {
            Ok(levels) => levels_of(s@) == Ok::<Seq<usize>, Seq<char>>(levels@),
            Err(e) => levels_of(s@) == Err::<Seq<usize>, Seq<char>>(e@),
        },
{
    let list: Vec<String> = items(s);
    let ghost model = items_of(s@);
    assert(strings(list@).len() == list@.len());
    let mut out: Vec<usize> = Vec::new();
    let mut i: usize = 0;
    while i < list.len()
        invariant
            i <= list@.len(),
            model == items_of(s@),
            strings(list@) == model,
            levels_in(model, i as int) == Ok::<Seq<usize>, Seq<char>>(out@),
        decreases list@.len() - i,
    {
        assert(model[i as int] == list@[i as int]@);
        let chars: Vec<char> = chars_of(list[i].as_str());
        let level: Option<usize> = match parse_u64(chars.as_slice()) {
            Some(v) => if v <= usize::MAX as u64 {
                Some(v as usize)
            } else {
                None
            },
            None => None,
        };
        match level {
            Some(v) => {
                out.push(v);
            },
            None => {
                proof {
                    lemma_bad_level_stays(model, i + 1, model.len() as int);
                }
                return Err(concat3("bad concurrency '", list[i].as_str(), "'"));
            },
        }
        i = i + 1;
    }
    Ok(out)
}

/// What a run over a series of releases was asked for.
#[derive(Debug)]
pub struct Options {
    pub versions: Vec<String>,
    pub history: String,
    pub sizes: Option<Vec<(u32, u32)>>,
    pub concurrency: Option<Vec<usize>>,
}

/// What the arguments said so far.
pub struct Asked {
    pub versions: Option<Seq<Seq<char>>>,
    pub history: Seq<char>,
    pub sizes: Option<Seq<(u32, u32)>>,
    pub concurrency: Option<Seq<usize>>,
}

/// What the arguments from the `i`-th on make of what was said before. `help` is
/// what `-h` and `--help` come to.
pub open spec fn asked_from(args: Seq<Seq<char>>, i: int, asked: Asked) -> Result<Asked, Seq<char>>
    decreases args.len() - i,
{
    if !(0 <= i < args.len()) {
        if asked.versions is None {
            Err("--versions is required"@)
        } else {
            Ok(asked)
        }
    } else if args[i] == "--versions"@ {
        if i + 1 >= args.len() {
            Err("--versions"@ + " requires a value"@)
        } else if items_of(args[i + 1]).len() == 0 {
            Err("--versions is empty"@)
        } else {
            asked_from(args, i + 2, Asked { versions: Some(items_of(args[i + 1])), ..asked })
        }
    } else if args[i] == "--history"@ {
        if i + 1 >= args.len() {
            Err("--history"@ + " requires a value"@)
        } else {
            asked_from(args, i + 2, Asked { history: args[i + 1], ..asked })
        }
    } else if args[i] == "--sizes"@ {
        if i + 1 >= args.len() {
            Err("--sizes"@ + " requires a value"@)
        } else {
            match sizes_of(args[i + 1]) {
                Err(e) => Err(e),
                Ok(sizes) => asked_from(args, i + 2, Asked { sizes: Some(sizes), ..asked }),
            }
        }
    } else if args[i] == "--concurrency"@ {
        if i + 1 >= args.len() {
            Err("--concurrency"@ + " requires a value"@)
        } else {
            match levels_of(args[i + 1]) {
                Err(e) => Err(e),
                Ok(levels) => asked_from(args, i + 2, Asked { concurrency: Some(levels), ..asked }),
            }
        }
    } else if args[i] == "-h"@ || args[i] == "--help"@ {
        Err("help"@)
    } else {
        Err("unknown argument: "@ + args[i])
    }
}

/// Some sizes, as a sequence.
pub open spec fn sizes_view(sizes: Option<Vec<(u32, u32)>>) -> Option<Seq<(u32, u32)>> {
    match sizes {
        Some(v) => Some(v@),
        None => None,
    }
}

/// Some levels, as a sequence.
pub open spec fn levels_view(levels: Option<Vec<usize>>) -> Option<Seq<usize>> {
    match levels {
        Some(v) => Some(v@),
        None => None,
    }
}

/// Some refs, as texts.
pub open spec fn refs_view(refs: Option<Vec<String>>) -> Option<Seq<Seq<char>>> {
    match refs {
        Some(v) => Some(strings(v@)),
        None => None,
    }
}

/// The argument behind the `i`-th, which a flag needs.
fn value_of<'a>(args: &'a Vec<String>, i: usize, flag: &str) -> (got: Result<&'a str, String>)
    requires
        i < args@.len(),
    ensures
        got is Ok <==> i + 1 < args@.len(),
        got is Ok ==> got->Ok_0@ == strings(args@)[i + 1],
        got is Err ==> got->Err_0@ == flag@ + " requires a value"@,
{
    if args.len() - i > 1 {
        Ok(args[i + 1].as_str())
    } else {
        Err(concat2(flag, " requires a value"))
    }
}

impl Options {
    /// Read the arguments of a run over a series of releases.
    pub fn parse(args: &Vec<String>, default_history: &str) -> (got: Result<Options, String>)
        ensures
            ({
                let asked = asked_from(
                    strings(args@),
                    0,
                    Asked {
                        versions: None,
                        history: default_history@,
                        sizes: None,
                        concurrency: None,
                    },
                );
                match got {
                    Ok(o) => asked == Ok::<Asked, Seq<char>>(
                        Asked {
                            versions: Some(strings(o.versions@)),
                            history: o.history@,
                            sizes: sizes_view(o.sizes),
                            concurrency: levels_view(o.concurrency),
                        },
                    ),
                    Err(e) => asked == Err::<Asked, Seq<char>>(e@),
                }
            }),
    {
        let ghost model = strings(args@);
        let ghost start = Asked {
            versions: None,
            history: default_history@,
            sizes: None,
            concurrency: None,
        };
        assert(model.len() == args@.len());
        let mut versions: Option<Vec<String>> = None;
        let mut history: String = default_history.to_owned();
        let mut sizes: Option<Vec<(u32, u32)>> = None;
        let mut concurrency: Option<Vec<usize>> = None;
        let mut i: usize = 0;
        while i < args.len()
            invariant
                i <= args@.len(),
                model == strings(args@),
                model.len() == args@.len(),
                start == (Asked {
                    versions: None,
                    history: default_history@,
                    sizes: None,
                    concurrency: None,
                }),
                asked_from(model, 0, start) == asked_from(
                    model,
                    i as int,
                    Asked {
                        versions: refs_view(versions),
                        history: history@,
                        sizes: sizes_view(sizes),
                        concurrency: levels_view(concurrency),
                    },
                ),
            decreases args@.len() - i,
        {
            assert(model[i as int] == args@[i as int]@);
            let arg: &str = args[i].as_str();
            if same_text(arg, "--versions") {
                match value_of(args, i, "--versions") {
                    Err(e) => {
                        return Err(e);
                    },
                    Ok(v) => match parse_versions(v) {
                        Err(e) => {
                            return Err(e);
                        },
                        Ok(list) => {
                            versions = Some(list);
                        },
                    },
                }
            } else if same_text(arg, "--history") {
                match value_of(args, i, "--history") {
                    Err(e) => {
                        return Err(e);
                    },
                    Ok(v) => {
                        history = v.to_owned();
                    },
                }
            } else if same_text(arg, "--sizes") {
                match value_of(args, i, "--sizes") {
                    Err(e) => {
                        return Err(e);
                    },
                    Ok(v) => match parse_sizes(v) {
                        Err(e) => {
                            return Err(e);
                        },
                        Ok(list) => {
                            sizes = Some(list);
                        },
                    },
                }
            } else if same_text(arg, "--concurrency") {
                match value_of(args, i, "--concurrency") {
                    Err(e) => {
                        return Err(e);
                    },
                    Ok(v) => match parse_concurrency(v) {
                        Err(e) => {
                            return Err(e);
                        },
                        Ok(list) => {
                            concurrency = Some(list);
                        },
                    },
                }
            } else if same_text(arg, "-h") || same_text(arg, "--help") {
                return Err("help".to_owned());
            } else {
                return Err(concat2("unknown argument: ", arg));
            }
            i = i + 2;
        }
        match versions {
            None => Err("--versions is required".to_owned()),
            Some(list) => Ok(Options { versions: list, history, sizes, concurrency }),
        }
    }
}

/// What is wrong with asking the storage runner for a family, if anything is.
pub open spec fn family_fault(name: Seq<char>) -> Option<Seq<char>> {
    if name == "storage"@ {
        None
    } else if name == "engines"@ || name == "vips"@ {
        Some(
            "the `storage` binary measures the storage family. The "@ + name
                + " family is measured by `report`, `scalability` and `version_matrix`: run `cargo run --release --bin report -- --family "@
                + name + "`."@,
        )
    } else {
        Some(
            "unknown benchmark family "@ + debug_str_text(name)
                + ". This binary measures storage"@,
        )
    }
}

/// Whether the storage runner measures a family. Another family is refused
/// rather than measured as storage.
pub fn check_family(name: &str) -> (got: Result<(), String>)
    ensures
        got is Ok <==> family_fault(name@) is None,
        got is Err ==> got->Err_0@ == family_fault(name@)->0,
{
    if same_text(name, "storage") {
        Ok(())
    } else if same_text(name, "engines") || same_text(name, "vips") {
        let mut text: String = concat3(
            "the `storage` binary measures the storage family. The ",
            name,
            " family is measured by `report`, `scalability` and `version_matrix`: run `cargo run --release --bin report -- --family ",
        );
        text.append(name);
        text.append("`.");
        Err(text)
    } else {
        Err(
            concat3(
                "unknown benchmark family ",
                debug_str(name).as_str(),
                ". This binary measures storage",
            ),
        )
    }
}

/// The profile of a name.
pub open spec fn parsed_profile(s: Seq<char>) -> Option<Profile> {
    if s == "ci"@ {
        Some(Profile::Ci)
    } else if s == "full"@ {
        Some(Profile::Full)
    } else if s == "xl"@ {
        Some(Profile::Xl)
    } else {
        None
    }
}

/// The profile of a name.
fn profile_named(s: &str) -> (got: Option<Profile>)
    ensures
        got == parsed_profile(s@),
{
    let got: Option<Profile> = Profile::parse(s);
    assert(profile_name(Profile::Ci) == "ci"@);
    assert(profile_name(Profile::Full) == "full"@);
    assert(profile_name(Profile::Xl) == "xl"@);
    if let Some(p) = got {
        assert(s@ == profile_name(p));
    }
    got
}

/// What the storage runner was asked for.
#[derive(Debug)]
pub enum SweepCommand {
    Help,
    Sweep { profile: Profile, out: Option<String> },
}

/// What the storage runner was asked for, as texts.
pub enum SweepAsked {
    Help,
    Sweep { profile: Profile, out: Option<Seq<char>> },
}

impl View for SweepCommand {
    type V = SweepAsked;

    open spec fn view(&self) -> SweepAsked {
        match self {
            SweepCommand::Help => SweepAsked::Help,
            SweepCommand::Sweep { profile, out } => SweepAsked::Sweep {
                profile: *profile,
                out: crate::storage::wire::text_view(*out),
            },
        }
    }
}

/// What the arguments from the `i`-th on make of what was said before.
pub open spec fn sweep_from(
    args: Seq<Seq<char>>,
    i: int,
    profile: Profile,
    out: Option<Seq<char>>,
) -> Result<SweepAsked, Seq<char>>
    decreases args.len() - i,
{
    if !(0 <= i < args.len()) {
        Ok(SweepAsked::Sweep { profile, out })
    } else if args[i] == "--family"@ {
        if i + 1 >= args.len() {
            Err("--family wants a family name"@)
        } else {
            match family_fault(args[i + 1]) {
                Some(e) => Err(e),
                None => sweep_from(args, i + 2, profile, out),
            }
        }
    } else if args[i] == "--profile"@ {
        if i + 1 >= args.len() || parsed_profile(args[i + 1]) is None {
            Err("--profile takes ci, full or xl"@)
        } else {
            sweep_from(args, i + 2, parsed_profile(args[i + 1])->0, out)
        }
    } else if args[i] == "--out"@ {
        if i + 1 >= args.len() {
            Err("--out takes a path"@)
        } else {
            sweep_from(args, i + 2, profile, Some(args[i + 1]))
        }
    } else if args[i] == "-h"@ || args[i] == "--help"@ {
        Ok(SweepAsked::Help)
    } else {
        Err("unknown argument "@ + debug_str_text(args[i]))
    }
}

/// Read the arguments of the storage runner. `profile` is the one that the
/// environment names.
pub fn parse_sweep(args: &Vec<String>, profile: Profile) -> (got: Result<SweepCommand, String>)
    ensures
        match got {
            Ok(command) => sweep_from(strings(args@), 0, profile, None) == Ok::<
                SweepAsked,
                Seq<char>,
            >(command@),
            Err(e) => sweep_from(strings(args@), 0, profile, None) == Err::<SweepAsked, Seq<char>>(
                e@,
            ),
        },
{
    let ghost model = strings(args@);
    assert(model.len() == args@.len());
    let mut chosen: Profile = profile;
    let mut out: Option<String> = None;
    let mut i: usize = 0;
    while i < args.len()
        invariant
            i <= args@.len(),
            model == strings(args@),
            model.len() == args@.len(),
            sweep_from(model, 0, profile, None) == sweep_from(
                model,
                i as int,
                chosen,
                crate::storage::wire::text_view(out),
            ),
        decreases args@.len() - i,
    {
        assert(model[i as int] == args@[i as int]@);
        let arg: &str = args[i].as_str();
        let more = args.len() - i > 1;
        if same_text(arg, "--family") {
            if !more {
                return Err("--family wants a family name".to_owned());
            }
            assert(model[i + 1] == args@[i + 1]@);
            if let Err(e) = check_family(args[i + 1].as_str()) {
                return Err(e);
            }
        } else if same_text(arg, "--profile") {
            if !more {
                return Err("--profile takes ci, full or xl".to_owned());
            }
            assert(model[i + 1] == args@[i + 1]@);
            match profile_named(args[i + 1].as_str()) {
                Some(p) => {
                    chosen = p;
                },
                None => {
                    return Err("--profile takes ci, full or xl".to_owned());
                },
            }
        } else if same_text(arg, "--out") {
            if !more {
                return Err("--out takes a path".to_owned());
            }
            assert(model[i + 1] == args@[i + 1]@);
            out = Some(args[i + 1].clone());
        } else if same_text(arg, "-h") || same_text(arg, "--help") {
            return Ok(SweepCommand::Help);
        } else {
            return Err(concat2("unknown argument ", debug_str(arg).as_str()));
        }
        i = i + 2;
    }
    Ok(SweepCommand::Sweep { profile: chosen, out })
}

} // verus!
