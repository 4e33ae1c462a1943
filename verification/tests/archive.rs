use libviprs_storage::storage::aggregate::{
    check, dir_for_document, filed, parse_command, verify, Command,
};
use libviprs_storage::storage::archive::{
    admission, admission_of_text, compact_timestamp, file_name, index_with, prepare, run_id, seal, settle,
    ArchiveEntry, ArchiveError, Refusal,
};
use libviprs_storage::storage::json::RawJson;

/// A document that may be filed.
const GOOD: &str = r#"{
  "startedAt": "2026-09-13T21:45:00.123Z",
  "provenance": {
    "emulated": false,
    "commit": "aaa", "dirty": false,
    "library": {"commit": "1234abc", "dirty": false},
    "os": "linux", "arch": "x86_64", "cpuModel": "Test CPU",
    "node": {"debugAssertions": false, "buildProfile": "release", "rustflags": "", "rustc": "rustc 1.90"},
    "filesystem": {"fsType": "ext4", "scratchDir": "/tmp/x"},
    "invocation": {"argv": ["a"], "command": "storage", "cwd": "/", "resolved": {"scenarios": ["generate"], "reps": 7}}
  },
  "cells": [{"backend": "pmtiles", "scenario": "generate", "scale": 93, "outcome": "ok", "storageAttested": true, "reps": 7}]
}"#;

fn doc(text: &str) -> RawJson {
    RawJson::parse(text).unwrap()
}

fn codes(text: &str) -> Vec<&'static str> {
    admission(&doc(text)).iter().map(|r| r.code).collect()
}

#[test]
fn a_document_with_all_its_evidence_is_admitted() {
    assert!(codes(GOOD).is_empty());
    assert!(admission_of_text("{").is_err());
}

#[test]
fn only_an_observed_native_run_is_admitted() {
    assert_eq!(codes(&GOOD.replace("\"emulated\": false", "\"emulated\": true")), vec!["emulated"]);
    assert_eq!(codes(&GOOD.replace("\"emulated\": false", "\"emulated\": \"unknown\"")), vec!["emulated"]);
    let absent = admission(&doc(&GOOD.replace("\"emulated\": false,", "")));
    assert_eq!(absent.len(), 1);
    assert_eq!(
        absent[0].message(),
        "REFUSED[emulated]: provenance.emulated is absent, so this document records no platform at all, which is the defect docs/pmtiles-benchmarks.md has"
    );
    let evidence = GOOD.replace(
        "\"emulated\": false,",
        "\"emulated\": true, \"emulationEvidence\": [{\"source\": \"cpuinfo\", \"verdict\": \"translated\"}, {}],",
    );
    assert!(admission(&doc(&evidence))[0].detail.ends_with("(evidence: cpuinfo=translated, ?=?)"));
}

#[test]
fn both_trees_name_a_commit_and_say_whether_they_are_dirty() {
    assert_eq!(codes(&GOOD.replace("\"commit\": \"aaa\"", "\"commit\": \" \"")), vec!["commit"]);
    assert_eq!(codes(&GOOD.replace("\"commit\": \"1234abc\", \"dirty\": false", "\"x\": 1")), vec!["commit", "dirty"]);
    let dirty = GOOD.replace("\"commit\": \"aaa\", \"dirty\": false", "\"commit\": \"aaa\", \"dirty\": true");
    assert_eq!(codes(&dirty), vec!["dirty-not-allowed"]);
    let allowed = dirty.replace("\"emulated\": false,", "\"emulated\": false, \"allowDirty\": true,");
    let refusals = admission(&doc(&allowed));
    assert_eq!(refusals[0].code, "dirty-not-stamped");
    assert_eq!(
        refusals[0].detail,
        "provenance.allowDirty is true but 1 of 1 cells do not carry dirty: true (cell[0] pmtiles/generate@93), so a reader quoting one cell would not know"
    );
    assert!(codes(&allowed.replace("\"reps\": 7}]", "\"reps\": 7, \"dirty\": true}]")).is_empty());
}

#[test]
fn only_a_plain_release_build_is_admitted() {
    assert_eq!(codes(&GOOD.replace("\"debugAssertions\": false", "\"debugAssertions\": true")), vec!["debug-build"]);
    assert_eq!(codes(&GOOD.replace("\"release\"", "\"dev\"")), vec!["debug-build"]);
    let flags = admission(&doc(&GOOD.replace("\"rustflags\": \"\"", "\"rustflags\": \"-Zfoo\"")));
    assert_eq!(flags[0].code, "perturbing-rustflags");
    assert_eq!(flags[0].detail, "RUSTFLAGS carries \"-Z\" (\"-Zfoo\"), which changes the code being timed");
}

#[test]
fn the_scratch_filesystem_is_recorded() {
    assert_eq!(codes(&GOOD.replace("\"fsType\": \"ext4\"", "\"fsType\": null")), vec!["filesystem"]);
    assert_eq!(codes(&GOOD.replace(", \"scratchDir\": \"/tmp/x\"", "")), vec!["filesystem"]);
    assert_eq!(codes(&GOOD.replace("\"ext4\"", "\"tmpfs\"")), vec!["tmpfs"]);
    assert!(codes(&GOOD.replace("\"fsType\": \"ext4\"", "\"declaredTmpfs\": true, \"fsType\": \"tmpfs\"")).is_empty());
}

#[test]
fn the_invocation_is_resolved_and_the_cells_agree_with_it() {
    assert_eq!(codes(&GOOD.replace("\"cwd\": \"/\", ", "")), vec!["invocation"]);
    assert_eq!(codes(&GOOD.replace("[\"generate\"]", "[\"all\"]")), vec!["scenarios-unresolved"]);
    assert_eq!(codes(&GOOD.replace("[\"generate\"]", "[]")), vec!["scenarios-unresolved"]);
    let reps = admission(&doc(&GOOD.replace("\"reps\": 7}]", "\"reps\": 1}]")));
    assert_eq!(reps[0].code, "reps-disagree");
    assert_eq!(reps[0].detail, "the invocation resolved to 7 repetitions per cell but cell[0] pmtiles/generate@93 has reps 1");
    assert_eq!(codes(&GOOD.replace("\"reps\": 7}}", "\"reps\": \"7\"}}")), vec!["reps-disagree"]);
}

#[test]
fn every_cell_is_attested_or_explained() {
    assert_eq!(codes(&GOOD.replace("\"storageAttested\": true", "\"storageAttested\": false")), vec!["unattested-cell"]);
    assert_eq!(codes(&GOOD.replace("\"outcome\": \"ok\"", "\"outcome\": \"failed\"")), vec!["outcome-without-reason"]);
    assert!(codes(&GOOD.replace("\"outcome\": \"ok\"", "\"outcome\": \"failed\", \"reason\": \"x\"")).is_empty());
    let none = GOOD.split("\"cells\"").next().unwrap().to_string() + "\"cells\": []}";
    assert_eq!(codes(&none), vec!["no-cells"]);
}

#[test]
fn the_run_id_comes_from_the_run_alone() {
    assert_eq!(run_id(&doc(GOOD)).unwrap(), "20260913T214500Z-1234abc-3a7fcb37");
    let no_fraction = GOOD.replace("21:45:00.123Z", "21:45:00Z");
    assert_eq!(run_id(&doc(&no_fraction)).unwrap(), "20260913T214500Z-1234abc-3a7fcb37");
    assert_eq!(
        run_id(&doc("{}")).unwrap_err().message(),
        "startedAt is absent, and a run id derived around a missing field would collide with every other run missing it"
    );
    let (sealed, _) = seal(&doc(GOOD)).unwrap();
    assert_eq!(run_id(&sealed).unwrap(), run_id(&doc(GOOD)).unwrap());
    let at = sealed.get("combinedAt").and_then(|v| v.as_str()).unwrap().to_string();
    assert_eq!(at.len(), 24);
    assert!(at.ends_with('Z'));
}

#[test]
fn filing_a_run_twice_files_it_once() {
    let filing = prepare(&doc(GOOD), "2026-01-01T00:00:00.000Z").unwrap();
    let digest = filing.digests.document.clone();
    assert!(settle(&filing.run_id, &digest, None).unwrap());
    assert!(!settle(&filing.run_id, &digest, Some(&filing.sealed)).unwrap());
    let collision = settle(&filing.run_id, "sha256:other", Some(&filing.sealed)).unwrap_err();
    assert!(matches!(&collision, ArchiveError::Collision { incoming, .. } if incoming == "sha256:other"));
    assert!(collision.message().contains("is already archived with document digest"));
    assert_eq!(file_name("abc"), "abc.json");
    let again = prepare(&filing.sealed, "2027-01-01T00:00:00.000Z").unwrap();
    assert_eq!(again.run_id, filing.run_id);
    assert_eq!(again.digests.document, digest);
    let refused = prepare(&doc("{}"), "now").unwrap_err();
    assert!(matches!(refused, ArchiveError::Refused(_)));
    let unnamed = prepare(&doc(&GOOD.replace("\"startedAt\": \"2026-09-13T21:45:00.123Z\",", "")), "now");
    assert!(matches!(unnamed, Err(ArchiveError::RunId(_))));
    let odd = prepare(&doc(&GOOD.replace("\"os\": \"linux\",", "\"os\": \"linux\", \"n\": 1e30,")), "now");
    assert!(matches!(odd, Err(ArchiveError::Canonical(_))));
}

#[test]
fn the_index_is_sorted_and_lists_a_run_once() {
    let rows = index_with(Vec::new(), "b", "sha256:1", &doc(GOOD)).unwrap();
    let rows = index_with(rows, "a", "sha256:2", &doc("{}")).unwrap();
    let ids: Vec<String> = rows
        .iter()
        .map(|r| r.get("runId").and_then(|v| v.as_str()).unwrap().to_string())
        .collect();
    assert_eq!(ids, vec!["a", "b"]);
    assert_eq!(rows[1].get("libraryCommit").and_then(|v| v.as_str()), Some("1234abc"));
    assert_eq!(rows[0].get("fsType"), Some(&RawJson::Null));
    assert_eq!(rows[0].get("file").and_then(|v| v.as_str()), Some("a.json"));
    assert!(index_with(rows, "a", "sha256:3", &doc("{}")).is_none());
}

#[test]
fn a_refusal_is_an_answer_and_not_a_failure() {
    let ok = check("d.json", GOOD).unwrap();
    assert_eq!((ok.code, ok.lines), (0, vec!["d.json: admissible".to_string()]));
    let bad = check("d.json", &GOOD.replace("\"ext4\"", "\"tmpfs\"")).unwrap();
    assert_eq!(bad.code, 1);
    assert_eq!(bad.lines[0], "d.json: refused for 1 reasons");
    assert!(bad.lines[1].starts_with("  REFUSED[tmpfs]: "));
    assert!(check("d.json", "{").unwrap_err().starts_with("d.json: the document is not JSON: "));
}

#[test]
fn filing_is_answered() {
    let entry = |written: bool| ArchiveEntry {
        run_id: "r".to_string(),
        path: "r.json".to_string(),
        document_digest: "sha256:0".to_string(),
        written,
    };
    assert_eq!(filed("d", &Ok(entry(true))).lines, vec!["archived d as r (sha256:0)"]);
    assert_eq!(
        filed("d", &Ok(entry(false))).lines,
        vec!["d is already archived as r, and its digest still matches, so nothing changed"]
    );
    let refused = Err(ArchiveError::Refused(vec![Refusal { code: "x", detail: "y".to_string() }]));
    let answer = filed("d", &refused);
    assert_eq!(answer.code, 1);
    assert_eq!(
        answer.lines,
        vec!["d: refused for 1 reasons, and nothing was written", "  REFUSED[x]: y"]
    );
    let io = filed("d", &Err(ArchiveError::Io("disk full".to_string())));
    assert_eq!((io.code, io.lines), (1, vec!["d: disk full".to_string()]));
}

#[test]
fn verification_is_answered() {
    let (sealed, _) = seal(&doc(GOOD)).unwrap();
    let text = sealed.to_pretty();
    assert_eq!(verify(&text).unwrap().code, 0);
    let moved = verify(&text.replace("\"scale\": 93", "\"scale\": 94")).unwrap();
    assert_eq!(moved.code, 1);
    assert_eq!(
        moved.lines[2],
        "  the runners and measurements block(s) did not move, so this is a change to the numbers rather than to the environment they were measured in"
    );
    assert!(verify("{").is_err());
}

fn args(list: &[&str]) -> Vec<String> {
    list.iter().map(|s| s.to_string()).collect()
}

#[test]
fn the_door_takes_exactly_one_mode() {
    let parse = |list: &[&str]| parse_command(&args(list), "/tmp");
    assert!(matches!(parse(&["--check", "a"]), Ok(Command::Check { document }) if document == "a"));
    assert!(matches!(
        parse(&["--root", "r", "--archive", "a"]),
        Ok(Command::Archive { document, root: Some(root) }) if document == "a" && root == "r"
    ));
    assert!(matches!(parse(&["--verify", "a"]), Ok(Command::Verify { .. })));
    assert!(matches!(parse(&["--provenance"]), Ok(Command::Provenance { scratch }) if scratch == "/tmp"));
    assert!(matches!(
        parse(&["--scratch", "s", "--provenance"]),
        Ok(Command::Provenance { scratch }) if scratch == "s"
    ));
    assert!(matches!(parse(&["-h"]), Ok(Command::Help)));
    assert_eq!(parse(&[]).unwrap_err(), "no mode given");
    assert_eq!(parse(&["--check"]).unwrap_err(), "--check needs a document path");
    assert_eq!(
        parse(&["--check", "a", "--verify", "b"]).unwrap_err(),
        "give exactly one of --check, --archive, --verify, --provenance"
    );
    assert_eq!(parse(&["--check", "a", "--provenance"]).unwrap_err(), "give exactly one mode");
    assert_eq!(parse(&["--root"]).unwrap_err(), "--root needs a directory");
    assert_eq!(parse(&["--scratch"]).unwrap_err(), "--scratch needs a directory");
    assert_eq!(parse(&["x\n"]).unwrap_err(), "unknown argument \"x\\n\"");
}

#[test]
fn fractions_of_a_second_do_not_name_a_run() {
    let id = |stamp: &str| run_id(&doc(&GOOD.replace("2026-09-13T21:45:00.123Z", stamp))).unwrap();
    assert_eq!(id("2026-09-13T21:45:00.123+02:00"), id("2026-09-13T21:45:00+02:00"));
    assert_eq!(id("2026-09-13T21:45:00.5Z"), id("2026-09-13T21:45:00Z"));
    assert!(id("2026-09-13T21:45:00.999+02:00").starts_with("20260913T2145000200-"));
    assert_ne!(id("2026-09-13T21:45:00.999Z"), id("2026-09-13T21:45:01.000Z"));
}

#[test]
fn of_what_follows_a_point_the_zone_alone_stays() {
    assert_eq!(compact_timestamp("2026-09-13T21:45:00.123Z"), "20260913T214500Z");
    assert_eq!(compact_timestamp("2026-09-13T21:45:00.123-05:30"), "20260913T2145000530");
    assert_eq!(compact_timestamp("2026-09-13T21:45:00.123"), "20260913T214500");
    assert_eq!(compact_timestamp("2026-09-13T21:45:00+02:00"), "20260913T2145000200");
    assert_eq!(compact_timestamp("0.1xZ"), "0Z");
    assert_eq!(compact_timestamp("0.1x"), "0");
    assert_eq!(compact_timestamp("0.+02:00"), "0");
    assert_eq!(compact_timestamp("0.1+02:00Z"), "0Z");
    assert_eq!(compact_timestamp("0.1.2Z"), "0Z");
}

#[test]
fn a_refusal_prints_numbers_as_values() {
    let detail = |value: &str| {
        let text = GOOD.replace("\"emulated\": false", &format!("\"emulated\": {value}"));
        admission(&doc(&text)).remove(0).detail
    };
    assert!(detail("1.50").starts_with("provenance.emulated is 1.5, so"), "{}", detail("1.50"));
    assert!(detail("1e2").starts_with("provenance.emulated is 100.0, so"), "{}", detail("1e2"));
    assert!(detail("7").starts_with("provenance.emulated is 7, so"), "{}", detail("7"));
}

#[test]
fn the_family_of_a_document_decides_its_directory() {
    let dir = |text: &str| dir_for_document(&doc(text));
    assert_eq!(dir("{}"), "archive/storage");
    assert_eq!(dir("{\"family\":1}"), "archive/storage");
    assert_eq!(dir("{\"family\":\"libviprs-storage\"}"), "archive/storage");
    assert_eq!(dir("{\"family\":\"storage\"}"), "archive/storage");
    assert_eq!(dir("{\"family\":\"libviprs-engines\"}"), "archive/engines");
    assert_eq!(dir("{\"family\":\"a/b\"}"), "archive/a_b");
}

#[test]
fn what_is_filed_verifies() {
    let filing = prepare(&doc(GOOD), "2026-09-14T00:00:00.000Z").unwrap();
    let text = filing.sealed.to_pretty();
    assert_eq!(doc(&text), filing.sealed);
    let answer = verify(&text).unwrap();
    assert_eq!(answer.code, 0);
    assert_eq!(
        answer.lines,
        vec![format!("verified: all four digests still hold (document {})", filing.digests.document)]
    );
    let tampered = verify(&text.replace("\"scale\": 93", "\"scale\": 94")).unwrap();
    assert_eq!(tampered.code, 1);
    assert!(tampered.lines[0].starts_with("REFUSED: the cells block moved."));
}
