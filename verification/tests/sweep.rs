use libviprs_storage::options::{
    check_family, parse_concurrency, parse_sizes, parse_sweep, parse_versions, Options, SweepCommand,
};
use libviprs_storage::sha256::Sha256Stream;
use libviprs_storage::storage::archive::run_id;
use libviprs_storage::storage::artefacts::{
    archive_digest, default_output_path, occupancy, output_path, tree_digest, Entry, HashedFile,
    NoReaders, Scratch,
};
use libviprs_storage::storage::attest::{
    attest, regime_word, Attestation, EquivalenceSample, ObservedArchive, Regime, RootEntry,
};
use libviprs_storage::storage::cells::{smoke_cell, Backend, Profile, Source, SEED};
use libviprs_storage::storage::document::{
    cell_fields, document_fields, nanoseconds_in, seed_text, Document, DocumentCell, FactValue,
    MachineLoad, Measurement, Summary,
};
use libviprs_storage::storage::heap::{arm, Counting};
use libviprs_storage::storage::json::RawJson;
use libviprs_storage::storage::model::{entries_for, Priced};
use libviprs_storage::storage::plan::plan;
use libviprs_storage::storage::scenarios::facts::{
    Invariants, Isolation, MetricSpec, RepFacts, RowOutcome, ScenarioRun, Series, Skip, Unit,
};
use libviprs_storage::storage::scenarios::facts::Direction;
use libviprs_storage::storage::scenarios::reference::coordinate_sets;
use libviprs_storage::storage::sweep::{
    after_flag, attest_artefacts, backend_order, byte_equivalence, cell_steps, child_args,
    equivalence_coords, fold_children, now_iso, parse_child_args, registry, rows_from_wire, scales,
    scenario_named, verdict_for, walked, with_peak, WrittenShape,
};
use libviprs_storage::storage::walk::{step_run, Sweep};
use libviprs_storage::storage::wire::{merge, WireRun};

fn args(list: &[&str]) -> Vec<String> {
    list.iter().map(|s| s.to_string()).collect()
}

fn facts(bytes: u64) -> RepFacts {
    let mut invariants = Invariants::default();
    invariants.output_bytes = Some(bytes);
    RepFacts { invariants, scratch: None }
}

fn run(metric: &'static str, samples: &[u64], bytes: u64) -> WireRun {
    WireRun::from_run(ScenarioRun {
        series: vec![Series {
            metric: MetricSpec { name: metric, unit: Unit::Milliseconds, direction: Direction::LowerIsBetter },
            samples: samples.to_vec(),
        }],
        reps: vec![facts(bytes)],
        discarded_warmup: Vec::new(),
        peak_rss_bytes: Some(bytes),
        heap_peak_bytes: None,
    })
}

#[test]
fn the_registry_has_every_scenario_once() {
    let names: Vec<String> = registry().into_iter().map(|s| s.name).collect();
    assert_eq!(names.len(), 14);
    assert_eq!(names[0], "generate");
    for name in Profile::Full.scenario_names() {
        assert_eq!(names.iter().filter(|n| **n == name).count(), 1, "{name}");
    }
    assert!(scenario_named("read_concurrent@8").is_some());
    assert!(scenario_named("read_concurrent@16").is_none());
    assert_eq!(walked(Profile::Full).len(), 12);
    assert_eq!(walked(Profile::Ci).len(), 8);
    assert_eq!(scenario_named("requests").unwrap().reps(Profile::Full), 1);
    assert_eq!(scenario_named("generate").unwrap().reps(Profile::Full), 7);
    assert_eq!(scenario_named("open").unwrap().reps(Profile::Ci), 3);
}

#[test]
fn which_backend_leads_alternates() {
    assert_eq!(backend_order(0), vec![Backend::PmTiles, Backend::Directory]);
    assert_eq!(backend_order(1), vec![Backend::Directory, Backend::PmTiles]);
    let scenarios = walked(Profile::Full);
    let steps = cell_steps(&scenarios, Profile::Full, &vec![Backend::PmTiles, Backend::Directory]);
    let rounds: u32 = scenarios.iter().map(|s| s.rounds(Profile::Full)).sum();
    assert_eq!(steps.len(), 2 * rounds as usize);
    let writes = scenarios[0].rounds(Profile::Full) as usize;
    assert_eq!(writes, 7);
    for (i, step) in steps[..2 * writes].iter().enumerate() {
        let backend = if i % 2 == 0 { Backend::PmTiles } else { Backend::Directory };
        assert_eq!((step.scenario, step.backend), (0, backend));
        assert_eq!((step.round, step.rounds, step.reps), (i as u32 / 2, 7, 1));
    }
    assert_eq!((steps[14].scenario, steps[14].backend), (1, Backend::Directory));
    assert!(steps.windows(2).all(|w| w[0].scenario != w[1].scenario || w[0].backend != w[1].backend));
    let read = scenario_named("read_random").unwrap();
    assert_eq!(read.rounds(Profile::Full), 1);
    let last = steps.iter().find(|s| scenarios[s.scenario].name == "read_random").unwrap();
    assert_eq!((last.rounds, last.reps), (1, 20));
    let written = 2 * 7;
    let one = cell_steps(&scenarios, Profile::Full, &vec![Backend::Directory]);
    assert_eq!(one.len(), rounds as usize + written / 2);
    let none = cell_steps(&scenarios, Profile::Full, &Vec::new());
    assert_eq!(none.len(), written);
}

#[test]
fn a_child_reads_the_task_its_parent_wrote() {
    let cell = smoke_cell(Source::Gradient);
    let list = child_args(Backend::Directory, &cell, "read_random", 20, Some("/tmp/a"));
    assert_eq!(list, args(&["directory", "2048x2048@256+gradient", "read_random", "20", "/tmp/a"]));
    let task = parse_child_args(&list).unwrap();
    assert_eq!((task.backend, task.reps, task.scenario.name.as_str()), (Backend::Directory, 20, "read_random"));
    assert!(task.cell == cell);
    assert_eq!(task.artefact.as_deref(), Some("/tmp/a"));
    let e = |list: &[&str]| parse_child_args(&args(list)).unwrap_err();
    assert_eq!(e(&["pmtiles"]), "--storage-single <backend> <cell> <scenario> <reps> [artefact]");
    assert_eq!(e(&["zip", "a", "b", "1"]), "unknown backend \"zip\"");
    assert_eq!(e(&["pmtiles", "a", "b", "1"]), "unparseable cell \"a\"");
    assert_eq!(e(&["pmtiles", "2048x2048@256+gradient", "b", "1"]), "unknown scenario \"b\"");
    let lax = parse_child_args(&args(&["pmtiles", "2048x2048@256+gradient", "open", "many"])).unwrap();
    assert_eq!((lax.reps, lax.artefact), (1, None));
    assert_eq!(after_flag(&args(&["x", "--storage-single", "a", "b"])), Some(args(&["a", "b"])));
    assert_eq!(after_flag(&args(&["x", "a"])), None);
}

#[test]
fn children_are_folded_by_metric() {
    let merged = merge(Some(run("wall", &[1], 5)), run("wall", &[2], 5));
    assert_eq!((merged.series.len(), merged.series[0].samples.clone()), (1, vec![1, 2]));
    assert_eq!((merged.reps.len(), merged.peak_rss_bytes), (2, Some(5)));
    let odd = merge(Some(run("wall", &[1], 5)), run("cpu", &[2], 9));
    assert_eq!(odd.series.len(), 2);
    assert_eq!(odd.peak_rss_bytes, Some(9));
    assert_eq!(
        odd.reason.as_deref(),
        Some("repetitions disagreed about which series they publish; cpu appeared partway through")
    );
    let folded = fold_children(vec![None, Some(run("wall", &[1], 5)), Some(run("wall", &[2], 5))]).unwrap();
    assert_eq!(folded.series[0].samples, vec![1, 2]);
    assert_eq!(fold_children(vec![None]).unwrap_err(), "no repetition produced a sample");
    let alone = step_run(Isolation::ProcessPerScenario, vec![Err("crashed".to_string())]);
    assert_eq!(alone.unwrap_err(), "crashed");
    let rest = step_run(Isolation::ProcessPerRep, vec![Err("crashed".to_string()), Ok(run("wall", &[3], 1))]);
    assert_eq!(rest.unwrap().series[0].samples, vec![3]);
    assert_eq!(with_peak(run("wall", &[1], 5), Some(8)).peak_rss_bytes, Some(8));
    assert_eq!(with_peak(run("wall", &[1], 5), Some(0)).peak_rss_bytes, Some(5));
    assert_eq!(with_peak(run("wall", &[1], 5), None).peak_rss_bytes, Some(5));
}

#[test]
fn rows_carry_what_their_repetitions_agree_on() {
    let cell = smoke_cell(Source::Gradient);
    let scenario = scenario_named("generate").unwrap();
    let rows = |wire: &WireRun| rows_from_wire(Backend::PmTiles, cell, &scenario, Profile::Full, wire, MachineLoad::unknown(), 4);
    let good = merge(Some(run("wall", &[1], 5)), run("wall", &[2], 5));
    let got = rows(&good);
    assert_eq!(got.len(), 1);
    assert_eq!((got[0].metric.as_str(), got[0].outcome, got[0].reps_declared), ("wall", RowOutcome::Passed, 7));
    assert_eq!(got[0].invariants.invariants.output_bytes, Some(5));
    let apart = merge(Some(run("wall", &[1], 5)), run("wall", &[2], 6));
    let got = rows(&apart);
    assert_eq!(got[0].outcome, RowOutcome::Refused);
    assert_eq!(got[0].reason.as_deref(), Some("output_bytes differs between reps"));
    let declined = WireRun::from_skip(&Skip::skipped("no cores".to_string()));
    let got = rows(&declined);
    assert_eq!((got.len(), got[0].outcome, got[0].samples.len()), (1, RowOutcome::Skipped, 0));
    assert_eq!(got[0].reason.as_deref(), Some("no cores"));
    let failed = WireRun::from_skip(&Skip::failed("x".to_string()));
    assert_eq!(rows(&failed)[0].outcome, RowOutcome::Failed);
}

fn sample(matched: u32) -> EquivalenceSample {
    EquivalenceSample { seed: 1, sampled: 64, matched }
}

#[test]
fn an_artefact_is_attested_from_what_was_observed() {
    let cell = smoke_cell(Source::Gradient);
    let shapes = vec![
        WrittenShape { backend: Backend::PmTiles, shape: Some((93, 0)) },
        WrittenShape { backend: Backend::Directory, shape: None },
    ];
    let verdicts = attest_artefacts(&cell, &shapes, &sample(64));
    assert_eq!(verdict_for(&verdicts, Backend::PmTiles), Some(true));
    assert_eq!(verdict_for(&verdicts, Backend::Directory), Some(true));
    let unread = attest_artefacts(
        &cell,
        &vec![WrittenShape { backend: Backend::PmTiles, shape: None }],
        &sample(64),
    );
    assert_eq!(verdict_for(&unread, Backend::PmTiles), Some(false));
    assert_eq!(verdict_for(&unread, Backend::Directory), None);
    assert_eq!(
        unread[0].1.reasons(),
        vec!["the pmtiles archive's root directory has no entries, so no regime was observed and the cell's declared regime 'root' rests on nothing"]
    );
    let differ = attest_artefacts(&cell, &shapes, &sample(63));
    assert_eq!(verdict_for(&differ, Backend::Directory), Some(false));
    assert!(differ[1].1.reasons()[0].starts_with("1 of 64 sampled coordinates returned different bytes"));
}

#[test]
fn a_declared_regime_is_only_compared() {
    let archive = |entries: Vec<RootEntry>, leaf_directories: u64| ObservedArchive {
        backend: "pmtiles".to_string(),
        root_entries: entries,
        leaf_directories,
        tiles: 2,
    };
    let leaf = archive(vec![RootEntry::LeafPointer], 1);
    assert_eq!(leaf.observed_regime(), Some(Regime::Leaves));
    assert!(matches!(
        attest(Regime::Leaves, &leaf, &sample(64)),
        Attestation::Attested { observed_regime: Regime::Leaves, .. }
    ));
    assert_eq!(attest(Regime::Root, &leaf, &sample(64)).reasons().len(), 1);
    let torn = archive(vec![RootEntry::Tile], 3);
    assert_eq!(attest(Regime::Root, &torn, &sample(64)).reasons().len(), 1);
    let small = EquivalenceSample { seed: 1, sampled: 10, matched: 10 };
    assert_eq!(
        attest(Regime::Leaves, &leaf, &small).reasons(),
        vec!["byte equivalence was checked over 10 coordinates and the floor is 64"]
    );
    assert_eq!(regime_word(Regime::Leaves), "leaf");
}

#[test]
fn bytes_are_compared_between_at_least_two_readers() {
    let tile = |b: u8| Some(vec![b]);
    let reads = vec![
        Some(vec![tile(1), tile(1)]),
        Some(vec![tile(1), tile(2)]),
        Some(vec![None, None]),
        Some(vec![tile(1), None]),
        None,
    ];
    let got = byte_equivalence(2, &reads);
    assert_eq!((got.sampled, got.matched), (5, 2));
    let alone = byte_equivalence(1, &reads);
    assert_eq!((alone.sampled, alone.matched), (0, 0));
    let small = plan(2048, 2048, 256).unwrap();
    let large = plan(8192, 8192, 256).unwrap();
    for (p, n) in [(small, 93), (large, 512)] {
        let compared = equivalence_coords(&p, Profile::Ci);
        assert_eq!(compared, coordinate_sets(&p, Profile::Ci, SEED).random);
        assert_eq!(compared.len(), n);
    }
}

fn plain_summary(value: u64) -> Summary {
    Summary {
        median: value,
        min: value,
        max: value,
        iqr: 0,
        cov: None,
        ci95: (value, value),
        ci_half_width_pct: None,
        p95_of_samples: value,
        tail_value: value,
    }
}

/// A sweep of one cell, with one run for every scenario on every backend.
fn swept(provenance: &str, load: MachineLoad) -> Document {
    let mut sweep = Sweep::begin(Profile::Ci, "2026-01-02T03:04:05.678Z".to_string(), load);
    let (cell, plan) = sweep.next_cell().unwrap();
    assert_eq!(plan.levels.len(), 12);
    let shapes = vec![
        WrittenShape { backend: Backend::PmTiles, shape: Some((93, 0)) },
        WrittenShape { backend: Backend::Directory, shape: None },
    ];
    sweep.written(&cell, &shapes, &sample(64));
    let mut filed = 0;
    while let Some(step) = sweep.next_step() {
        let Some(children) = sweep.came(step, Ok(run("wall", &[1], 5))) else { continue };
        assert_eq!(children.len(), step.rounds as usize);
        filed += 1;
        let wire = run("wall", &[1], 5);
        let rows: Vec<DocumentCell> = sweep
            .earned(cell, step, &wire, MachineLoad::unknown(), 1)
            .into_iter()
            .map(|report| DocumentCell::from_report(report, Some(plain_summary(1)), None, None))
            .collect();
        sweep.file(step, rows);
    }
    assert_eq!(filed, 16);
    assert!(sweep.next_cell().is_none());
    assert!(sweep.next_step().is_none());
    sweep.end("t1".to_string(), RawJson::parse(provenance).unwrap())
}

#[test]
fn the_sweep_is_walked_to_its_end() {
    let doc = swept("{}", MachineLoad::unknown());
    assert_eq!(doc.cells.len(), 16);
    assert!(doc.cells.iter().all(|c| c.attested == Some(true)));
    assert!(doc.cells.iter().all(|c| c.dirty.is_none()));
    assert_eq!(doc.finished_at.as_deref(), Some("t1"));
    assert_eq!(doc.run_id, None);
    assert_eq!(doc.invariants.len(), 2);
    assert_eq!(doc.invariants[0].value, FactValue::Count(5));
    let priced = entries_for(&doc.cells);
    assert!(priced.is_empty());
}

#[test]
fn children_come_back_by_backend_in_their_rounds() {
    let mut sweep = Sweep::begin(Profile::Ci, "t0".to_string(), MachineLoad::unknown());
    let (cell, _) = sweep.next_cell().unwrap();
    let shapes = vec![
        WrittenShape { backend: Backend::PmTiles, shape: Some((93, 0)) },
        WrittenShape { backend: Backend::Directory, shape: None },
    ];
    sweep.written(&cell, &shapes, &sample(64));
    let mut back = Vec::new();
    for i in 0..6u64 {
        let step = sweep.next_step().unwrap();
        let came = if i == 2 { Err("crashed".to_string()) } else { Ok(run("wall", &[i], 5)) };
        if let Some(children) = sweep.came(step, came) {
            let samples: Vec<Option<u64>> =
                children.iter().map(|c| c.as_ref().ok().map(|w| w.series[0].samples[0])).collect();
            back.push((step.backend, samples));
        }
    }
    assert_eq!(
        back,
        vec![
            (Backend::PmTiles, vec![Some(0), None, Some(4)]),
            (Backend::Directory, vec![Some(1), Some(3), Some(5)]),
        ]
    );
    assert!(sweep.children.is_empty());
}

#[test]
fn the_end_of_a_sweep_says_where_it_ran() {
    let provenance = "{\"dirty\":false,\"library\":{\"commit\":\"0123456789abcdef\",\"dirty\":true},\
        \"os\":\"linux\",\"arch\":\"x86_64\",\"cpuModel\":\"m\",\"node\":{\"rustc\":\"1\"}}";
    let mut load = MachineLoad::unknown();
    load.quiet = Some(true);
    let doc = swept(provenance, load);
    assert_eq!(doc.starting_load, Some(load));
    assert!(doc.cells.iter().all(|c| c.dirty == Some(true)));
    let evidence = RawJson::Object(vec![
        ("startedAt".to_string(), RawJson::Str("2026-01-02T03:04:05.678Z".to_string())),
        ("provenance".to_string(), RawJson::parse(provenance).unwrap()),
    ]);
    let id = run_id(&evidence).unwrap();
    assert_eq!(doc.run_id.as_deref(), Some(id.as_str()));
    assert!(id.starts_with("20260102T030405Z-"));
    let named = |scenario: &str| {
        doc.cells.iter().filter(|c| c.scenario == scenario).map(|c| c.oversubscribed).collect::<Vec<_>>()
    };
    assert_eq!(named("read_random"), vec![false, false]);
    let kept = doc.provenance.unwrap();
    assert_eq!(kept.get("os").and_then(|o| o.as_str()), Some("linux"));
}

#[test]
fn a_rung_above_the_host_is_marked() {
    let cell = smoke_cell(Source::Gradient);
    let marked = |name: &str, ncpu: usize| {
        let scenario = scenario_named(name).unwrap();
        rows_from_wire(
            Backend::PmTiles,
            cell,
            &scenario,
            Profile::Full,
            &run("p50", &[1], 5),
            MachineLoad::unknown(),
            ncpu,
        )[0]
        .oversubscribed
    };
    assert!(marked("read_concurrent@8", 4));
    assert!(!marked("read_concurrent@8", 8));
    assert!(!marked("read_concurrent@1", 1));
}

#[test]
fn a_row_names_its_tail_by_how_many_samples_it_has() {
    let cell = smoke_cell(Source::Gradient);
    let scenario = scenario_named("open").unwrap();
    let tail = |n: usize| {
        let samples: Vec<u64> = (0..n as u64).collect();
        let report = rows_from_wire(
            Backend::PmTiles,
            cell,
            &scenario,
            Profile::Full,
            &run("p50", &samples, 5),
            MachineLoad::unknown(),
            4,
        )
        .pop()
        .unwrap();
        let summary = if n > 0 { Some(plain_summary(7)) } else { None };
        DocumentCell::from_report(report, summary, None, None).tail
    };
    assert_eq!(tail(0).map(|t| t.statistic), None);
    assert_eq!(tail(99).map(|t| (t.statistic, t.value)), Some(("max".to_string(), 7)));
    assert_eq!(tail(100).map(|t| (t.statistic, t.value)), Some(("p99".to_string(), 7)));
}

#[test]
fn only_the_measured_is_priced() {
    let cell = smoke_cell(Source::Gradient);
    let scenario = scenario_named("requests").unwrap();
    let mut wire = run("requests", &[1], 5);
    wire.reps[0].invariants.requests = Some(3);
    wire.reps[0].invariants.request_bytes = Some(900);
    wire.reps[0].invariants.filesystem_entries = Some(7);
    let mut cells = Vec::new();
    for _ in 0..2 {
        for report in rows_from_wire(Backend::PmTiles, cell, &scenario, Profile::Ci, &wire, MachineLoad::unknown(), 4) {
            cells.push(DocumentCell::from_report(report, Some(plain_summary(1)), None, None));
        }
    }
    let priced = entries_for(&cells);
    assert_eq!(priced.len(), 2);
    assert_eq!(priced[0].priced, Priced::Remote { requests: 3, bytes: 900 });
    assert_eq!(priced[1].priced, Priced::Sync { entries: 7 });
    assert_eq!((priced[0].priced.name(), priced[1].priced.name()), ("remote_cost_ms", "sync_cost_ms"));
}

#[test]
fn a_row_says_how_far_it_may_be_trusted() {
    let cell = smoke_cell(Source::Gradient);
    let scenario = scenario_named("open").unwrap();
    let report = || {
        rows_from_wire(Backend::PmTiles, cell, &scenario, Profile::Full, &run("p50", &[1], 5), MachineLoad::unknown(), 4)
            .pop()
            .unwrap()
    };
    let row = DocumentCell::from_report(report(), Some(plain_summary(1)), Some("cov 0.2".to_string()), Some(true));
    assert_eq!(row.key, "open.p50");
    assert_eq!(row.confidence, "low");
    assert_eq!(
        row.low_confidence_reasons,
        vec!["fewer than minReps: 1 of 20", "cov 0.2", "machine load unknown", "timer saturated"]
    );
    assert_eq!(row.tail.unwrap().statistic, "max");
    let mut quiet = report();
    quiet.min_reps = 1;
    quiet.machine_load.quiet = Some(true);
    let row = DocumentCell::from_report(quiet, Some(plain_summary(1)), None, Some(false));
    assert_eq!(row.confidence, "high");
    let mut counted = report();
    counted.unit = Unit::Bytes;
    let untimed = DocumentCell::from_report(counted, Some(plain_summary(1)), None, Some(true));
    assert_eq!(untimed.timer_saturated, None);
    assert!(!untimed.low_confidence_reasons.contains(&"timer saturated".to_string()));
    let mut empty = report();
    empty.samples = Vec::new();
    let bare = DocumentCell::from_report(empty, None, Some("cov 0.2".to_string()), Some(true));
    assert_eq!(bare.low_confidence_reasons, vec!["fewer than minReps: 0 of 20", "machine load unknown"]);
    let mut doc = Document::new(Profile::Ci, "t".to_string());
    doc.push(row);
    doc.rebuild_invariant_table();
    assert_eq!(doc.invariants.len(), 1);
    assert_eq!(doc.family, "libviprs-storage");
    assert_eq!(nanoseconds_in(Unit::Microseconds), Some(1_000));
    assert_eq!(nanoseconds_in(Unit::Bytes), None);
}

#[test]
fn a_document_declares_how_it_was_measured() {
    assert_eq!(document_fields().len(), 14);
    assert_eq!(cell_fields().len(), 32);
    assert_eq!(seed_text(0x5EED_1234_ABCD_0001), "0x5eed1234abcd0001");
    assert_eq!(seed_text(0x1f), "0x000000000000001f");
    let m = Measurement::declared(Profile::Full);
    assert_eq!((m.reps.generate, m.reps.read, m.interval_resamples), (7, 20, 2000));
    assert_eq!(m.seed, "0x5eed1234abcd0001");
    assert_eq!(scales(&Profile::Ci.cells()), vec![93]);
    let all = scales(&Profile::Full.cells());
    assert!(all.windows(2).all(|w| w[0] < w[1]));
    assert_eq!(now_iso().len(), 24);
}

#[test]
fn an_artefact_is_measured_and_hashed() {
    let entry = |is_dir: bool, len: u64| Entry { is_dir, len, allocated: 8 };
    assert_eq!(occupancy(None, &Vec::new()), None);
    assert_eq!(occupancy(Some(entry(false, 9)), &Vec::new()), Some((9, 1, 0, 8)));
    let found = vec![entry(true, 4096), entry(false, 10), entry(false, 5)];
    assert_eq!(occupancy(Some(entry(true, 4096)), &found), Some((15, 4, 2, 32)));
    let file = |path: &str, hash: &str| HashedFile { path: path.to_string(), hash: hash.to_string() };
    let want = "29bc4c3172bfea405ca0f9fdb88d76f2555c3213da28181745f15c92a16cfe0d";
    assert_eq!(tree_digest(&vec![file("c", "22"), file("a/b", "11")]), want);
    assert_eq!(tree_digest(&vec![file("a/b", "11"), file("c", "22")]), want);
    assert_eq!(Scratch::new("/tmp", 7, 1).path(), "/tmp/libviprs-storage-7-1");
    assert_ne!(Scratch::new("/tmp", 7, 1).path(), Scratch::new("/tmp", 7, 11).path());
    assert_eq!(NoReaders.fresh().unwrap_err(), "this scenario has no artefact to read");
    assert_eq!(default_output_path("report"), "report/storage/storage-results.json");
    assert_eq!(output_path(Some("x.json"), Some("r"), "d"), "x.json");
    assert_eq!(output_path(Some(""), Some("r/"), "d"), "r/storage/storage-results.json");
    assert_eq!(output_path(None, Some(""), "d"), "d/storage/storage-results.json");
}

fn read(chunks: &[&[u8]]) -> Sha256Stream {
    let mut stream = Sha256Stream::new();
    for chunk in chunks {
        assert!(stream.fits(chunk.len()));
        stream.update(chunk);
    }
    stream
}

#[test]
fn a_file_is_hashed_as_it_is_read() {
    let abc = "ba7816bf8f01cfea414140de5dae2223b00361a396177a9cb410ff61f20015ad";
    assert_eq!(read(&[b"abc"]).finish(), abc);
    assert_eq!(archive_digest(read(&[b"a", b"", b"bc"])), abc);
    let empty = "e3b0c44298fc1c149afbf4c8996fb92427ae41e4649b934ca495991b7852b855";
    assert_eq!(archive_digest(read(&[])), empty);
    let file = HashedFile::new("0/0.png".to_string(), read(&[b"ab", b"c"]));
    assert_eq!((file.path.as_str(), file.hash.as_str()), ("0/0.png", abc));
}

#[test]
fn a_tree_is_digested_by_its_paths_and_bytes() {
    let file = |path: &str, bytes: &[u8]| HashedFile::new(path.to_string(), read(&[bytes]));
    let digest = tree_digest(&vec![file("a", b"1"), file("b/c", b"2")]);
    assert_eq!(tree_digest(&vec![file("b/c", b"2"), file("a", b"1")]), digest);
    assert_ne!(tree_digest(&vec![file("a", b"1"), file("b/c", b"3")]), digest);
    assert_ne!(tree_digest(&vec![file("a", b"1"), file("b/d", b"2")]), digest);
    assert_ne!(tree_digest(&vec![file("a", b"2"), file("b/c", b"1")]), digest);
}

#[test]
fn the_heap_peak_is_over_what_was_live() {
    let mut books = Counting::new();
    books.charge(100);
    let was = books.switch_on();
    assert!(!was);
    books.charge(64);
    books.discharge(64);
    let window = arm(&mut books, was);
    assert!(window.installed());
    assert_eq!(window.peak_bytes(&books), Some(0));
    books.charge(10);
    books.resize(10, 30);
    books.resize(30, 5);
    assert_eq!((window.peak_bytes(&books), window.live_bytes(&books)), (Some(30), Some(5)));
    books.discharge(50);
    assert_eq!(window.live_bytes(&books), Some(0));
    window.close(&mut books);
    books.charge(1_000);
    let mut fresh = Counting::new();
    let on = fresh.switch_on();
    let blind = arm(&mut fresh, on);
    assert_eq!(blind.peak_bytes(&fresh), None);
}

#[test]
fn the_release_runner_reads_its_arguments() {
    assert_eq!(parse_versions(" v1 ,, HEAD").unwrap(), vec!["v1", "HEAD"]);
    assert_eq!(parse_versions(" , ").unwrap_err(), "--versions is empty");
    assert_eq!(parse_sizes("512x512, 10 X 20").unwrap(), vec![(512, 512), (10, 20)]);
    assert_eq!(parse_sizes("512").unwrap_err(), "bad size '512', expected WxH");
    assert_eq!(parse_sizes("ax1").unwrap_err(), "bad width in 'ax1'");
    assert_eq!(parse_sizes("1xb").unwrap_err(), "bad height in '1xb'");
    assert_eq!(parse_concurrency("0,4").unwrap(), vec![0, 4]);
    assert_eq!(parse_concurrency("x").unwrap_err(), "bad concurrency 'x'");
    let parse = |list: &[&str]| Options::parse(&args(list), "h.json");
    let o = parse(&["--versions", "v1", "--sizes", "1x2", "--concurrency", "3"]).unwrap();
    assert_eq!((o.versions, o.history.as_str()), (vec!["v1".to_string()], "h.json"));
    assert_eq!((o.sizes, o.concurrency), (Some(vec![(1, 2)]), Some(vec![3])));
    assert_eq!(parse(&["--versions", "a", "--history", "x"]).unwrap().history, "x");
    assert_eq!(parse(&[]).unwrap_err(), "--versions is required");
    assert_eq!(parse(&["--versions"]).unwrap_err(), "--versions requires a value");
    assert_eq!(parse(&["--help"]).unwrap_err(), "help");
    assert_eq!(parse(&["--what"]).unwrap_err(), "unknown argument: --what");
}

#[test]
fn the_storage_runner_reads_its_arguments() {
    let parse = |list: &[&str]| parse_sweep(&args(list), Profile::Ci);
    assert!(matches!(parse(&[]), Ok(SweepCommand::Sweep { profile: Profile::Ci, out: None })));
    assert!(matches!(
        parse(&["--family", "storage", "--profile", "xl", "--out", "o"]),
        Ok(SweepCommand::Sweep { profile: Profile::Xl, out: Some(o) }) if o == "o"
    ));
    assert!(matches!(parse(&["-h"]), Ok(SweepCommand::Help)));
    assert_eq!(parse(&["--family"]).unwrap_err(), "--family wants a family name");
    assert_eq!(parse(&["--profile", "big"]).unwrap_err(), "--profile takes ci, full or xl");
    assert_eq!(parse(&["--profile"]).unwrap_err(), "--profile takes ci, full or xl");
    assert_eq!(parse(&["--out"]).unwrap_err(), "--out takes a path");
    assert_eq!(parse(&["x"]).unwrap_err(), "unknown argument \"x\"");
    assert_eq!(
        check_family("vips").unwrap_err(),
        "the `storage` binary measures the storage family. The vips family is measured by `report`, `scalability` and `version_matrix`: run `cargo run --release --bin report -- --family vips`."
    );
    assert_eq!(check_family("x").unwrap_err(), "unknown benchmark family \"x\". This binary measures storage");
}
