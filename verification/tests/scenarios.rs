use libviprs_storage::storage::cells::{Backend, Source};
use libviprs_storage::storage::plan::{plan, TileCoord};
use libviprs_storage::storage::scenarios;
use libviprs_storage::storage::scenarios::concurrent_curve::{
    chunks, ladder, pool, ArmFigures, Concurrent, ThreadWalk,
};
use libviprs_storage::storage::scenarios::counting::{
    in_section, total_bytes, CountingFactory, Request, RequestLog,
};
use libviprs_storage::storage::scenarios::decode_root::observed;
use libviprs_storage::storage::scenarios::facts::{
    agreed, at_least_one, max_peak, parse_direction, parse_unit, Artefact, Direction, Invariants,
    RepFacts, RowOutcome, Unit, WriteFault,
};
use libviprs_storage::storage::scenarios::first_lookup::{
    child_line, child_spec, distinct_pids, parse_child_line, parse_child_spec, run, ChildOutcome,
};
use libviprs_storage::storage::scenarios::floors::{
    block, block_for_cell, check_placements, control_placements, floor_plan, values_of, Dispersion,
};
use libviprs_storage::storage::scenarios::open::{
    cold_phases, index_only, observe, reconciliation_is_meaningful, FirstLookup, Open, OpenRep,
    SplitPass, SplitSample,
};
use libviprs_storage::storage::scenarios::reference::{
    three_orders, Generate, GeneratedRep, PassFigures, ReadPass,
};
use libviprs_storage::storage::scenarios::requests::{
    all_declared, all_observed, directory, pmtiles, ArchiveRequests, DeclaredWalk, Requests,
};
use libviprs_storage::storage::scenarios::tileid_order::{
    first_inversion, is_monotone, positions_the_sort_moves, probe, same_multiset, sort_by_tile_id,
    tile_ids,
};
use libviprs_storage::storage::scenarios::write_split::{
    boundary_is_clear, run_phase, HandWalk, Phase, WalkedRep,
};
use libviprs_storage::storage::cells::smoke_cell;
use libviprs_storage::storage::document::{DocumentCell, InvariantBlock, MachineLoad, Summary};

fn at(level: u32, col: u32, row: u32) -> TileCoord {
    TileCoord { level, col, row }
}

fn artefact(bytes: u64) -> Artefact {
    Artefact {
        occupancy: Some((bytes, 5, 2, 4096)),
        tiles_produced: 93,
        digest: Some("d".to_string()),
        shape: Some((93, 0)),
        scratch: "/tmp/s".to_string(),
    }
}

#[test]
fn the_three_orders_walk_the_same_tiles() {
    let p = plan(1024, 1024, 256).unwrap();
    let sets = three_orders(&p, 10, 42);
    assert_eq!(sets.plan_order.len(), 10);
    assert_eq!(sets.root_addressed, Some(at(0, 0, 0)));
    assert_eq!(sets.leaf_addressed, None);
    assert!(same_multiset(&sets.plan_order, &sets.tileid_order));
    assert!(same_multiset(&sets.plan_order, &sets.random));
    assert!(is_monotone(&sets.tileid_order));
    assert_eq!(three_orders(&p, 0, 42).root_addressed, None);
    assert_eq!(three_orders(&p, 100_000, 42).random.len(), 29);
}

#[test]
fn the_archives_order_is_not_the_plans() {
    let plan_order = vec![at(1, 0, 0), at(1, 1, 0), at(1, 0, 1), at(1, 1, 1)];
    let sorted = sort_by_tile_id(&plan_order);
    assert_eq!(sorted, vec![at(1, 0, 0), at(1, 0, 1), at(1, 1, 1), at(1, 1, 0)]);
    assert_eq!(tile_ids(&plan_order), vec![Some(1), Some(4), Some(2), Some(3)]);
    let back = first_inversion(&plan_order).unwrap();
    assert_eq!((back.index, back.before, back.after), (2, 4, 2));
    assert!(first_inversion(&sorted).is_none());
    assert_eq!(positions_the_sort_moves(&plan_order, &sorted), vec![1, 2, 3]);
    let p = probe(&plan_order, &sorted).unwrap();
    assert_eq!((p.index, p.in_plan_order, p.in_tileid_order), (1, at(1, 1, 0), at(1, 0, 1)));
    assert!(probe(&sorted, &sorted).is_none());
    assert!(!same_multiset(&plan_order, &sorted[..3]));
}

#[test]
fn a_generation_reports_one_sample_per_repetition() {
    let run = Generate
        .run(
            true,
            vec![
                Ok(GeneratedRep { wall: 10, rate: Some(20), artefact: artefact(7) }),
                Ok(GeneratedRep { wall: 11, rate: Some(21), artefact: artefact(7) }),
            ],
        )
        .unwrap();
    assert_eq!(run.series.len(), 2);
    assert_eq!((run.series[0].metric.name, run.series[0].samples.clone()), ("wall", vec![10, 11]));
    assert_eq!((run.series[1].metric.name, run.series[1].samples.clone()), ("tiles_per_s", vec![20, 21]));
    assert_eq!(run.reps[1].invariants.output_bytes, Some(7));
    assert_eq!(run.reps[1].invariants.allocated_bytes, Some(4096));
    assert_eq!(run.reps[0].scratch.as_deref(), Some("/tmp/s"));
    let unrated = Generate
        .run(true, vec![Ok(GeneratedRep { wall: 10, rate: None, artefact: artefact(7) })])
        .unwrap();
    assert_eq!(unrated.series.len(), 1);
    let e = Generate.run(false, Vec::new()).unwrap_err();
    assert_eq!((e.outcome, e.reason.as_str()), (RowOutcome::Failed, "the cell does not plan"));
    let e = Generate
        .run(true, vec![Err(WriteFault::NoScratch("full".to_string()))])
        .unwrap_err();
    assert_eq!(e.reason, "no scratch directory: full");
    let e = Generate
        .run(true, vec![Err(WriteFault::NotWritten("sink".to_string()))])
        .unwrap_err();
    assert_eq!(e.reason, "sink");
}

#[test]
fn a_read_pass_throws_its_warm_up_away() {
    let p = plan(4096, 4096, 256).unwrap();
    let sets = three_orders(&p, 100, 42);
    let pass = |p50: u64, rate: Option<u64>| {
        Ok(PassFigures { p50: Some(p50), tail: Some(p50 + 100), rate })
    };
    let run = ReadPass::random()
        .run(
            &sets,
            Ok(()),
            &vec![pass(99, None)],
            &vec![pass(1, Some(5)), pass(2, Some(6))],
        )
        .unwrap();
    assert_eq!(run.discarded_warmup, vec![99]);
    let names: Vec<&str> = run.series.iter().map(|s| s.metric.name).collect();
    assert_eq!(names, vec!["p50", "p99", "lookups_per_s"]);
    assert_eq!(run.series[0].samples, vec![1, 2]);
    assert_eq!(run.series[1].samples, vec![101, 102]);
    assert_eq!(run.reps.len(), 2);
    let few = three_orders(&p, 99, 42);
    let run = ReadPass::random().run(&few, Ok(()), &Vec::new(), &vec![pass(1, None)]).unwrap();
    let names: Vec<&str> = run.series.iter().map(|s| s.metric.name).collect();
    assert_eq!(names, vec!["p50", "max"]);
    let none = three_orders(&p, 0, 42);
    let e = ReadPass::tileid_order().run(&none, Ok(()), &Vec::new(), &Vec::new()).unwrap_err();
    assert_eq!((e.outcome, e.reason.as_str()), (RowOutcome::Skipped, "the cell has no coordinates to walk"));
    let e = ReadPass::random()
        .run(&sets, Err("closed".to_string()), &Vec::new(), &Vec::new())
        .unwrap_err();
    assert_eq!((e.outcome, e.reason.as_str()), (RowOutcome::Failed, "closed"));
    let e = ReadPass::random()
        .run(&sets, Ok(()), &vec![Err("gone".to_string())], &Vec::new())
        .unwrap_err();
    assert_eq!(e.reason, "a lookup failed: gone");
    let empty = Ok(PassFigures { p50: None, tail: None, rate: None });
    let e = ReadPass::random().run(&sets, Ok(()), &Vec::new(), &vec![empty]).unwrap_err();
    assert_eq!(e.reason, "a pass produced no latencies");
}

#[test]
fn a_rung_the_host_has_no_cores_for_is_declined() {
    let arms = ladder(2);
    assert_eq!(arms.iter().map(|a| a.is_ok()).collect::<Vec<_>>(), vec![true, true, false, false]);
    let reason = "this host has 2 cores, so 4 threads would measure oversubscription rather than concurrency";
    assert_eq!(arms[2].reason(), Some(reason));
    assert_eq!(arms[2].outcome(), RowOutcome::Skipped);
    let coords = vec![at(0, 0, 0)];
    let figures = |rate, p50| Ok(ArmFigures { rate, p50 });
    let rung = Concurrent { threads: 4 };
    let e = rung.run(2, &coords, Ok(()), &Vec::new(), &Vec::new()).unwrap_err();
    assert_eq!((e.outcome, e.reason.as_str()), (RowOutcome::Skipped, reason));
    let run = rung
        .run(
            4,
            &coords,
            Ok(()),
            &vec![figures(Some(9), Some(8))],
            &vec![figures(Some(1), Some(2)), figures(Some(3), Some(4))],
        )
        .unwrap();
    assert_eq!(run.discarded_warmup, vec![9]);
    assert_eq!(run.series[0].samples, vec![1, 3]);
    assert_eq!(run.series[1].samples, vec![2, 4]);
    let e = rung.run(4, &Vec::new(), Ok(()), &Vec::new(), &Vec::new()).unwrap_err();
    assert_eq!(e.outcome, RowOutcome::Skipped);
    let e = rung.run(4, &coords, Ok(()), &Vec::new(), &vec![figures(None, None)]).unwrap_err();
    assert_eq!(e.reason, "a pass took no measurable time");
    let e = rung.run(4, &coords, Ok(()), &Vec::new(), &vec![figures(Some(1), None)]).unwrap_err();
    assert_eq!(e.reason, "a pass produced no latencies");
    let e = rung.run(4, &coords, Ok(()), &vec![Err("x".to_string())], &Vec::new()).unwrap_err();
    assert_eq!(e.reason, "x");
    assert_eq!(rung.info().name, "read_concurrent@4");
}

#[test]
fn the_chunks_are_the_sequence() {
    let coords: Vec<TileCoord> = (0..7).map(|i| at(3, i, 0)).collect();
    let pieces = chunks(&coords, 3);
    assert_eq!(pieces.iter().map(|p| p.len()).sum::<usize>(), 7);
    let joined: Vec<TileCoord> = pieces.iter().flat_map(|p| p.iter().copied()).collect();
    assert_eq!(joined, coords);
    let one = || Ok(ThreadWalk { latencies: vec![1, 2], hits: 1 });
    let walked = pool(&vec![one(), Ok(ThreadWalk { latencies: vec![3], hits: 1 })]).unwrap();
    assert_eq!((walked.latencies, walked.hits), (vec![1, 2, 3], 2));
    let torn = vec![one(), Err("gone".to_string()), Err("late".to_string())];
    assert_eq!(pool(&torn).unwrap_err(), "gone");
    let rung = Concurrent { threads: 4 };
    assert_eq!(rung.decline(2, &coords).unwrap().outcome, RowOutcome::Skipped);
    assert_eq!(rung.decline(4, &Vec::new()).unwrap().reason, "the cell has no coordinates to walk");
    assert!(rung.decline(4, &coords).is_none());
}

#[test]
fn an_open_reads_the_index_alone() {
    assert_eq!(cold_phases().len(), 6);
    let index = observe(vec![Request { offset: 0, len: 127 }], 93, (1000, 500));
    assert_eq!((index.request_count(), index.bytes()), (1, 127));
    assert!(index_only(&index).is_ok());
    let greedy = observe(
        vec![Request { offset: 0, len: 127 }, Request { offset: 1200, len: 1 }],
        93,
        (1000, 500),
    );
    assert_eq!(greedy.tile_section_requests(), vec![Request { offset: 1200, len: 1 }]);
    let reason = "the open fetched 1 range(s) from the tile data section, so it is not an index-only open";
    assert_eq!(index_only(&greedy).unwrap_err(), reason);
    let run = Open
        .run(&vec![
            Ok(OpenRep { micros: 5, seen: Some(index) }),
            Ok(OpenRep { micros: 6, seen: None }),
        ])
        .unwrap();
    assert_eq!(run.series[0].samples, vec![5, 6]);
    assert_eq!(run.reps[0].invariants.requests, Some(1));
    assert_eq!(run.reps[0].invariants.request_bytes, Some(127));
    assert_eq!(run.reps[0].invariants.root_entries, Some(93));
    assert_eq!(run.reps[1].invariants.requests, None);
    let e = Open.run(&vec![Ok(OpenRep { micros: 5, seen: Some(greedy) })]).unwrap_err();
    assert_eq!(e.reason, reason);
    let e = Open.run(&vec![Err("no".to_string())]).unwrap_err();
    assert_eq!(e.reason, "no");
}

#[test]
fn a_first_lookup_needs_a_coordinate() {
    let run = FirstLookup.run(Some(at(0, 0, 0)), &vec![Ok(3), Ok(4)]).unwrap();
    assert_eq!(run.series[0].samples, vec![3, 4]);
    let e = FirstLookup.run(None, &vec![Ok(3)]).unwrap_err();
    assert_eq!(e.outcome, RowOutcome::Skipped);
    assert_eq!(e.reason, "the cell has no root-addressed coordinate");
    let e = FirstLookup.run(Some(at(0, 0, 0)), &vec![Err("x".to_string())]).unwrap_err();
    assert_eq!((e.outcome, e.reason.as_str()), (RowOutcome::Failed, "x"));
}

#[test]
fn the_split_adds_up() {
    let pass = SplitPass {
        samples: vec![SplitSample { phases: [1, 2, 3, 4, 5, 6] }, SplitSample { phases: [10, 0, 0, 0, 0, 1] }],
        combined: vec![20, 11],
        root_entries: 93,
    };
    assert_eq!(pass.totals(), vec![21, 11]);
    assert_eq!(pass.by_phase()[0], vec![1, 10]);
    assert_eq!(pass.by_phase().len(), 6);
    assert!(reconciliation_is_meaningful(1_000).is_ok());
    assert!(reconciliation_is_meaningful(999).unwrap_err().starts_with("a root of 999 entries is under the 1000 this check needs"));
}

#[test]
fn requests_are_observed_on_an_archive_and_declared_on_a_tree() {
    let one = || vec![Request { offset: 0, len: 10 }];
    let archive = ArchiveRequests {
        open: one(),
        root_lookup: one(),
        leaf_lookups: Some((one(), Vec::new())),
        random_walk: vec![Request { offset: 5, len: 7 }, Request { offset: 9, len: 1 }],
    };
    let counts = pmtiles(&archive);
    assert!(all_observed(&counts) && !all_declared(&counts));
    assert_eq!(counts.len(), 5);
    assert_eq!((counts[4].operation, counts[4].requests, counts[4].bytes), ("random_walk", 2, 8));
    let tree = directory(100, 50, 500, false);
    assert!(all_declared(&tree));
    assert_eq!((tree[2].requests, tree[2].bytes), (100, 5000));
    let walk = DeclaredWalk { tiles: 10, total_bytes: Some(105), walk_length: 4, has_leaves: true };
    let got = Requests
        .run(Backend::PmTiles, Some(at(0, 0, 0)), &Some(Ok(archive)), walk)
        .unwrap();
    assert_eq!((got.requests_metric.name, got.bytes_metric.name), ("requests", "request_bytes"));
    assert_eq!((got.invariants.requests, got.invariants.request_bytes), (Some(5), Some(38)));
    let got = Requests.run(Backend::Directory, Some(at(0, 0, 0)), &None, walk).unwrap();
    assert_eq!((got.requests_metric.name, got.bytes_metric.name), ("requests_declared", "request_bytes_declared"));
    assert_eq!((got.invariants.requests, got.invariants.request_bytes), (Some(7), Some(70)));
    let e = Requests.run(Backend::PmTiles, Some(at(0, 0, 0)), &None, walk).unwrap_err();
    assert_eq!(e.reason, "no archive to count");
    let e = Requests.run(Backend::PmTiles, None, &None, walk).unwrap_err();
    assert_eq!(e.outcome, RowOutcome::Skipped);
    let e = Requests
        .run(Backend::PmTiles, Some(at(0, 0, 0)), &Some(Err("broken".to_string())), walk)
        .unwrap_err();
    assert_eq!(e.reason, "broken");
}

#[test]
fn ranges_are_counted() {
    assert_eq!(CountingFactory::new("a.pmtiles").archive(), "a.pmtiles");
    let mut log = RequestLog::new();
    log.record(0, 10);
    log.record(90, 20);
    assert_eq!((log.count(), log.bytes()), (2, 30));
    assert_eq!(in_section(&log.requests(), 100, 5), vec![Request { offset: 90, len: 20 }]);
    assert_eq!(total_bytes(&log.requests()), 30);
    log.forget();
    assert_eq!(log.count(), 0);
    let root = observed(&[(93, 1000), (93, 1200)], 300, 900);
    assert_eq!((root.entries, root.samples.clone()), (93, vec![1000, 1200]));
    assert_eq!(root.per_entry(1000), Some((1000, 93)));
}

#[test]
fn the_phase_boundary_is_asked_for_once() {
    assert!(boundary_is_clear(1).is_ok());
    assert!(boundary_is_clear(2).unwrap_err().starts_with("the engine asked the sink to finish 2 times"));
    let walk = |peak: Option<u64>| HandWalk {
        ingest: 5,
        finalize: 6,
        output: "o".to_string(),
        tiles_produced: 93,
        ingest_peak_bytes: peak,
        ingest_live_bytes: None,
        finalize_peak_bytes: Some(1),
    };
    assert_eq!((Phase::Ingest.wall(&walk(None)), Phase::Finalize.wall(&walk(None))), (5, 6));
    let rep = |peak: Option<u64>| Ok(WalkedRep { walk: walk(peak), wall: 3, artefact: artefact(1) });
    let run = run_phase(Phase::Ingest, true, vec![rep(Some(7)), rep(None), rep(Some(4))]).unwrap();
    assert_eq!(run.heap_peak_bytes, Some(7));
    assert_eq!(run.series[0].samples, vec![3, 3, 3]);
    assert!(run_phase(Phase::Finalize, false, Vec::new()).is_err());
    let e = run_phase(Phase::Ingest, true, vec![Err(WriteFault::NotWritten("w".to_string()))]).unwrap_err();
    assert_eq!(e.reason, "w");
}

#[test]
fn a_child_reads_the_coordinate_it_was_given() {
    let text = child_spec("/tmp/a:b.pmtiles", at(3, 1, 2));
    assert_eq!(parse_child_spec(&text), Some(("/tmp/a:b.pmtiles".to_string(), at(3, 1, 2))));
    assert!(parse_child_spec("nothing").is_none());
    let line = parse_child_line("noise\nK14-FIRST-LOOKUP 77 12.5 1\n").unwrap();
    assert_eq!((line.pid, line.micros.as_str(), line.hit), (77, "12.5", true));
    assert!(parse_child_line("noise\n").is_none());
    assert_eq!(distinct_pids(&[1, 2, 1]), 2);
}

fn rep(bytes: Option<u64>, digest: &str) -> RepFacts {
    let mut invariants = Invariants::default();
    invariants.output_bytes = bytes;
    invariants.artefact_digest = Some(digest.to_string());
    RepFacts { invariants, scratch: None }
}

#[test]
fn a_count_is_published_only_where_every_repetition_agrees() {
    let (same, none) = agreed(&[rep(Some(1), "a"), rep(Some(1), "a")]);
    assert_eq!((same.output_bytes, none.len()), (Some(1), 0));
    let (apart, reasons) = agreed(&[rep(Some(1), "a"), rep(Some(2), "b")]);
    assert_eq!((apart.output_bytes, apart.artefact_digest), (None, None));
    assert_eq!(reasons, vec!["output_bytes differs between reps", "artefact_digest differs between reps"]);
    assert_eq!(max_peak(Some(1), Some(3)), Some(3));
    assert_eq!(max_peak(None, Some(3)), Some(3));
    assert_eq!(at_least_one(0), 1);
    assert_eq!(parse_unit(Unit::Bytes.as_str()), Unit::Bytes);
    assert_eq!(parse_direction(Direction::HigherIsBetter.as_str()), Direction::HigherIsBetter);
}

fn row(cell: &str, key: &str, median: Option<u64>) -> DocumentCell {
    let summary = median.map(|median| Summary {
        median,
        min: 0,
        max: 0,
        iqr: 0,
        cov: None,
        ci95: (0, 0),
        ci_half_width_pct: None,
        p95_of_samples: 0,
        tail_value: 0,
    });
    DocumentCell {
        backend: "pmtiles".to_string(),
        scale: 93,
        source: "gradient".to_string(),
        cell: cell.to_string(),
        scenario: "s".to_string(),
        metric: "m".to_string(),
        key: key.to_string(),
        unit: "us".to_string(),
        direction: "lower".to_string(),
        isolation: "x".to_string(),
        warmup: None,
        discarded_warmup: Vec::new(),
        reps: 1,
        min_reps: 1,
        outcome: "ok".to_string(),
        reason: None,
        samples: Vec::new(),
        summary,
        tail: None,
        timer_saturated: None,
        confidence: "high".to_string(),
        low_confidence_reasons: Vec::new(),
        machine_load: MachineLoad::unknown(),
        invariants: InvariantBlock {
            invariants: Invariants::default(),
            peak_rss_bytes: None,
            heap_peak_bytes: None,
        },
        attested: None,
        dirty: None,
        oversubscribed: false,
    }
}

#[test]
fn floors_rest_on_the_control_alone() {
    let mut rows = Vec::new();
    for i in 0..5 {
        rows.push(row("control", "b.p50", Some(i)));
        rows.push(row("other", "b.p50", Some(100 + i)));
        if i > 0 {
            rows.push(row("control", "a.p50", Some(10 + i)));
        }
        rows.push(row("control", "c.p50", Some(20)));
        rows.push(row("control", "d.p50", None));
    }
    let list = control_placements(&rows, "control");
    let names: Vec<&str> = list.iter().map(|p| p.metric.as_str()).collect();
    assert_eq!(names, vec!["pmtiles.a.p50", "pmtiles.b.p50", "pmtiles.c.p50"]);
    assert_eq!(list[1].medians, vec![0, 1, 2, 3, 4]);
    assert_eq!(list[0].medians, vec![11, 12, 13, 14]);
    let plan = floor_plan(list).unwrap();
    assert_eq!((plan.reps, plan.metrics.len(), plan.short), (5, 2, 1));
    let found = Dispersion { floor_pct: 1, drift_pct: 2, residual_pct: 3 };
    let block = block_for_cell("control", plan, &vec![Some(found), None]).unwrap();
    assert_eq!((block.reps, block.dropped_metrics, block.floors.len()), (5, 2, 1));
    assert_eq!(block.floors[0].metric, "pmtiles.b.p50");
    assert_eq!(block.method, "t-prediction-interval-over-placement-medians");
    assert!(floor_plan(control_placements(&rows[..8].iter().map(|r| row(&r.cell, &r.key, Some(1))).collect(), "control")).is_none());
    assert!(floor_plan(Vec::new()).is_none());
}

#[test]
fn placements_are_measurements_of_one_thing() {
    let cell = smoke_cell(Source::Gradient);
    let m = |names: &[&str]| -> Vec<(String, u64)> {
        names.iter().enumerate().map(|(i, n)| (n.to_string(), i as u64)).collect()
    };
    let few = vec![m(&["a"]); 4];
    assert_eq!(
        check_placements(&cell, &few).unwrap_err(),
        "the replicate cell 2048x2048@256+gradient was measured 4 times and a published floor needs at least 5: below that the control has no dispersion of its own, so the number it publishes cannot say whether it is the outlier"
    );
    let mut odd = vec![m(&["a", "b"]); 5];
    odd[3] = m(&["a"]);
    assert_eq!(
        check_placements(&cell, &odd).unwrap_err(),
        "measurement 1 of 2048x2048@256+gradient reports 2 metrics and measurement 4 reports 1, so the placements are not the same measurement"
    );
    let mut other = vec![m(&["a", "b"]); 5];
    other[2] = m(&["a", "c"]);
    assert!(check_placements(&cell, &other).is_ok());
    assert_eq!(values_of(&cell, &other, "a").unwrap(), vec![0, 0, 0, 0, 0]);
    assert_eq!(
        values_of(&cell, &other, "b").unwrap_err(),
        "measurement 1 of 2048x2048@256+gradient reports `b` and measurement 3 does not, so the placements are not the same measurement"
    );
}

#[test]
fn a_block_refuses_what_it_cannot_grade() {
    let cell = smoke_cell(Source::Gradient);
    let m = |names: &[&str]| -> Vec<(String, u64)> {
        names.iter().map(|n| (n.to_string(), 1)).collect()
    };
    let found = Dispersion { floor_pct: 1, drift_pct: 2, residual_pct: 3 };
    let good = vec![m(&["a", "b"]); 6];
    let got = block(&cell, &good, &vec![Ok(found), Ok(found)]).unwrap();
    assert_eq!((got.cell.as_str(), got.reps, got.dropped_metrics), ("2048x2048@256+gradient", 6, 0));
    assert_eq!(got.method, "t-prediction-interval-over-placement-medians");
    let names: Vec<&str> = got.floors.iter().map(|f| f.metric.as_str()).collect();
    assert_eq!(names, vec!["a", "b"]);
    assert_eq!(got.floors[1].found, found);
    let flat = vec![Ok(found), Err("[0.0, 0.0]".to_string())];
    assert_eq!(
        block(&cell, &good, &flat).unwrap_err(),
        "`b` on 2048x2048@256+gradient has no dispersion as a percentage over [0.0, 0.0]"
    );
    let mut grown = good.clone();
    grown[4] = m(&["a", "c"]);
    assert_eq!(
        block(&cell, &grown, &flat).unwrap_err(),
        "measurement 1 of 2048x2048@256+gradient reports `b` and measurement 5 does not, so the placements are not the same measurement"
    );
    assert!(block(&cell, &vec![m(&["a"]); 4], &Vec::new()).unwrap_err().contains("was measured 4 times"));
}

#[test]
fn an_outcome_carries_its_reason() {
    let declined = scenarios::Outcome::skipped("no cores".to_string());
    assert!(!declined.is_ok());
    assert_eq!(declined.reason(), Some("no cores"));
    assert!(scenarios::Outcome::Passed.is_ok());
    assert!(scenarios::Origin::Declared.is_declared());
}

#[test]
fn a_line_holds_a_number_of_microseconds() {
    let line = |word: &str| parse_child_line(&format!("K14-FIRST-LOOKUP 7 {word} 1"));
    let good = [
        "0", "12.5", "1.", ".5", "+.5e-3", "-1E+10", "1e99999", "007", "inf", "-Infinity", "+NaN", "NAN",
    ];
    for word in good {
        assert!(word.parse::<f64>().is_ok(), "{word}");
        assert_eq!(line(word).unwrap().micros, word);
    }
    let bad = [
        "fast", ".", "+", "-", "e5", "1e", "1e+", "1.2.3", "1_0", "0x1", "infin", "nann", "--1", "1e5.0", "12us",
    ];
    for word in bad {
        assert!(word.parse::<f64>().is_err(), "{word}");
        assert!(line(word).is_none(), "{word}");
    }
    let back = parse_child_line(&(child_line(77, "12.25", false) + "\n")).unwrap();
    assert_eq!((back.pid, back.micros.as_str(), back.hit), (77, "12.25", false));
}

#[test]
fn a_repetition_without_its_line_is_named() {
    let ended = |stdout: &str| ChildOutcome::Ended {
        stdout: stdout.to_string(),
        status: "exit status: 1".to_string(),
        stderr: "boom".to_string(),
    };
    let lines = run(&vec![ended("K14-FIRST-LOOKUP 1 2.5 0"), ended("K14-FIRST-LOOKUP 2 2.5 1")]).unwrap();
    assert_eq!((lines[0].pid, lines[0].hit, lines[1].pid, lines[1].hit), (1, false, 2, true));
    assert_eq!(
        run(&vec![ended("K14-FIRST-LOOKUP 1 2.5 0"), ended("nothing")]).unwrap_err(),
        "repetition 1 printed no `K14-FIRST-LOOKUP` line; status exit status: 1, stderr: boom"
    );
    assert_eq!(
        run(&vec![ended("K14-FIRST-LOOKUP 1 fast 0")]).unwrap_err(),
        "repetition 0 printed no `K14-FIRST-LOOKUP` line; status exit status: 1, stderr: boom"
    );
    assert_eq!(
        run(&vec![ChildOutcome::NotSpawned("no".to_string())]).unwrap_err(),
        "repetition 0 could not be spawned: no"
    );
}
