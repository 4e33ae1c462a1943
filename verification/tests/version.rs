use libviprs_storage::{version_id, version_matrix};
use libviprs_storage::version_id::BenchmarkSnapshot;
use libviprs_storage::version_matrix::{CommandOutcome, CoreWorktree, Engine, HarnessBuild, MatrixConfig, MatrixError, VersionOutcome};

fn snapshot(version: &str, git_sha: &str, timestamp: &str) -> BenchmarkSnapshot {
    BenchmarkSnapshot {
        version: version.to_string(),
        git_sha: git_sha.to_string(),
        timestamp: timestamp.to_string(),
    }
}

#[test]
fn version_id_semver_key_orders_numerically_not_lexically() {
    assert!(version_id::semver_sort_key("0.9.0") < version_id::semver_sort_key("0.10.0"));
    assert!(version_id::semver_sort_key("0.3.1") < version_id::semver_sort_key("0.9.0"));
    // Leading v and pre-release suffix are tolerated.
    assert_eq!(version_id::semver_sort_key("v0.3.1"), (0, 3, 1));
    assert_eq!(version_id::semver_sort_key("0.4.0-rc.1"), (0, 4, 0));
    // Unparseable sorts last.
    assert_eq!(version_id::semver_sort_key("nightly"), (u64::MAX, u64::MAX, u64::MAX));
    assert!(version_id::semver_sort_key("9.9.9") < version_id::semver_sort_key("nightly"));
}

#[test]
fn version_id_version_key_uses_sha_when_known() {
    assert_eq!(version_id::version_key("0.3.1", "abc1234"), "0.3.1@abc1234");
    assert_eq!(version_id::version_key("0.3.1", ""), "0.3.1");
    assert_eq!(version_id::version_key("0.3.1", "unknown"), "0.3.1");
}

#[test]
fn version_matrix_semver_key_orders_numerically_not_lexically() {
    assert!(version_matrix::semver_sort_key("0.9.0") < version_matrix::semver_sort_key("0.10.0"));
    assert!(version_matrix::semver_sort_key("0.3.1") < version_matrix::semver_sort_key("0.9.0"));
    // Leading v and pre-release suffix are tolerated.
    assert_eq!(version_matrix::semver_sort_key("v0.3.1"), (0, 3, 1));
    assert_eq!(version_matrix::semver_sort_key("0.4.0-rc.1"), (0, 4, 0));
    // Unparseable sorts last.
    assert_eq!(version_matrix::semver_sort_key("nightly"), (u64::MAX, u64::MAX, u64::MAX));
    assert!(version_matrix::semver_sort_key("9.9.9") < version_matrix::semver_sort_key("nightly"));
}

#[test]
fn version_matrix_version_key_uses_sha_when_known() {
    assert_eq!(version_matrix::version_key("0.3.1", "abc1234"), "0.3.1@abc1234");
    assert_eq!(version_matrix::version_key("0.3.1", ""), "0.3.1");
    assert_eq!(version_matrix::version_key("0.3.1", "unknown"), "0.3.1");
}

#[test]
fn sanitize_ref_is_filesystem_safe() {
    assert_eq!(version_matrix::sanitize_ref("v0.3.1"), "v0.3.1");
    assert_eq!(version_matrix::sanitize_ref("feature/foo"), "feature_foo");
    assert_eq!(version_matrix::sanitize_ref(""), "ref");
}

#[test]
fn a_version_of_two_or_four_numbers_sorts_last() {
    let last = (u64::MAX, u64::MAX, u64::MAX);
    assert_eq!(version_id::semver_sort_key("1.2"), last);
    assert_eq!(version_id::semver_sort_key("1.2.3.4"), last);
    assert_eq!(version_id::semver_sort_key("1..3"), last);
    assert_eq!(version_id::semver_sort_key(""), last);
    assert_eq!(version_id::semver_sort_key("1.2.18446744073709551616"), last);
    assert_eq!(version_id::semver_sort_key("1.2.3+build.7"), (1, 2, 3));
}

#[test]
fn columns_stand_in_release_order_once_each() {
    let history = vec![
        snapshot("nightly", "", "2026-01-01T00:00:00Z"),
        snapshot("0.10.0", "bbb", "2026-03-01T00:00:00Z"),
        snapshot("0.9.0", "aaa", "2026-02-02T00:00:00Z"),
        snapshot("0.9.0", "ccc", "2026-02-01T00:00:00Z"),
        snapshot("0.10.0", "bbb", "2026-04-01T00:00:00Z"),
    ];
    assert_eq!(
        version_id::ordered_version_keys(&history),
        vec!["0.9.0@ccc", "0.9.0@aaa", "0.10.0@bbb", "nightly"]
    );
    assert!(version_id::ordered_version_keys(&Vec::new()).is_empty());
}

#[test]
fn a_manifest_gives_its_package_version() {
    let text = "[workspace]\nversion = \"9.9.9\"\n[package]\nname = \"x\"\r\n  version=\"0.3.1\"\n";
    assert_eq!(version_matrix::read_package_version(Some(text)), "0.3.1");
    let inherited = "[package]\nversion.workspace = true\n";
    assert_eq!(version_matrix::read_package_version(Some(inherited)), "unknown");
    let later = "[package]\nname = \"x\"\n[dependencies]\nversion = \"1\"\n";
    assert_eq!(version_matrix::read_package_version(Some(later)), "unknown");
    assert_eq!(version_matrix::read_package_version(None), "unknown");
}

fn ended(success: bool, stdout: &str, stderr: &str) -> CommandOutcome {
    CommandOutcome::Ended {
        success,
        stdout: stdout.to_string(),
        stderr: stderr.to_string(),
    }
}

#[test]
fn every_matrix_error_names_its_kind() {
    assert_eq!(MatrixError::Git("a".to_string()).message(), "git error: a");
    assert_eq!(MatrixError::Build("b".to_string()).message(), "build error: b");
    assert_eq!(MatrixError::History("c".to_string()).message(), "history error: c");
}

#[test]
fn a_bad_ref_is_an_error_and_not_a_panic() {
    assert!(version_matrix::worktree_added("v1", "/repo", &ended(true, "", "")).is_ok());
    let e = version_matrix::worktree_added("v1", "/repo", &ended(false, "", " no such ref\n"))
        .unwrap_err();
    assert_eq!(e.message(), "git error: git worktree add v1 in /repo failed: no such ref");
    let e = version_matrix::worktree_added(
        "v1",
        "/repo",
        &CommandOutcome::NotSpawned("gone".to_string()),
    )
    .unwrap_err();
    assert_eq!(e.message(), "git error: failed to spawn git worktree add: gone");
}

#[test]
fn git_answers_are_trimmed_and_failures_show_the_arguments() {
    let args = vec!["rev-parse".to_string(), "HEAD".to_string()];
    let got = version_matrix::git_stdout("/r", &args, &ended(true, "abc1234\n", "")).unwrap();
    assert_eq!(got, "abc1234");
    let e = version_matrix::git_stdout("/r", &args, &ended(false, "", "bad\n")).unwrap_err();
    assert_eq!(e.message(), "git error: git [\"rev-parse\", \"HEAD\"] in /r failed: bad");
    let e = version_matrix::git_stdout("/r", &args, &CommandOutcome::NotSpawned("x".to_string()))
        .unwrap_err();
    assert_eq!(e.message(), "git error: failed to spawn git [\"rev-parse\", \"HEAD\"]: x");
}

#[test]
fn a_worktree_is_removed_once() {
    let mut tree = CoreWorktree::resolved(
        "/repo",
        "v1",
        "/tmp/w",
        Ok("abc1234".to_string()),
        Some("[package]\nversion = \"1.2.3\""),
    )
    .unwrap();
    assert_eq!(tree.version, "1.2.3");
    assert_eq!(tree.short_sha, "abc1234");
    assert!(tree.remove());
    assert!(!tree.remove());
    let e = version_matrix::worktree_removed(&ended(false, "", "busy\n")).unwrap_err();
    assert_eq!(e.message(), "git error: git worktree remove failed: busy");
    assert!(version_matrix::worktree_removed(&ended(true, "", "")).is_ok());
    let failed = CoreWorktree::resolved(
        "/repo",
        "v1",
        "/tmp/w",
        Err(MatrixError::Git("x".to_string())),
        None,
    );
    assert!(failed.is_err());
}

#[test]
fn a_build_that_leaves_no_binary_is_an_error() {
    let tree =
        CoreWorktree::resolved("/r", "v1", "/w", Ok("abc".to_string()), None).unwrap();
    let exe = version_matrix::harness_path("/t");
    assert_eq!(exe, "/t/release/report");
    assert_eq!(version_matrix::build_harness(&tree, &exe, &Ok(true), true).unwrap().exe, exe);
    assert_eq!(
        version_matrix::build_harness(&tree, &exe, &Ok(true), false).unwrap_err().message(),
        "build error: harness binary /t/release/report missing after build"
    );
    assert_eq!(
        version_matrix::build_harness(&tree, &exe, &Ok(false), true).unwrap_err().message(),
        "build error: cargo build against v1 (abc) failed"
    );
    assert_eq!(
        version_matrix::build_harness(&tree, &exe, &Err("no".to_string()), true)
            .unwrap_err()
            .message(),
        "build error: failed to spawn cargo build: no"
    );
    assert_eq!(
        version_matrix::reuse_harness("/x", false).unwrap_err().message(),
        "build error: reuse harness /x does not exist"
    );
    assert_eq!(version_matrix::reuse_harness("/x", true).unwrap().exe, "/x");
    assert_eq!(version_matrix::paths_override("/w"), "paths=[\"/w\"]");
}

#[test]
fn a_corrupt_history_is_left_alone() {
    let e = version_matrix::append_version_snapshot(
        Err("corrupt".to_string()),
        snapshot("1.0.0", "a", "t"),
    )
    .unwrap_err();
    assert_eq!(e.message(), "history error: corrupt");
    let (history, entries) = version_matrix::append_version_snapshot(
        Ok(vec![snapshot("0.9.0", "z", "s")]),
        snapshot("1.0.0", "a", "t"),
    )
    .unwrap();
    assert_eq!(entries, 2);
    assert_eq!(history[1].version, "1.0.0");
}

#[test]
fn a_version_that_fails_does_not_end_the_series() {
    let refs = vec!["v1".to_string(), "v2".to_string()];
    let outcomes = version_matrix::run_matrix(
        &refs,
        vec![
            Err(MatrixError::Build("no".to_string())),
            Ok(("2.0.0".to_string(), "abc".to_string(), 3)),
        ],
    );
    assert!(matches!(
        &outcomes[0],
        VersionOutcome::Skipped { refname, reason } if refname == "v1" && reason == "build error: no"
    ));
    assert!(matches!(
        &outcomes[1],
        VersionOutcome::Appended { refname, entries: 3, .. } if refname == "v2"
    ));
    assert_eq!(version_matrix::tally(&outcomes), (1, 1));
    assert_eq!(version_matrix::exit_code(1, 1), 1);
    assert_eq!(version_matrix::exit_code(0, 0), 1);
    assert_eq!(version_matrix::exit_code(2, 0), 0);
}

#[test]
fn the_suite_is_the_everyday_one() {
    let mut cfg = MatrixConfig::with_counts(5, 1);
    assert_eq!(cfg.sizes, vec![(512, 512), (1024, 1024), (2048, 2048), (4096, 4096)]);
    assert_eq!(cfg.concurrency, vec![0, 4]);
    assert!(cfg.cleans_up());
    cfg.build = HarnessBuild::Reuse("/x".to_string());
    assert!(!cfg.cleans_up());
    assert_eq!(version_matrix::overridden(Some("7"), 5), 7);
    assert_eq!(version_matrix::overridden(Some("many"), 5), 5);
    assert_eq!(version_matrix::overridden(None, 5), 5);
    assert_eq!(version_matrix::engine_set(true).len(), 4);
    assert_eq!(
        version_matrix::engine_set(false),
        vec![Engine::Monolithic, Engine::Streaming, Engine::MapReduce]
    );
    assert_eq!(version_matrix::worktree_name("a/b", 7, 99), "a_b-7-99");
}
