use majestical_services::error::ServiceError;
use majestical_services::sync::pull_run;
use majestical_services::sync::{
    filter_plan, location_row, overall_failed, pull_outcome, resolve_targets, summarize_pull,
    BlobClass, BlobCopy, BlobCounts, DirectionCounts, FileFailure, LocationRow, Only, PushOutcome,
    SegmentCopy, SegmentCounts, TransferOutcome, TransferPlan, TransferRun,
};
use majestical_services::sync::{location_add, location_rm, PathProbe};
use majestical_services::sync::{push, pull, PullRequest, PushRequest};
use majestical_services::sync::status;

fn ran(name: &str, failures: Vec<FileFailure>) -> LocationRow {
    LocationRow::Ran {
        name: name.into(),
        segments_copied: 1,
        segment_bytes: 10,
        blobs_copied: 0,
        blob_bytes: 0,
        events_added: vec![],
        failures,
    }
}

#[test]
fn overall_failed_is_true_when_every_location_is_skipped_or_failed() {
    let rows = vec![
        LocationRow::Skipped { name: "a".into(), reason: "unreachable".into() },
        LocationRow::Failed { name: "b".into(), error: "boom".into() },
    ];
    assert!(overall_failed(&rows));
}

#[test]
fn overall_failed_is_false_when_a_location_ran_cleanly() {
    let rows = vec![ran("a", vec![])];
    assert!(!overall_failed(&rows));
}

#[test]
fn overall_failed_is_true_when_a_ran_location_has_per_file_failures() {
    let rows = vec![ran("a", vec![FileFailure { path: "x".into(), error: "boom".into() }])];
    assert!(overall_failed(&rows));
}

#[test]
fn summarize_pull_sums_events_and_blobs_across_locations() {
    let rows = vec![
        LocationRow::Ran {
            name: "a".into(),
            segments_copied: 0,
            segment_bytes: 0,
            blobs_copied: 2,
            blob_bytes: 0,
            events_added: vec![("m1".into(), 3)],
            failures: vec![],
        },
        LocationRow::Ran {
            name: "b".into(),
            segments_copied: 0,
            segment_bytes: 0,
            blobs_copied: 5,
            blob_bytes: 0,
            events_added: vec![("m1".into(), 4), ("m2".into(), 1)],
            failures: vec![],
        },
    ];
    let (applied, machines, blobs) = summarize_pull(&rows);
    assert_eq!(applied, 8, "events must sum across locations");
    assert_eq!(blobs, 7, "blobs must sum across locations");
    assert_eq!(machines, vec!["m1".to_string(), "m2".to_string()]);
}

#[test]
fn summarize_pull_lists_machines_sorted_and_once_and_ignores_rows_that_did_not_run() {
    let rows = vec![
        LocationRow::Ran {
            name: "a".into(),
            segments_copied: 0,
            segment_bytes: 0,
            blobs_copied: 1,
            blob_bytes: 0,
            events_added: vec![("zeta".into(), 0), ("alpha".into(), 2)],
            failures: vec![],
        },
        LocationRow::Failed { name: "b".into(), error: "boom".into() },
        LocationRow::Ran {
            name: "c".into(),
            segments_copied: 0,
            segment_bytes: 0,
            blobs_copied: 0,
            blob_bytes: 0,
            events_added: vec![("alpha".into(), 1)],
            failures: vec![],
        },
    ];
    let (applied, machines, blobs) = summarize_pull(&rows);
    assert_eq!(applied, 3);
    assert_eq!(blobs, 1);
    assert_eq!(machines, vec!["alpha".to_string(), "zeta".to_string()]);
}

#[test]
fn failing_locations_names_only_runs_with_per_file_failures() {
    let outcome = PushOutcome {
        rows: vec![
            ran("clean", vec![]),
            ran("dirty", vec![FileFailure { path: "p".into(), error: "e".into() }]),
            LocationRow::Skipped { name: "gone".into(), reason: "r".into() },
        ],
    };
    assert_eq!(outcome.failing_locations(), vec!["dirty"]);
    assert!(!outcome.no_location_ran());
    assert!(outcome.overall_failed());
    assert_eq!(outcome.rows[2].name(), "gone");
}

#[test]
fn blob_counts_from_blobs_counts_each_class_independently() {
    let blob = |rel: &str, class: BlobClass| BlobCopy { rel: rel.into(), class, size: 1 };
    let blobs = vec![
        blob("a", BlobClass::Metadata),
        blob("b", BlobClass::Metadata),
        blob("c", BlobClass::Vectors),
        blob("d", BlobClass::Transcripts),
    ];
    let counts = BlobCounts::from_blobs(&blobs);
    assert_eq!(counts, BlobCounts { thumbs: 0, metadata: 2, vectors: 1, transcripts: 1 });
    assert!(!counts.is_empty());
    assert!(BlobCounts::default().is_empty());
}

#[test]
fn direction_counts_from_an_empty_plan_is_empty() {
    let plan = TransferPlan { segments: Vec::new(), blobs: Vec::new() };
    assert!(DirectionCounts::from_plan(&plan).is_empty());
}

#[test]
fn direction_counts_from_plan_groups_segments_per_machine() {
    let seg = |machine: &str, segment: &str, src_len: u64, dst_len: u64| SegmentCopy {
        machine: machine.into(),
        segment: segment.into(),
        src_len,
        dst_len,
    };
    let plan = TransferPlan {
        segments: vec![
            seg("m2", "events/m2/0000.jsonl", 5, 9),
            seg("m1", "events/m1/0000.jsonl", 100, 40),
            seg("m1", "events/m1/0001.jsonl", 50, 0),
        ],
        blobs: Vec::new(),
    };
    let counts = DirectionCounts::from_plan(&plan);
    assert_eq!(counts.segments.len(), 2);
    assert_eq!(counts.segments[0].0, "m1");
    assert_eq!(counts.segments[0].1, SegmentCounts { files: 2, bytes: 110 });
    assert_eq!(counts.segments[1].0, "m2");
    assert_eq!(counts.segments[1].1, SegmentCounts { files: 1, bytes: 0 });
    assert!(!counts.is_empty());
}

#[test]
fn filter_plan_narrows_to_one_class() {
    let plan = || TransferPlan {
        segments: vec![SegmentCopy { machine: "m".into(), segment: "s".into(), src_len: 1, dst_len: 0 }],
        blobs: vec![
            BlobCopy { rel: "t".into(), class: BlobClass::Thumbs, size: 1 },
            BlobCopy { rel: "v".into(), class: BlobClass::Vectors, size: 1 },
        ],
    };
    let only_thumbs = filter_plan(plan(), Some(Only::Thumbs));
    assert!(only_thumbs.segments.is_empty());
    assert_eq!(only_thumbs.blobs.len(), 1);
    assert_eq!(only_thumbs.blobs[0].rel, "t");
    let only_segments = filter_plan(plan(), Some(Only::Segments));
    assert_eq!(only_segments.segments.len(), 1);
    assert!(only_segments.blobs.is_empty());
    let all = filter_plan(plan(), None);
    assert_eq!((all.segments.len(), all.blobs.len()), (1, 2));
}

#[test]
fn pull_outcome_carries_the_rows_when_the_apply_fails() {
    let rows = vec![ran("a", vec![])];
    match pull_outcome(rows, Err("sqlite locked".to_string())) {
        Err(majestical_services::error::ServiceError::SyncPullApplyFailed { rows, source }) => {
            assert_eq!(rows.len(), 1);
            assert_eq!(source, "sqlite locked");
        }
        _ => panic!("expected SyncPullApplyFailed"),
    }
    let ok = pull_outcome(vec![ran("a", vec![])], Ok(())).expect("applied");
    assert_eq!(ok.applied_events, 0);
    assert!(!ok.overall_failed());
}

#[test]
fn an_unreachable_location_is_a_skipped_row() {
    let loc = majestical_services::sync::Location {
        name: "nas".into(),
        path: "/Volumes/nas".into(),
        extra: toml::Table::new(),
    };
    match location_row(&loc, TransferRun::Unreachable) {
        LocationRow::Skipped { name, reason } => {
            assert_eq!(name, "nas");
            assert_eq!(reason, "unreachable at /Volumes/nas — skipped");
        }
        _ => panic!("expected Skipped"),
    }
    let outcome = TransferOutcome {
        segments_copied: 2,
        segment_bytes: 30,
        blobs_copied: 1,
        blob_bytes: 4,
        events_added: vec![("m1".into(), 2)],
        failures: vec![("/x".into(), "denied".into())],
    };
    match location_row(&loc, TransferRun::Ran(outcome)) {
        LocationRow::Ran { name, segments_copied, failures, .. } => {
            assert_eq!((name.as_str(), segments_copied), ("nas", 2));
            assert_eq!(failures[0].path, "/x");
            assert_eq!(failures[0].error, "denied");
        }
        _ => panic!("expected Ran"),
    }
}

fn config_with(names: &[&str]) -> majestical_services::sync::SyncConfig {
    majestical_services::sync::SyncConfig {
        readonly: false,
        locations: names
            .iter()
            .map(|n| majestical_services::sync::Location {
                name: n.to_string(),
                path: format!("/mnt/{n}"),
                extra: toml::Table::new(),
            })
            .collect(),
        extra: toml::Table::new(),
    }
}

#[test]
fn resolve_targets_names_the_configured_locations_when_none_matches() {
    let cfg = config_with(&["a", "b"]);
    assert_eq!(resolve_targets(&cfg, None).expect("all"), vec![0, 1]);
    assert_eq!(resolve_targets(&cfg, Some("b")).expect("one"), vec![1]);
    let err = resolve_targets(&cfg, Some("c")).expect_err("unknown");
    assert_eq!(err, "no sync location named 'c' — configured: a, b");
    let empty = config_with(&[]);
    assert!(resolve_targets(&empty, None).expect_err("none").contains("no sync locations configured"));
}

#[test]
fn location_add_trims_rejects_duplicates_and_rm_round_trips() {
    let mut cfg = config_with(&["nas"]);
    let err = location_add(&mut cfg, "  ", "/x", PathProbe::Canonical("/x".into())).expect_err("empty");
    assert_eq!(err.message(), "sync location name must not be empty");
    let err = location_add(&mut cfg, "nas", "/x", PathProbe::Canonical("/x".into())).expect_err("dup");
    assert!(err.message().contains("already configured"));
    let err = location_add(&mut cfg, "usb", "/missing", PathProbe::NotADirectory).expect_err("missing");
    assert!(err.message().contains("not an accessible directory"));
    let dirs = location_add(&mut cfg, "  usb  ", "./usb", PathProbe::Canonical("/mnt/usb".into()))
        .expect("add");
    assert_eq!(dirs, vec!["/mnt/usb/events".to_string(), "/mnt/usb/blobs".to_string()]);
    assert_eq!(cfg.locations.len(), 2);
    assert_eq!(cfg.locations[1].name, "usb");
    location_rm(&mut cfg, "usb").expect("rm");
    assert_eq!(cfg.locations.len(), 1);
    let err = location_rm(&mut cfg, "ghost").expect_err("unknown rm");
    assert!(err.message().contains("no sync location named"));
}

#[test]
fn push_refuses_for_a_readonly_member_and_without_a_catalog() {
    let mut cfg = config_with(&["a"]);
    let req = PushRequest { location: None, only: None };
    let err = push("/cat", false, "/state/sync.toml", &cfg, &req).expect_err("no catalog");
    assert!(err.message().contains("maj catalog init"));
    cfg.readonly = true;
    let err = push("/cat", true, "/state/sync.toml", &cfg, &req).expect_err("readonly");
    assert!(err.message().starts_with("readonly = true in /state/sync.toml"));
    let targets = pull("/cat", true, &cfg, &PullRequest { location: None, only: None }).expect("pull still runs");
    assert_eq!(targets, vec![0]);
}

#[test]
fn config_path_joins_the_state_dir() {
    assert_eq!(majestical_services::sync::config_path("/state"), "/state/sync.toml");
    assert_eq!(majestical_services::sync::config_path("/state/"), "/state/sync.toml");
}

#[test]
fn add_rejects_an_unreachable_path() {
    let mut cfg = config_with(&[]);
    let err = location_add(&mut cfg, "nas", "/tmp/scratch/missing", PathProbe::NotADirectory)
        .expect_err("unreachable path must fail");
    assert!(err.message().contains("not an accessible directory"));
}

#[test]
fn add_rejects_an_empty_name() {
    let mut cfg = config_with(&[]);
    let err = location_add(&mut cfg, "  ", "/tmp/scratch", PathProbe::Canonical("/tmp/scratch".into()))
        .expect_err("empty name must fail");
    assert!(err.message().contains("must not be empty"));
}

#[test]
fn push_of_an_unconfigured_catalog_errors_naming_the_remedy() {
    let cfg = config_with(&[]);
    let err = push("/cat", true, "/state/sync.toml", &cfg, &PushRequest { location: None, only: None })
        .expect_err("no locations must error");
    assert!(err.message().contains("no sync locations configured"));
}

#[test]
fn push_refuses_when_this_machine_is_readonly() {
    let mut cfg = config_with(&["nas"]);
    cfg.readonly = true;
    let err = push("/cat", true, "/state/sync.toml", &cfg, &PushRequest { location: None, only: None })
        .expect_err("readonly must refuse");
    assert!(err.message().contains("read-only sync member"));
}

#[test]
fn push_reports_a_skipped_row_for_an_unreachable_location() {
    let cfg = config_with(&["gone"]);
    let targets = push("/cat", true, "/state/sync.toml", &cfg, &PushRequest { location: None, only: None })
        .expect("push");
    assert_eq!(targets, vec![0]);
    let rows = vec![location_row(&cfg.locations[0], TransferRun::Unreachable)];
    assert_eq!(rows.len(), 1);
    assert!(matches!(rows[0], LocationRow::Skipped { .. }));
    assert!(overall_failed(&rows), "an all-skipped push must fail");
}

#[test]
fn status_of_a_nonexistent_catalog_names_catalog_init() {
    let err = status("/tmp/nope", false, &config_with(&[]), vec![]).expect_err("missing catalog must error");
    assert!(err.message().contains("maj catalog init"));
}

#[test]
fn pull_carries_completed_rows_when_the_local_apply_fails() {
    let cfg = config_with(&["nas"]);
    let targets = pull("/cat", true, &cfg, &PullRequest { location: None, only: None }).expect("targets");
    let ran = TransferOutcome {
        segments_copied: 1,
        segment_bytes: 10,
        blobs_copied: 0,
        blob_bytes: 0,
        events_added: vec![("m2".into(), 3)],
        failures: vec![],
    };
    let err = pull_run(&cfg, &targets, vec![TransferRun::Ran(ran)], Err("catalog.db is a directory".into()))
        .expect_err("the apply failed");
    match err {
        ServiceError::SyncPullApplyFailed { rows, source } => {
            assert_eq!(rows.len(), 1);
            assert!(matches!(&rows[0], LocationRow::Ran { name, .. } if name == "nas"));
            assert!(!source.is_empty());
        }
        other => panic!("expected the apply-failure carrier, got {other:?}"),
    }
}

#[test]
fn pull_run_tallies_every_targets_row_when_the_apply_succeeds() {
    let cfg = config_with(&["a", "b"]);
    let targets = vec![0, 1];
    let ran = TransferOutcome {
        segments_copied: 1,
        segment_bytes: 10,
        blobs_copied: 2,
        blob_bytes: 8,
        events_added: vec![("m2".into(), 3)],
        failures: vec![],
    };
    let outcome = pull_run(&cfg, &targets, vec![TransferRun::Ran(ran), TransferRun::Unreachable], Ok(()))
        .expect("applied");
    assert_eq!(outcome.rows.len(), 2);
    assert_eq!(outcome.applied_events, 3);
    assert_eq!(outcome.blobs_fetched, 2);
    assert_eq!(outcome.machines, vec!["m2".to_string()]);
    assert!(matches!(&outcome.rows[1], LocationRow::Skipped { name, .. } if name == "b"));
}
