use majestical_services::para::{ParaKind, ParaNode};
use majestical_services::ingest::{
    asset_and_para_ops, check_resume, ingest_subdir, known_asset_pairs, manifest_ops, resolve_ingest_node, volume_seen_ops, DestPlacement, IngestOp, PlacedFile, WrittenGeneration,
};
use majestical_services::ingest::{
    ingest_unfinished, journal_run_id, unfinished_run_at, DedupeMode, JournalFold, RunStart,
    RunsEntry,
};

fn started(run: &str, planned: u64) -> Option<RunStart> {
    Some(RunStart {
        run: run.to_string(),
        planned,
        source: "/Volumes/card".to_string(),
        dests: vec!["/Volumes/one".to_string()],
    })
}

fn strings(v: &[&str]) -> Vec<String> {
    v.iter().map(|s| s.to_string()).collect()
}

fn journal(stem: &str, fold: JournalFold) -> RunsEntry {
    RunsEntry::Journal { stem: stem.to_string(), path: format!("/cat/runs/{stem}.jsonl"), fold: Ok(fold) }
}

#[test]
fn ingest_unfinished_lists_a_cancelled_run_with_its_placed_and_planned_counts() {
    let fold = JournalFold {
        started: started("01RUN", 2),
        attempted: strings(&["a.jpg"]),
        placed: strings(&["a.jpg"]),
    };
    let outcome = ingest_unfinished("/cat/runs", Vec::new(), vec![journal("01RUN", fold)]);
    assert_eq!(outcome.runs.len(), 1);
    let listed = &outcome.runs[0];
    assert_eq!(listed.run_id, "01RUN");
    assert_eq!(listed.placed, 1);
    assert_eq!(listed.planned, 2, "the queued file nobody popped still counts as planned");
    assert_eq!(listed.source, "/Volumes/card");
    assert_eq!(listed.destinations, vec!["/Volumes/one".to_string()]);
    assert!(outcome.notices.is_empty(), "{:?}", outcome.notices);
}

#[test]
fn ingest_unfinished_ignores_a_run_that_placed_everything() {
    let fold = JournalFold {
        started: started("01RUN", 2),
        attempted: strings(&["a.jpg", "b.jpg"]),
        placed: strings(&["a.jpg", "b.jpg"]),
    };
    let outcome = ingest_unfinished("/cat/runs", Vec::new(), vec![journal("01RUN", fold)]);
    assert!(outcome.runs.is_empty());
}

#[test]
fn ingest_unfinished_on_a_fresh_catalog_is_empty() {
    let outcome = ingest_unfinished("/cat/runs", Vec::new(), Vec::new());
    assert!(outcome.runs.is_empty());
    assert!(outcome.notices.is_empty());
}

#[test]
fn ingest_unfinished_lists_the_newest_run_first() {
    let entries = ["01AAAAAAAAAAAAAAAAAAAAAAAA", "01BBBBBBBBBBBBBBBBBBBBBBBB"]
        .iter()
        .map(|id| journal(id, JournalFold { started: started(id, 2), attempted: Vec::new(), placed: Vec::new() }))
        .collect();
    let outcome = ingest_unfinished("/cat/runs", Vec::new(), entries);
    let ids: Vec<&str> = outcome.runs.iter().map(|r| r.run_id.as_str()).collect();
    assert_eq!(ids, vec!["01BBBBBBBBBBBBBBBBBBBBBBBB", "01AAAAAAAAAAAAAAAAAAAAAAAA"]);
    assert_eq!(outcome.runs[0].placed, 0, "nothing was ever placed");
    assert_eq!(outcome.runs[0].planned, 2);
}

#[test]
fn ingest_unfinished_notices_an_unreadable_journal_and_keeps_the_rest() {
    let fold = JournalFold {
        started: started("01RUN", 2),
        attempted: strings(&["a.jpg"]),
        placed: strings(&["a.jpg"]),
    };
    let entries = vec![
        RunsEntry::Journal {
            stem: "01BOGUSRUNID".to_string(),
            path: "/cat/runs/01BOGUSRUNID.jsonl".to_string(),
            fold: Err("Is a directory (os error 21)".to_string()),
        },
        journal("01RUN", fold),
        RunsEntry::Other,
    ];
    let outcome = ingest_unfinished("/cat/runs", vec!["earlier".to_string()], entries);
    assert_eq!(outcome.runs.len(), 1);
    assert_eq!(outcome.runs[0].run_id, "01RUN");
    assert_eq!(outcome.notices.len(), 2, "{:?}", outcome.notices);
    assert_eq!(outcome.notices[0], "earlier");
    assert_eq!(
        outcome.notices[1],
        "skipping unreadable run journal /cat/runs/01BOGUSRUNID.jsonl: Is a directory (os error 21)"
    );
}

#[test]
fn an_unreadable_directory_entry_is_noticed() {
    let outcome = ingest_unfinished(
        "/cat/runs",
        Vec::new(),
        vec![RunsEntry::Unreadable { reason: "permission denied".to_string() }],
    );
    assert_eq!(outcome.notices, vec!["skipping an unreadable entry in /cat/runs: permission denied".to_string()]);
}

#[test]
fn a_journal_without_a_start_record_falls_back_to_its_file_name_and_attempts() {
    let fold = JournalFold {
        started: None,
        attempted: strings(&["a.jpg", "b.jpg", "c.jpg"]),
        placed: strings(&["b.jpg", "stray.jpg"]),
    };
    let run = unfinished_run_at(fold, "01STEM".to_string()).expect("unfinished");
    assert_eq!(run.run_id, "01STEM");
    assert_eq!(run.placed, 1, "a placed file nobody attempted never counts");
    assert_eq!(run.planned, 3);
    assert_eq!(run.source, "");
    assert!(run.destinations.is_empty());
}

#[test]
fn a_journal_that_set_out_to_copy_nothing_is_finished() {
    let fold = JournalFold { started: started("01RUN", 0), attempted: Vec::new(), placed: Vec::new() };
    assert!(unfinished_run_at(fold, "01RUN".to_string()).is_none());
}

#[test]
fn run_ids_come_from_jsonl_file_names_only() {
    assert_eq!(journal_run_id("01ABC.jsonl").as_deref(), Some("01ABC"));
    assert_eq!(journal_run_id("a.b.jsonl").as_deref(), Some("a.b"));
    assert_eq!(journal_run_id(".jsonl"), None);
    assert_eq!(journal_run_id("01ABC.json"), None);
    assert_eq!(journal_run_id("notes"), None);
}

#[test]
fn dedupe_modes_copy_or_skip_known_duplicates() {
    assert!(DedupeMode::Copy.copies_duplicates());
    assert!(!DedupeMode::Skip.copies_duplicates());
}

fn placed(xxh3: &str, xxh64: &str, size: u64) -> PlacedFile {
    PlacedFile { xxh3: xxh3.to_string(), xxh64: xxh64.to_string(), size }
}

fn at(path: &str, mtime_ms: u64) -> DestPlacement {
    DestPlacement { path: path.to_string(), mtime_ms }
}

#[test]
fn asset_and_para_ops_sight_and_verify_every_file_at_every_destination_and_assign_each_asset_once() {
    let files = vec![placed("aa", "11", 4), placed("aa", "11", 4), placed("bb", "22", 7)];
    let spots = vec![
        vec![at("p/one.jpg", 5), at("q/one.jpg", 6)],
        vec![at("p/two.jpg", 5), at("q/two.jpg", 6)],
        vec![at("p/three.jpg", 8), at("q/three.jpg", 9)],
    ];
    let dests = vec!["vol-p".to_string(), "vol-q".to_string()];
    let ops = asset_and_para_ops(&files, &spots, &dests, "node-1", 1000);
    // 3 files x 2 destinations x (sighting + verification) + 2 distinct assets
    assert_eq!(ops.len(), 14);
    match &ops[0] {
        IngestOp::AssetSeen { asset, volume, path, size, mtime_ms } => {
            assert_eq!(asset, "xxh3:aa");
            assert_eq!(volume, "vol-p");
            assert_eq!(path, "p/one.jpg");
            assert_eq!((*size, *mtime_ms), (4, 5));
        }
        other => panic!("expected a sighting, got {other:?}"),
    }
    match &ops[3] {
        IngestOp::Verified { asset, volume, path, xxh64, hashdate_ms } => {
            assert_eq!(asset, "xxh3:aa");
            assert_eq!(volume, "vol-q");
            assert_eq!(path, "q/one.jpg");
            assert_eq!(xxh64, "11");
            assert_eq!(*hashdate_ms, 1000);
        }
        other => panic!("expected a verification, got {other:?}"),
    }
    let assigned: Vec<&str> = ops
        .iter()
        .filter_map(|op| match op {
            IngestOp::AssetParaSet { asset, node } => {
                assert_eq!(node, "node-1");
                Some(asset.as_str())
            }
            _ => None,
        })
        .collect();
    assert_eq!(assigned, vec!["xxh3:aa", "xxh3:bb"]);
    assert!(matches!(&ops[4], IngestOp::AssetParaSet { .. }));
    assert!(matches!(&ops[9], IngestOp::AssetSeen { .. }), "the second copy of aa gets no assignment");
}

#[test]
fn volume_seen_ops_lists_the_source_then_each_destination() {
    let ops = volume_seen_ops("src-id", "CARD", &vec![("d1".to_string(), "One".to_string())]);
    assert_eq!(ops.len(), 2);
    match (&ops[0], &ops[1]) {
        (IngestOp::VolumeSeen { volume: v0, label: l0 }, IngestOp::VolumeSeen { volume: v1, label: l1 }) => {
            assert_eq!((v0.as_str(), l0.as_str()), ("src-id", "CARD"));
            assert_eq!((v1.as_str(), l1.as_str()), ("d1", "One"));
        }
        other => panic!("expected two volume sightings, got {other:?}"),
    }
}

#[test]
fn manifest_ops_record_the_generation_written_at_each_destination_root() {
    let dests = vec![
        ("/Volumes/one".to_string(), "vol-1".to_string()),
        ("/Volumes/two".to_string(), "vol-2".to_string()),
    ];
    let gens = vec![WrittenGeneration {
        root: "/Volumes/two".to_string(),
        file_name: "0003_two_2024-05-01_120000Z.mhl".to_string(),
        generation: 3,
        roothash: "abc".to_string(),
    }];
    let ops = manifest_ops(&dests, &gens);
    assert_eq!(ops.len(), 1, "a destination with no generation records nothing");
    match &ops[0] {
        IngestOp::ManifestRecorded { volume, mhl_path, generation, roothash } => {
            assert_eq!(volume, "vol-2");
            assert_eq!(mhl_path, "ascmhl/0003_two_2024-05-01_120000Z.mhl");
            assert_eq!(*generation, 3);
            assert_eq!(roothash, "abc");
        }
        other => panic!("expected a manifest record, got {other:?}"),
    }
}

#[test]
fn known_asset_pairs_strip_the_prefix_and_skip_foreign_ids() {
    let assets = vec![
        ("xxh3:00ff".to_string(), vec![10, 12]),
        ("sha1:abcd".to_string(), vec![7]),
        ("xxh3:beef".to_string(), vec![]),
        ("xxh3:cafe".to_string(), vec![3]),
    ];
    assert_eq!(
        known_asset_pairs(&assets),
        vec![("00ff".to_string(), 10), ("00ff".to_string(), 12), ("cafe".to_string(), 3)]
    );
}

fn node(id: &str, kind: Option<ParaKind>, name: Option<&str>, archived: bool) -> ParaNode {
    ParaNode { id: id.to_string(), kind, name: name.map(|n| n.to_string()), archived }
}

#[test]
fn resolve_ingest_node_finds_an_active_target_by_path_or_id() {
    let nodes = vec![node("01A", Some(ParaKind::Project), Some("client-x"), false)];
    let by_path = resolve_ingest_node(&nodes, "project/client-x").expect("resolves");
    assert_eq!(by_path, ("01A".to_string(), ParaKind::Project, "client-x".to_string()));
    let by_id = resolve_ingest_node(&nodes, "01A").expect("resolves");
    assert_eq!(by_id.0, "01A");
}

#[test]
fn resolve_ingest_node_refuses_a_missing_or_archived_target() {
    let nodes = vec![node("01A", Some(ParaKind::Project), Some("client-x"), true)];
    let missing = resolve_ingest_node(&nodes, "project/nope").expect_err("must fail");
    assert!(missing.contains("no active PARA node"), "{missing}");
    let archived = resolve_ingest_node(&nodes, "01A").expect_err("must fail");
    assert_eq!(archived, "PARA node 01A is archived — ingest targets must be active; see `maj para list`");
    let nameless = vec![node("01B", Some(ParaKind::Area), None, false)];
    assert_eq!(resolve_ingest_node(&nameless, "01B").expect_err("must fail"), "PARA node 01B has no name recorded");
}

#[test]
fn ingest_subdir_uses_kind_dir_name_and_the_node_name() {
    assert_eq!(ingest_subdir(ParaKind::Area, "health", "camera-a"), "Areas/health/camera-a");
}

#[test]
fn resuming_a_run_without_a_journal_is_refused_naming_the_id() {
    assert!(check_resume("01ABC", true).is_ok());
    assert_eq!(
        check_resume("01ABC", false).expect_err("no journal"),
        "no journal for run '01ABC' — check the id printed at the start of the original run"
    );
}

#[test]
fn resume_notice_names_the_run_id_twice() {
    assert_eq!(
        majestical_services::ingest::resume_notice("01ABC"),
        "run 01ABC — resume with: --resume 01ABC"
    );
}
