use majestical_services::error::ServiceError;
use majestical_services::para::{archive_roots, ArchiveMove, MoveStatus};
use majestical_services::para::{archive_one_root, archive_outcome, archive_subject_of, check_archivable, RootProbe};
use majestical_services::notices::Notices;
use majestical_services::para::{add, rename, resolve_para_node, ParaKind, ParaNode};

fn node(id: &str, kind: ParaKind, name: &str, archived: bool) -> ParaNode {
    ParaNode { id: id.to_string(), kind: Some(kind), name: Some(name.to_string()), archived }
}

#[test]
fn add_creates_a_node_addressable_by_kind_and_name() {
    let mut nodes = Vec::new();
    let created = add(&nodes, "project", "client-x").expect("add");
    assert_eq!(created.kind, ParaKind::Project);
    assert_eq!(created.id.0.len(), 26);
    assert!(created.id.0.chars().all(|c| c.is_ascii_digit() || c.is_ascii_uppercase()));
    nodes.push(node(&created.id.0, created.kind, &created.name, false));
    assert_eq!(resolve_para_node(&nodes, "project/client-x").expect("resolve"), created.id.0);
}

#[test]
fn add_rejects_a_duplicate_active_name() {
    let nodes = vec![node("01A", ParaKind::Area, "home", false)];
    let err = add(&nodes, "area", "home").expect_err("duplicate");
    assert_eq!(err, "a PARA node 'area/home' already exists — see `maj para list`");
    let archived = vec![node("01A", ParaKind::Area, "home", true)];
    assert!(add(&archived, "area", "home").is_ok(), "an archived node frees its place");
}

#[test]
fn add_refuses_an_unknown_kind() {
    let err = add(&Vec::new(), "folder", "x").expect_err("unknown kind");
    assert_eq!(err, "unknown PARA kind 'folder' — one of: project, area, resource, archive");
}

#[test]
fn rename_of_an_unknown_node_errors() {
    let err = rename(&Vec::new(), "project/nope", "y").expect_err("must fail");
    assert!(err.contains("no active PARA node"), "{err}");
}

#[test]
fn rename_of_a_reference_with_no_slash_and_no_matching_id_errors() {
    let err = rename(&Vec::new(), "not-a-node-id", "y").expect_err("must fail");
    assert!(err.contains("unknown PARA node"), "{err}");
}

#[test]
fn rename_updates_the_node_name() {
    let nodes = vec![node("01N", ParaKind::Project, "client-x", false)];
    let (id, name) = rename(&nodes, "01N", "client-y").expect("rename");
    assert_eq!((id.as_str(), name.as_str()), ("01N", "client-y"));
}

#[test]
fn archive_with_no_roots_emits_the_event_and_reports_no_moves() {
    let nodes = vec![node("01A", ParaKind::Project, "client-x", false)];
    let (id, kind, _name) = archive_subject_of(&nodes, "01A").expect("resolves");
    assert_eq!(id, "01A");
    check_archivable(kind, false).expect("no roots is always archivable");
    let outcome = archive_outcome(vec![], false, &mut Notices::new());
    assert!(outcome.moves.is_empty());
    assert!(outcome.executed);
}

#[test]
fn archive_dry_run_with_no_roots_does_not_emit() {
    let nodes = vec![node("01A", ParaKind::Project, "client-x", false)];
    let (_, kind, _) = archive_subject_of(&nodes, "01A").expect("resolves");
    check_archivable(kind, false).expect("archivable");
    let outcome = archive_outcome(vec![], true, &mut Notices::new());
    assert!(outcome.moves.is_empty());
    assert!(!outcome.executed, "dry run must not archive");
}

#[test]
fn archive_of_an_archive_kind_node_errors() {
    let nodes = vec![node("01B", ParaKind::Archive, "old-stuff", false)];
    let (_, kind, _) = archive_subject_of(&nodes, "01B").expect("resolves");
    let err = check_archivable(kind, true).expect_err("must fail");
    assert!(err.contains("already under Archives/"), "{err}");
}

#[test]
fn archive_of_a_missing_source_errors_and_does_not_emit() {
    let probe = RootProbe { source_is_dir: false, target_is_dir: false, target_exists: false };
    let err = archive_one_root("/tmp/root", ParaKind::Project, "client-x", false, &probe).expect_err("must fail");
    assert!(err.contains("does not exist"), "{err}");
}

#[test]
fn archive_failing_on_a_later_root_carries_the_earlier_roots_completed_moves() {
    let moved = ArchiveMove {
        from: "/r1/Projects/client-x".into(),
        to: "/r1/Archives/client-x".into(),
        status: MoveStatus::Moved,
    };
    let err = archive_roots(vec![Ok(moved), Err("source directory /r2/Projects/client-x does not exist — nothing to archive".into())])
        .expect_err("the second root failed");
    match err {
        ServiceError::ParaArchivePartial { moves, source } => {
            assert_eq!(moves.len(), 1, "the first root's completed move travels with the error");
            assert_eq!(moves[0].from, "/r1/Projects/client-x");
            assert!(source.contains("does not exist"));
        }
        other => panic!("expected ParaArchivePartial, got {other:?}"),
    }
    let all = archive_roots(vec![Ok(ArchiveMove {
        from: "/r1/Projects/x".into(),
        to: "/r1/Archives/x".into(),
        status: MoveStatus::Planned,
    })])
    .expect("every root succeeded");
    assert_eq!(all.len(), 1);
}
