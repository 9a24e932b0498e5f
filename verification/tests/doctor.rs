use majestical_services::doctor::{is_blob_orphan, is_run_orphan};
use majestical_services::doctor::{check_platform, probe_binary};
use majestical_services::index::{record_failures, IndexRunOutcome, ItemFailure};
use majestical_services::doctor::{
    as_imagemagick_row, check_describer, check_failed_items, doctor, BinaryRun, CatalogProbe,
    CheckStatus, DoctorCheck, DoctorProbes, DoctorRequest, ResidueProbe, StateDirProbe,
};
use majestical_services::index::Ledger;
use majestical_services::notices::Notices;
use majestical_services::describer_config::{DescriberBackend, DescriberConfig};

fn probes() -> DoctorProbes {
    DoctorProbes {
        ffmpeg: BinaryRun::SpawnFailed("No such file or directory (os error 2)".into()),
        magick: BinaryRun::Exited {
            success: true,
            stdout_first_line: Some("Version: ImageMagick 7".into()),
            stderr_first_line: String::new(),
            status: "exit status: 0".into(),
        },
        models: vec![],
        state_dir: StateDirProbe::Unresolved("canonicalizing catalog: No such file".into()),
        catalog: CatalogProbe::OpenFailed("no catalog at /definitely/not/a/real/maj/catalog/path-xyz — run `maj catalog init` first".into()),
        residue: ResidueProbe::Unresolved("canonicalizing catalog: No such file".into()),
        ledger: Err("canonicalizing catalog: No such file".into()),
        describer: Err("canonicalizing catalog: No such file".into()),
        platform_absent: vec!["ocr::AVAILABLE".into(), "pdf::AVAILABLE".into()],
    }
}

fn find<'a>(checks: &'a [DoctorCheck], name: &str) -> &'a DoctorCheck {
    checks.iter().find(|c| c.name == name).unwrap_or_else(|| panic!("no `{name}` row"))
}

fn no_catalog() -> DoctorRequest {
    DoctorRequest { catalog: None, describer_env_key: None }
}

#[test]
fn doctor_with_no_catalog_warns_but_runs() {
    let outcome = doctor(&no_catalog(), probes(), &mut Notices::new()).expect("doctor must run with no catalog");
    assert_eq!(find(&outcome.checks, "catalog").status, CheckStatus::Warn);
    assert_eq!(find(&outcome.checks, "state_dir").status, CheckStatus::Warn);
    assert_eq!(find(&outcome.checks, "blob_residue").status, CheckStatus::Warn);
    let _ = find(&outcome.checks, "ffmpeg");
}

#[test]
fn doctor_emits_checks_in_documented_order() {
    let outcome = doctor(&no_catalog(), probes(), &mut Notices::new()).expect("doctor");
    let names: Vec<&str> = outcome.checks.iter().map(|c| c.name.as_str()).collect();
    assert_eq!(
        names,
        vec![
            "ffmpeg",
            "imagemagick",
            "models",
            "state_dir",
            "catalog",
            "blob_residue",
            "failed_items",
            "describer",
            "platform",
        ]
    );
}

#[test]
fn failed_items_warns_without_a_catalog() {
    let check = check_failed_items(None, Ok(Ledger::new()));
    assert_eq!(check.status, CheckStatus::Warn);
    assert_eq!(check.detail, "no catalog selected");
    assert_eq!(check.remedy, None);
}

#[test]
fn failed_items_fails_when_the_ledger_cannot_be_read() {
    let check = check_failed_items(
        Some("/definitely/not/a/real/maj/catalog/path-xyz"),
        Err("canonicalizing /definitely/not/a/real/maj/catalog/path-xyz: No such file or directory".into()),
    );
    assert_eq!(check.status, CheckStatus::Fail);
    assert!(!check.detail.is_empty());
    assert_eq!(check.remedy, None);
}

#[test]
fn describer_warns_without_a_catalog() {
    let check = check_describer(None, Ok(None), None);
    assert_eq!(check.status, CheckStatus::Warn);
    assert_eq!(check.detail, "no catalog selected");
}

#[test]
fn doctor_with_missing_catalog_path_fails_catalog_row() {
    let req = DoctorRequest {
        catalog: Some("/definitely/not/a/real/maj/catalog/path-xyz".into()),
        describer_env_key: None,
    };
    let outcome = doctor(&req, probes(), &mut Notices::new()).expect("a bad catalog path is a row, not an Err");
    let catalog_row = find(&outcome.checks, "catalog");
    assert_eq!(catalog_row.status, CheckStatus::Fail);
    assert!(catalog_row.remedy.is_some(), "a Fail row must carry a remedy");
}

#[test]
fn imagemagick_row_is_renamed_and_only_a_failure_gets_the_remedy() {
    let ok = as_imagemagick_row(DoctorCheck {
        name: "magick".to_string(),
        status: CheckStatus::Pass,
        detail: "Version: ImageMagick 7".to_string(),
        remedy: None,
    });
    assert_eq!(ok.name, "imagemagick");
    assert_eq!(ok.remedy, None);

    let fail = as_imagemagick_row(DoctorCheck {
        name: "magick".to_string(),
        status: CheckStatus::Fail,
        detail: "could not run magick".to_string(),
        remedy: Some("brew install magick".to_string()),
    });
    assert_eq!(fail.name, "imagemagick");
    assert_eq!(fail.remedy.as_deref(), Some("brew install imagemagick"));
}

#[test]
fn failed_items_warns_with_count_names_three_paths_and_the_retry_remedy() {
    let mut ledger = Ledger::new();
    let row = |i: usize| majestical_services::index::LedgerRow {
        asset: format!("asset{i}"),
        path: format!("/cat/broken-{i}.jpg"),
        error: "decode failed".into(),
    };
    ledger.insert("embeddings".into(), vec![row(1), row(3)]);
    ledger.insert("thumbs".into(), vec![row(0), row(2), row(4)]);
    let check = check_failed_items(Some("/cat"), Ok(ledger));
    assert_eq!(check.status, CheckStatus::Warn);
    assert_eq!(
        check.detail,
        "5 item(s) skipped after failing permanently: /cat/broken-1.jpg, /cat/broken-3.jpg, /cat/broken-0.jpg"
    );
    assert_eq!(
        check.remedy.as_deref(),
        Some("maj index run --retry-failed (or Retry failed items in Settings → Always-on)")
    );
}

#[test]
fn describer_needs_a_key_for_openrouter_only() {
    let cfg = |backend| DescriberConfig {
        backend,
        base_url: "http://x".into(),
        model: "test-model".into(),
        api_key: None,
    };
    let local = check_describer(Some("/cat"), Ok(Some(cfg(DescriberBackend::Ollama))), None);
    assert_eq!((local.status, local.detail.as_str()), (CheckStatus::Pass, "ollama · test-model"));
    let missing = check_describer(Some("/cat"), Ok(Some(cfg(DescriberBackend::OpenRouter))), None);
    assert_eq!(missing.status, CheckStatus::Fail);
    assert!(missing.detail.contains("MAJ_OPENROUTER_KEY"));
    let env = check_describer(Some("/cat"), Ok(Some(cfg(DescriberBackend::OpenRouter))), Some("sk-env".into()));
    assert_eq!(env.detail, "open-router · test-model · key configured");
}

/// `count` permanent failures under `root`, alternating between the thumb
/// and embedding kinds, recorded the way a run records them; returns the
/// paths recorded.
fn record_permanent_failures(root: &str, count: usize) -> (Ledger, Vec<String>) {
    let mut outcome = IndexRunOutcome::default();
    let mut paths = Vec::new();
    for i in 0..count {
        let path = format!("{root}/broken-{i}.jpg");
        paths.push(path.clone());
        let failure = ItemFailure { asset: format!("asset{i}"), path, error: "decode failed".to_string(), transient: false };
        if i % 2 == 0 {
            outcome.thumbs.failed.push(failure);
        } else {
            outcome.embed.failed.push(failure);
        }
    }
    (record_failures(Ledger::new(), &outcome), paths)
}

fn stored_describer(backend: DescriberBackend, api_key: Option<&str>) -> DescriberConfig {
    DescriberConfig {
        backend,
        base_url: "http://localhost:1234".to_string(),
        model: "test-model".to_string(),
        api_key: api_key.map(str::to_string),
    }
}

const RETRY_REMEDY: &str = "maj index run --retry-failed (or Retry failed items in Settings → Always-on)";

#[test]
fn failed_items_is_ok_on_an_empty_ledger() {
    let check = check_failed_items(Some("/cat"), Ok(Ledger::new()));
    assert_eq!(check.status, CheckStatus::Pass);
    assert_eq!(check.detail, "no known failures");
    assert_eq!(check.remedy, None);
}

#[test]
fn failed_items_warns_with_count_and_remedy() {
    let (ledger, paths) = record_permanent_failures("/cat", 2);
    let check = check_failed_items(Some("/cat"), Ok(ledger));
    assert_eq!(check.status, CheckStatus::Warn);
    assert!(check.detail.contains("2 item(s)"), "{}", check.detail);
    for path in &paths {
        assert!(check.detail.contains(path.as_str()), "{}", check.detail);
    }
    assert_eq!(check.remedy.as_deref(), Some(RETRY_REMEDY));
}

#[test]
fn failed_items_names_at_most_three_paths() {
    let (ledger, paths) = record_permanent_failures("/cat", 5);
    let check = check_failed_items(Some("/cat"), Ok(ledger));
    assert!(check.detail.contains("5 item(s)"), "{}", check.detail);
    let named = paths.iter().filter(|p| check.detail.contains(p.as_str())).count();
    assert_eq!(named, 3, "{}", check.detail);
}

#[test]
fn describer_is_ok_when_unconfigured() {
    let check = check_describer(Some("/cat"), Ok(None), None);
    assert_eq!(check.status, CheckStatus::Pass);
    assert_eq!(check.detail, "no describer configured — captions off");
    assert_eq!(check.remedy, None);
}

#[test]
fn describer_is_ok_for_a_local_backend() {
    let check = check_describer(Some("/cat"), Ok(Some(stored_describer(DescriberBackend::Ollama, None))), None);
    assert_eq!(check.status, CheckStatus::Pass);
    assert_eq!(check.detail, "ollama · test-model");
    assert_eq!(check.remedy, None);
}

#[test]
fn describer_is_ok_for_lm_studio_even_with_an_env_key() {
    let check = check_describer(
        Some("/cat"),
        Ok(Some(stored_describer(DescriberBackend::LmStudio, None))),
        Some("sk-env".to_string()),
    );
    assert_eq!(check.status, CheckStatus::Pass);
    assert_eq!(check.detail, "lm-studio · test-model");
}

#[test]
fn describer_fails_for_openrouter_without_any_key() {
    let check = check_describer(Some("/cat"), Ok(Some(stored_describer(DescriberBackend::OpenRouter, None))), None);
    assert_eq!(check.status, CheckStatus::Fail);
    assert_eq!(
        check.remedy.as_deref(),
        Some("OpenRouter needs an API key — save one in Settings → Captions, or set it with `maj describer set --api-key` or MAJ_OPENROUTER_KEY")
    );
}

#[test]
fn describer_fail_detail_names_the_env_var() {
    let check = check_describer(Some("/cat"), Ok(Some(stored_describer(DescriberBackend::OpenRouter, None))), None);
    assert!(check.detail.contains("MAJ_OPENROUTER_KEY"), "{}", check.detail);
}

#[test]
fn describer_is_ok_for_openrouter_with_only_the_env_key() {
    let check = check_describer(
        Some("/cat"),
        Ok(Some(stored_describer(DescriberBackend::OpenRouter, None))),
        Some("sk-env".to_string()),
    );
    assert_eq!(check.status, CheckStatus::Pass);
    assert_eq!(check.detail, "open-router · test-model · key configured");
    assert_eq!(check.remedy, None);
}

#[test]
fn describer_is_ok_for_openrouter_with_only_the_file_key() {
    let check = check_describer(
        Some("/cat"),
        Ok(Some(stored_describer(DescriberBackend::OpenRouter, Some("sk-file")))),
        None,
    );
    assert_eq!(check.status, CheckStatus::Pass);
    assert_eq!(check.detail, "open-router · test-model · key configured");
}

fn probes_for_a_catalog(describer: Option<DescriberConfig>) -> DoctorProbes {
    DoctorProbes {
        catalog: CatalogProbe::Synced,
        describer: Ok(describer),
        ledger: Ok(Ledger::new()),
        ..probes()
    }
}

#[test]
fn doctor_passes_the_request_env_key_to_the_describer_row() {
    let without = doctor(
        &DoctorRequest { catalog: Some("/cat".into()), describer_env_key: None },
        probes_for_a_catalog(Some(stored_describer(DescriberBackend::OpenRouter, None))),
        &mut Notices::new(),
    )
    .expect("doctor");
    assert_eq!(find(&without.checks, "describer").status, CheckStatus::Fail);

    let with = doctor(
        &DoctorRequest { catalog: Some("/cat".into()), describer_env_key: Some("sk-env".to_string()) },
        probes_for_a_catalog(Some(stored_describer(DescriberBackend::OpenRouter, None))),
        &mut Notices::new(),
    )
    .expect("doctor");
    assert_eq!(find(&with.checks, "describer").status, CheckStatus::Pass);
}

#[test]
fn doctor_with_real_catalog_reports_ok_catalog() {
    let outcome = doctor(
        &DoctorRequest { catalog: Some("/cat".into()), describer_env_key: None },
        probes_for_a_catalog(None),
        &mut Notices::new(),
    )
    .expect("doctor");
    assert_eq!(find(&outcome.checks, "catalog").status, CheckStatus::Pass);
}

#[test]
fn probe_binary_missing_names_remedy() {
    let check = probe_binary(
        "definitely-not-a-real-binary-xyz",
        BinaryRun::SpawnFailed("No such file or directory (os error 2)".into()),
    );
    assert_eq!(check.status, CheckStatus::Fail);
    assert!(check.remedy.is_some());
}

#[test]
fn probe_binary_reports_ok_on_zero_exit_and_fail_otherwise() {
    let ok = probe_binary(
        "true",
        BinaryRun::Exited { success: true, stdout_first_line: None, stderr_first_line: String::new(), status: "exit status: 0".into() },
    );
    assert_eq!(ok.status, CheckStatus::Pass);
    assert_eq!(ok.detail, "true ran with no output");
    assert_eq!(ok.remedy, None);

    let fail = probe_binary(
        "false",
        BinaryRun::Exited { success: false, stdout_first_line: None, stderr_first_line: String::new(), status: "exit status: 1".into() },
    );
    assert_eq!(fail.status, CheckStatus::Fail);
    assert!(fail.detail.starts_with("false exited with"), "{}", fail.detail);
    assert_eq!(fail.remedy.as_deref(), Some("brew install false"));
}

#[test]
fn probe_binary_reports_fail_when_the_binary_is_absent() {
    let check = probe_binary(
        "majestical-no-such-binary-2026",
        BinaryRun::SpawnFailed("No such file or directory (os error 2)".into()),
    );
    assert_eq!(check.status, CheckStatus::Fail);
    assert!(check.detail.starts_with("could not run"), "{}", check.detail);
}

#[test]
fn platform_row_is_ok_on_macos() {
    let check = check_platform(&vec![]);
    assert_eq!(check.status, CheckStatus::Pass);
    assert_eq!(check.remedy, None);
}

#[test]
fn residue_is_a_tmp_blob_or_a_partial_journal() {
    assert!(is_blob_orphan(".tmp-123-4"));
    assert!(!is_blob_orphan("thumb.webp"));
    assert!(!is_blob_orphan("x.tmp-1"));
    assert!(is_run_orphan("01ABC.jsonl.partial"));
    assert!(!is_run_orphan("01ABC.jsonl"));
}
