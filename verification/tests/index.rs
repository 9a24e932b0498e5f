use majestical_services::index::cleared_ledger;
use majestical_services::index::{index_status, push_platform_unavailable_notices, workkind_name, CaptionOutcome, PdfOutcome};
use majestical_services::notices::Notices;
use majestical_services::index::{
    apply_ledger, clear_failures, merge_ledger, model_fetch, permanent_failures,
    platform_unavailable_notice, record_failures, rows_for, IndexRunOutcome, ItemFailure,
    KindStatus, Ledger, LedgerRow, OcrOutcome, ThumbOutcome, TranscribeOutcome,
    TranscriptEmbedOutcome, WorkItem, WorkKind, WorkPlan,
};
use majestical_services::index::transcript_model_remedy;

fn row(asset: &str, error: &str) -> LedgerRow {
    LedgerRow { asset: asset.to_string(), path: "/media/x".to_string(), error: error.to_string() }
}

fn failure(asset: &str, error: &str, transient: bool) -> ItemFailure {
    ItemFailure {
        asset: asset.to_string(),
        path: "/media/x".to_string(),
        error: error.to_string(),
        transient,
    }
}

fn ledger_of(entries: Vec<(&str, Vec<LedgerRow>)>) -> Ledger {
    let mut l = Ledger::new();
    for (kind, rows) in entries {
        l.insert(kind.to_string(), rows);
    }
    l
}

fn assets(rows: &[LedgerRow]) -> Vec<&str> {
    rows.iter().map(|r| r.asset.as_str()).collect()
}

#[test]
fn model_fetch_rejects_an_unknown_only_tag() {
    let known = vec!["siglip".to_string(), "whisper".to_string(), "minilm".to_string()];
    let err = model_fetch(&known, &vec!["not-a-real-model".to_string()]).expect_err("must fail");
    assert!(err.message().contains("unknown model tag"));
    assert_eq!(err.message(), "unknown model tag not-a-real-model; known: siglip, whisper, minilm");
}

#[test]
fn model_fetch_selects_every_model_or_only_the_named_ones_in_registry_order() {
    let known = vec!["siglip".to_string(), "whisper".to_string(), "minilm".to_string()];
    assert_eq!(model_fetch(&known, &vec![]).expect("all"), vec![0, 1, 2]);
    let only = vec!["minilm".to_string(), "siglip".to_string()];
    assert_eq!(model_fetch(&known, &only).expect("named"), vec![0, 2]);
}

#[test]
fn platform_unavailable_notice_names_capability_framework_and_count() {
    let notice = platform_unavailable_notice("OCR", "the Vision framework", 3);
    assert!(notice.contains("OCR"), "{notice}");
    assert!(notice.contains("the Vision framework"), "{notice}");
    assert!(notice.contains("macOS"), "{notice}");
    assert!(notice.contains("3 eligible asset(s)"), "{notice}");
    assert_eq!(
        notice,
        "OCR is unavailable in this build (requires the Vision framework, macOS only) — 3 eligible asset(s) are not queued"
    );
}

#[test]
fn merge_ledger_replaces_a_refailed_row_and_keeps_other_kinds() {
    let previous = ledger_of(vec![
        ("pdf", vec![row("xxh3:aa", "not a valid pdf"), row("xxh3:bb", "stale")]),
        ("thumbs", vec![row("xxh3:cc", "old")]),
    ]);
    let current = ledger_of(vec![("pdf", vec![row("xxh3:aa", "still broken"), row("xxh3:dd", "new")])]);

    let merged = merge_ledger(previous, &current);
    let pdf = merged.get("pdf").expect("pdf");
    assert_eq!(pdf.len(), 3, "one row per asset, never a duplicate");
    let refailed = pdf.iter().find(|r| r.asset == "xxh3:aa").expect("the re-failed row");
    assert_eq!(refailed.error, "still broken");
    assert!(pdf.iter().any(|r| r.asset == "xxh3:bb"));
    assert!(pdf.iter().any(|r| r.asset == "xxh3:dd"));
    let thumbs = merged.get("thumbs").expect("thumbs");
    assert_eq!(thumbs.len(), 1);
    assert_eq!((thumbs[0].asset.as_str(), thumbs[0].error.as_str()), ("xxh3:cc", "old"));
}

#[test]
fn permanent_failures_drops_transient_rows() {
    let outcome = IndexRunOutcome {
        thumbs: ThumbOutcome {
            written: 0,
            failed: vec![
                failure("xxh3:aa", "volume vanished", true),
                failure("xxh3:bb", "decode failed", false),
            ],
        },
        ..IndexRunOutcome::default()
    };
    let ledger = permanent_failures(&outcome);
    assert_eq!(ledger.len(), 1);
    let thumbs = ledger.get("thumbs").expect("thumbs");
    assert_eq!(thumbs.len(), 1);
    assert_eq!(thumbs[0].asset, "xxh3:bb");
    assert_eq!(thumbs[0].error, "decode failed");
}

#[test]
fn permanent_failures_keys_both_transcript_stages_and_both_ocr_kinds_by_their_kinds_name() {
    let outcome = IndexRunOutcome {
        transcribe: TranscribeOutcome {
            written: 0,
            failed: vec![failure("xxh3:aa", "whisper refused", false)],
        },
        transcript_embed: TranscriptEmbedOutcome {
            failed: vec![failure("xxh3:bb", "chunking failed", false)],
            ..TranscriptEmbedOutcome::default()
        },
        ocr: OcrOutcome {
            failed: vec![
                failure("xxh3:cc", "vision refused the still", false),
                failure("xxh3:dd", "vision refused a keyframe", false),
            ],
            ..OcrOutcome::default()
        },
        ..IndexRunOutcome::default()
    };
    let ledger = permanent_failures(&outcome);
    assert_eq!(assets(ledger.get("transcripts").expect("transcripts")), vec!["xxh3:aa", "xxh3:bb"]);
    assert_eq!(ledger.get("ocr").expect("ocr").len(), 2);
    assert!(!ledger.contains_key("transcript_embed"), "no Rust field names on the wire");
}

#[test]
fn rows_for_keeps_the_last_failure_per_asset_in_asset_order() {
    let rows = rows_for(&vec![
        failure("xxh3:bb", "first", false),
        failure("xxh3:aa", "only", false),
        failure("xxh3:bb", "second", false),
        failure("xxh3:cc", "transient", true),
    ]);
    assert_eq!(assets(&rows), vec!["xxh3:aa", "xxh3:bb"]);
    assert_eq!(rows[1].error, "second");
}

#[test]
fn record_then_clear_drops_exactly_the_named_kinds() {
    let outcome = IndexRunOutcome {
        thumbs: ThumbOutcome { written: 0, failed: vec![failure("xxh3:aa", "decode failed", false)] },
        pdf: majestical_services::index::PdfOutcome {
            written: 0,
            failed: vec![failure("xxh3:bb", "not a valid pdf", false)],
        },
        ..IndexRunOutcome::default()
    };
    let mut ledger = record_failures(Ledger::new(), &outcome);
    assert_eq!(ledger.len(), 2);
    let cleared = clear_failures(&mut ledger, &vec!["thumbs".to_string(), "thumbs".to_string()]);
    assert_eq!(cleared, 1);
    assert!(!ledger.contains_key("thumbs"));
    assert_eq!(ledger.get("pdf").expect("pdf").len(), 1);
    assert_eq!(clear_failures(&mut ledger, &vec!["captions".to_string()]), 0);
}

#[test]
fn merging_never_forgets_a_remembered_asset() {
    let previous = ledger_of(vec![("thumbs", vec![row("xxh3:aa", "old"), row("xxh3:aa", "older dup")])]);
    let current = ledger_of(vec![("thumbs", vec![row("xxh3:bb", "new")])]);
    let merged = merge_ledger(previous, &current);
    assert_eq!(assets(merged.get("thumbs").expect("thumbs")), vec!["xxh3:aa", "xxh3:bb"]);
}

fn work_item(asset: &str, kind: WorkKind) -> WorkItem {
    WorkItem { asset: asset.into(), asset_hex: "00".into(), abs_path: "/m/x".into(), kind }
}

fn empty_plan(items: Vec<WorkItem>) -> WorkPlan {
    WorkPlan {
        items,
        thumbs: KindStatus::default(),
        embeddings: KindStatus::default(),
        keyframes: KindStatus::default(),
        keyframe_images: KindStatus::default(),
        transcripts: KindStatus::default(),
        ocr: KindStatus::default(),
        pdf: KindStatus::default(),
        captions: KindStatus::default(),
        ocr_unavailable: 0,
        pdf_unavailable: 0,
    }
}

#[test]
fn apply_ledger_moves_a_matching_item_from_pending_to_failed() {
    let plan = || {
        let mut p = empty_plan(vec![work_item("xxh3:aa", WorkKind::Thumb), work_item("xxh3:bb", WorkKind::Thumb)]);
        p.thumbs.pending = 2;
        p
    };
    let held = apply_ledger(plan(), &ledger_of(vec![("thumbs", vec![row("xxh3:aa", "x")])]));
    assert_eq!(held.items.len(), 1);
    assert_eq!(held.items[0].asset, "xxh3:bb");
    assert_eq!((held.thumbs.pending, held.thumbs.failed), (1, 1));
    let untouched = apply_ledger(plan(), &ledger_of(vec![("pdf", vec![row("xxh3:aa", "x")])]));
    assert_eq!(untouched.items.len(), 2);
    assert_eq!((untouched.thumbs.pending, untouched.thumbs.failed), (2, 0));
}

#[test]
fn apply_ledger_maps_both_transcript_work_kinds_to_the_transcripts_key() {
    let mut plan = empty_plan(vec![
        work_item("xxh3:aa", WorkKind::Transcribe),
        work_item("xxh3:bb", WorkKind::TranscriptEmbed),
        work_item("xxh3:cc", WorkKind::OcrImage),
        work_item("xxh3:dd", WorkKind::OcrKeyframes),
    ]);
    plan.transcripts.pending = 2;
    plan.ocr.pending = 2;
    let ledger = ledger_of(vec![
        ("transcripts", vec![row("xxh3:aa", "x"), row("xxh3:bb", "x")]),
        ("ocr", vec![row("xxh3:cc", "x"), row("xxh3:dd", "x")]),
    ]);
    let held = apply_ledger(plan, &ledger);
    assert!(held.items.is_empty());
    assert_eq!((held.transcripts.pending, held.transcripts.failed), (0, 2));
    assert_eq!((held.ocr.pending, held.ocr.failed), (0, 2));
}

#[test]
fn transcript_failures_lists_both_stages_in_order() {
    let outcome = IndexRunOutcome {
        transcribe: TranscribeOutcome { written: 0, failed: vec![failure("a", "x", false)] },
        transcript_embed: TranscriptEmbedOutcome {
            failed: vec![failure("b", "y", true)],
            ..TranscriptEmbedOutcome::default()
        },
        ..IndexRunOutcome::default()
    };
    let merged = outcome.transcript_failures();
    assert_eq!(merged.len(), 2);
    assert_eq!((merged[0].asset.as_str(), merged[1].asset.as_str()), ("a", "b"));
}

#[test]
fn transcript_model_remedy_names_exactly_the_missing_models() {
    assert_eq!(transcript_model_remedy(true, true, "whisper", "minilm"), None);
    assert_eq!(
        transcript_model_remedy(false, false, "whisper", "minilm").as_deref(),
        Some("run `maj model fetch --only whisper --only minilm`")
    );
    assert_eq!(
        transcript_model_remedy(true, false, "whisper", "minilm").as_deref(),
        Some("run `maj model fetch --only minilm`")
    );
}

#[test]
fn push_platform_unavailable_notices_pushes_one_notice_per_nonzero_count() {
    let plan = WorkPlan { ocr_unavailable: 2, ..empty_plan(vec![]) };
    let mut notices = Notices::new();
    push_platform_unavailable_notices(&plan, &mut notices);
    let drained = notices.drain();
    assert_eq!(drained.len(), 1, "{drained:?}");
    assert!(drained[0].contains("OCR"), "{drained:?}");

    let plan_both = WorkPlan { ocr_unavailable: 1, pdf_unavailable: 1, ..empty_plan(vec![]) };
    let mut notices = Notices::new();
    push_platform_unavailable_notices(&plan_both, &mut notices);
    assert_eq!(notices.drain().len(), 2);

    let plan_none = empty_plan(vec![]);
    let mut notices = Notices::new();
    push_platform_unavailable_notices(&plan_none, &mut notices);
    assert!(notices.drain().is_empty());
}

#[test]
fn workkind_name_covers_every_kind() {
    assert_eq!(workkind_name(WorkKind::Thumb), "thumbs");
    assert_eq!(workkind_name(WorkKind::ImageEmbed), "embeddings");
    assert_eq!(workkind_name(WorkKind::Keyframes), "keyframes");
    assert_eq!(workkind_name(WorkKind::KeyframeImages), "keyframe-images");
    assert_eq!(workkind_name(WorkKind::Transcribe), "transcripts");
    assert_eq!(workkind_name(WorkKind::TranscriptEmbed), "transcripts");
    assert_eq!(workkind_name(WorkKind::OcrImage), "ocr");
    assert_eq!(workkind_name(WorkKind::OcrKeyframes), "ocr");
    assert_eq!(workkind_name(WorkKind::PdfText), "pdf");
    assert_eq!(workkind_name(WorkKind::Caption), "captions");
}

#[test]
fn clear_failures_removes_only_the_named_kinds_and_reports_the_count() {
    let mut ledger = ledger_of(vec![
        ("thumbs", vec![row("xxh3:aa", "boom"), row("xxh3:bb", "boom")]),
        ("pdf", vec![row("xxh3:cc", "boom")]),
    ]);
    let cleared = clear_failures(&mut ledger, &vec!["thumbs".to_string()]);
    assert_eq!(cleared, 2, "both thumbs rows were dropped");
    assert!(!ledger.contains_key("thumbs"));
    assert_eq!(ledger.get("pdf").expect("pdf").len(), 1);
}

#[test]
fn clear_failures_with_nothing_to_clear_writes_no_ledger_file() {
    let mut ledger = Ledger::new();
    let cleared = clear_failures(&mut ledger, &vec!["thumbs".to_string()]);
    assert_eq!(cleared, 0, "nothing was dropped, so the caller has nothing to write");
    assert!(ledger.is_empty());
}

#[test]
fn no_transient_failure_ever_reaches_the_ledger() {
    let key_rejected = "OpenRouter rejected the API key (HTTP 401)";
    let cases: Vec<Vec<ItemFailure>> = vec![
        vec![],
        vec![failure("xxh3:a", "boom", false), failure("xxh3:b", "boom", true)],
        vec![failure("xxh3:c", key_rejected, true), failure("xxh3:c", "boom", false), failure("xxh3:d", "boom", true)],
    ];
    for failed in cases {
        let outcome = IndexRunOutcome {
            pdf: PdfOutcome { written: 0, failed: failed.iter().map(|f| failure(&f.asset, &f.error, f.transient)).collect() },
            captions: CaptionOutcome { written: 0, failed: failed.iter().map(|f| failure(&f.asset, &f.error, f.transient)).collect() },
            ..IndexRunOutcome::default()
        };
        let ledger = permanent_failures(&outcome);
        let expected: Vec<&str> = failed.iter().filter(|f| !f.transient).map(|f| f.asset.as_str()).collect();
        for kind in ["pdf", "captions"] {
            match ledger.get(kind) {
                Some(rows) => {
                    assert!(rows.iter().all(|r| r.error != key_rejected), "a credentials reason reached the ledger: {rows:?}");
                    let mut got = assets(rows);
                    got.sort();
                    let n = got.len();
                    got.dedup();
                    assert_eq!(n, got.len(), "one row per asset: {rows:?}");
                    let mut want = expected.clone();
                    want.sort();
                    want.dedup();
                    assert_eq!(got, want, "{kind}");
                }
                None => assert!(expected.is_empty(), "{kind}"),
            }
        }
        assert!(ledger.get("thumbs").is_none());
    }
}

#[test]
fn status_of_an_empty_catalog_has_every_kind_at_zero() {
    let mut notices = Notices::new();
    let outcome = index_status(&empty_plan(vec![]), None, Ledger::new(), &mut notices);
    assert_eq!(outcome.thumbs.pending, 0);
    assert_eq!(outcome.thumbs.done, 0);
    assert!(outcome.failed.is_empty());
}

#[test]
fn run_with_retry_failed_clears_the_requested_kinds_first() {
    let outcome = IndexRunOutcome {
        thumbs: ThumbOutcome { written: 0, failed: vec![failure("xxh3:aa", "decode failed", false)] },
        pdf: PdfOutcome { written: 0, failed: vec![failure("xxh3:bb", "not a valid pdf", false)] },
        ..IndexRunOutcome::default()
    };
    let mut ledger = record_failures(Ledger::new(), &outcome);
    assert_eq!(ledger.len(), 2);

    let cleared = clear_failures(&mut ledger, &vec!["thumbs".to_string()]);
    assert_eq!(cleared, 1);
    assert!(!ledger.contains_key("thumbs"));
    assert_eq!(ledger.get("pdf").expect("pdf")[0].error, "not a valid pdf");
}

#[test]
fn a_clear_that_removes_nothing_leaves_nothing_to_store() {
    let (n, to_store) = cleared_ledger(Ledger::new(), &vec!["thumbs".to_string()]);
    assert_eq!(n, 0);
    assert!(to_store.is_none(), "an absent ledger file stays absent");
    let ledger = ledger_of(vec![("thumbs", vec![row("xxh3:aa", "boom")]), ("pdf", vec![row("xxh3:bb", "boom")])]);
    let (n, to_store) = cleared_ledger(ledger, &vec!["thumbs".to_string()]);
    assert_eq!(n, 1);
    let stored = to_store.expect("something went");
    assert!(!stored.contains_key("thumbs"));
    assert!(stored.contains_key("pdf"));
}
