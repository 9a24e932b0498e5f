use majestical_services::index::{CaptionOutcome, OcrOutcome};
use majestical_services::index_run::{
    assets_to_rechunk, match_chunk_blobs, ocr_marker_due, plan_chunk_embed, record_still_ocr, record_video_ocr,
    record_caption, text_rebuild_note, AssetChunks, CaptionResult, IndexRunReq, TranscriptChunk, VectorBlobRef,
};
use majestical_services::index_run::{
    over_half_failed, over_half_failed_message, select_described_timestamps, split_and_cap_items,
    tally_video_keyframes, ts_ms_i64, TimestampOutcome, MAX_DESCRIBED_KEYFRAMES,
};
use majestical_services::index::{WorkItem, WorkKind};

#[test]
fn select_described_timestamps_keeps_short_lists_and_samples_long_ones() {
    assert!(select_described_timestamps(&vec![]).is_empty());

    let short: Vec<u64> = (0..5).map(|i| i * 1000).collect();
    assert_eq!(select_described_timestamps(&short), short);

    let long: Vec<u64> = (0..100).map(|i| i * 1000).collect();
    let selected = select_described_timestamps(&long);
    assert!(selected.len() <= MAX_DESCRIBED_KEYFRAMES, "{selected:?}");
    assert_eq!(selected[0], 0);
    assert!(*selected.last().expect("non-empty") >= 88_000, "{selected:?}");
}

#[test]
fn select_described_timestamps_strides_by_the_rounded_up_ratio() {
    let long: Vec<u64> = (0..100).collect();
    let selected = select_described_timestamps(&long);
    assert_eq!(selected, vec![0, 9, 18, 27, 36, 45, 54, 63, 72, 81, 90, 99]);
    let thirteen: Vec<u64> = (0..13).collect();
    assert_eq!(select_described_timestamps(&thirteen), vec![0, 2, 4, 6, 8, 10, 12]);
}

#[test]
fn over_half_failed_cases() {
    assert!(!over_half_failed(0, 0), "zero detected keyframes never counts as over half failed");
    assert!(!over_half_failed(1, 2), "exactly half (1/2) is not OVER half");
    assert!(over_half_failed(2, 3), "2/3 (66%) is over half");
}

#[test]
fn over_half_failed_message_includes_path_counts_and_first_reason() {
    let message = over_half_failed_message("/media/clip.mov", 3, 5, "ffmpeg failed: no such filter");
    assert!(message.contains("/media/clip.mov"), "{message}");
    assert!(message.contains("3/5"), "{message}");
    assert!(message.contains("ffmpeg failed: no such filter"), "{message}");
}

#[test]
fn ts_ms_i64_saturates() {
    assert_eq!(ts_ms_i64(1500), 1500);
    assert_eq!(ts_ms_i64(u64::MAX), i64::MAX);
}

#[test]
fn tally_counts_written_failed_and_keeps_the_first_reason() {
    let ts = vec![10, 20, 30, 40];
    let tally = tally_video_keyframes(
        &ts,
        vec![
            TimestampOutcome::Written,
            TimestampOutcome::Failed("first".into()),
            TimestampOutcome::AlreadyComplete,
            TimestampOutcome::Failed("second".into()),
        ],
    );
    assert_eq!(tally.succeeded_timestamps, vec![10, 30]);
    assert_eq!(tally.keyframes_written, 1);
    assert_eq!(tally.keyframe_failures, 2);
    assert_eq!(tally.total_keyframes, 4);
    assert_eq!(tally.first_failure_reason.as_deref(), Some("first"));
}

#[test]
fn split_and_cap_items_caps_each_kind_on_its_own() {
    let item = |a: &str, kind: WorkKind| WorkItem { asset: a.into(), asset_hex: "0".into(), abs_path: "/p".into(), kind };
    let items = vec![
        item("a", WorkKind::Thumb),
        item("b", WorkKind::Thumb),
        item("c", WorkKind::Caption),
        item("d", WorkKind::Thumb),
    ];
    let split = split_and_cap_items(items, Some(2));
    let assets: Vec<&str> = split.thumbs.iter().map(|i| i.asset.as_str()).collect();
    assert_eq!(assets, vec!["a", "b"]);
    assert_eq!(split.captions.len(), 1);
    assert!(split.pdfs.is_empty());
}

#[test]
fn a_video_with_failed_ocr_frames_records_its_counts_and_first_reason() {
    let item = WorkItem {
        asset: "xxh3:aa".to_string(),
        asset_hex: "aa".to_string(),
        abs_path: "/v/a.mov".to_string(),
        kind: WorkKind::OcrKeyframes,
    };
    let tally = tally_video_keyframes(
        &vec![1, 2, 3],
        vec![
            TimestampOutcome::Written,
            TimestampOutcome::Failed("vision: no text".to_string()),
            TimestampOutcome::AlreadyComplete,
        ],
    );
    assert!(!ocr_marker_due(&tally));
    let mut outcome = OcrOutcome::default();
    record_video_ocr(&mut outcome, &item, Ok(tally));
    assert_eq!(outcome.keyframes_written, 1);
    assert_eq!(outcome.videos_done, 0);
    assert_eq!(outcome.failed.len(), 1);
    assert_eq!(
        outcome.failed[0].error,
        "1/3 keyframes failed OCR — first failure: vision: no text — video incomplete, will retry"
    );
    let done = tally_video_keyframes(&vec![1], vec![TimestampOutcome::Written]);
    assert!(ocr_marker_due(&done));
    record_video_ocr(&mut outcome, &item, Ok(done));
    assert_eq!(outcome.videos_done, 1);
    record_still_ocr(&mut outcome, &item, Ok(()));
    record_still_ocr(&mut outcome, &item, Err("decode failed".to_string()));
    assert_eq!(outcome.images_written, 1);
    assert_eq!(outcome.failed.len(), 2);
}

#[test]
fn chunk_embedding_skips_blank_chunks_and_blobs_left_by_an_earlier_run() {
    let chunk = |start_ms: u64, text: &str| TranscriptChunk { start_ms, end_ms: start_ms + 1000, text: text.to_string() };
    let chunks = vec![chunk(0, "hello"), chunk(1000, "  "), chunk(2000, "world"), chunk(3000, "again")];
    let plan = plan_chunk_embed(&chunks, &vec![false, false, true, false]);
    assert_eq!(plan.starts, vec![0, 2000, 3000]);
    assert_eq!(plan.to_embed, vec![0, 3]);
    let empty = plan_chunk_embed(&vec![chunk(0, " ")], &vec![false]);
    assert!(empty.starts.is_empty(), "a transcript of blank chunks is empty");
}

#[test]
fn the_text_store_rebuild_matches_blobs_to_rechunked_text_and_counts_the_rest() {
    let blob = |kind: &str, asset: &str, ts: i64| VectorBlobRef { kind: kind.to_string(), asset_hex: asset.to_string(), ts_ms: ts };
    let refs = vec![blob("chunk", "aa", 0), blob("image", "aa", 0), blob("chunk", "aa", 5000), blob("chunk", "bb", 0), blob("chunk", "cc", 7)];
    let existing = vec![("cc".to_string(), 7i64)];
    assert_eq!(assets_to_rechunk(&refs, &existing), vec!["aa".to_string(), "bb".to_string()]);
    let sets = vec![
        AssetChunks { asset_hex: "aa".to_string(), chunks: Some(vec![TranscriptChunk { start_ms: 0, end_ms: 900, text: "hi".to_string() }]) },
        AssetChunks { asset_hex: "bb".to_string(), chunks: None },
    ];
    let plan = match_chunk_blobs(&refs, &existing, &sets);
    assert_eq!(plan.loads, vec![(0, 0)]);
    assert_eq!(plan.skipped, 2, "aa@5000 has no chunk, bb has no transcript");
    assert_eq!(
        text_rebuild_note(plan.skipped).as_deref(),
        Some("note: 2 chunk vector blob(s) skipped in the text-store rebuild — transcript blob missing, or its chunking no longer matches")
    );
    assert_eq!(text_rebuild_note(0), None);
}

#[test]
fn an_index_request_takes_its_kinds_as_a_set() {
    let req = IndexRunReq::new(&vec!["ocr".to_string(), "thumbs".to_string(), "ocr".to_string()], Some(3), None, None);
    assert_eq!(req.kinds, vec!["ocr".to_string(), "thumbs".to_string()]);
    assert_eq!(req.limit, Some(3));
}

#[test]
fn record_caption_counts_item_failures_and_abandons_the_pass_on_a_backend_failure() {
    let item = |a: &str, p: &str| WorkItem { asset: a.into(), asset_hex: "0".into(), abs_path: p.into(), kind: WorkKind::Caption };
    let items = vec![item("xxh3:a", "/a"), item("xxh3:b", "/b"), item("xxh3:c", "/c"), item("xxh3:d", "/d")];
    let mut outcome = CaptionOutcome::default();
    assert!(record_caption(&mut outcome, &items, 0, CaptionResult::Captioned));
    assert!(record_caption(&mut outcome, &items, 1, CaptionResult::ItemFailed("no thumb".into())));
    assert_eq!(outcome.written, 1);
    assert_eq!(outcome.failed.len(), 1);
    assert_eq!(outcome.failed[0].asset, "xxh3:b");
    assert!(!outcome.failed[0].transient);

    assert!(!record_caption(&mut outcome, &items, 2, CaptionResult::BackendFailed("503".into())));
    assert_eq!(outcome.written, 1);
    assert_eq!(outcome.failed.len(), 3);
    assert_eq!(outcome.failed[1].path, "/c");
    assert_eq!(outcome.failed[1].error, "503");
    assert!(outcome.failed[1].transient);
    assert_eq!(outcome.failed[2].path, "/d");
    assert_eq!(outcome.failed[2].error, "describer unavailable — skipped after first failure");
    assert!(outcome.failed[2].transient);
}
