use majestical_services::search::{saved_search_removal, search_query, search_to_save, SearchRequest};
use majestical_services::search::{dedupe_text_chunk_hits, TextChunkHit};
use majestical_services::search::{fuse_plan, FusePlan};
use majestical_services::search::{
    build_hits, coverage_gaps, coverage_notice, eligible_asset_count, fetch_limits, merge_text_meta, AssetSummary,
    CoverageGap, TextMeta,
};
use majestical_services::para::ParaNode;
use majestical_services::search::{
    dedupe_hits, image_semantic_enabled, in_sources, resolve_filter, selected_text_sources,
    snippet_text, Filter, RawFilter, SemanticMiss, VectorHit,
};
use majestical_services::para::ParaKind;

fn raw(key: &str, value: &str, negated: bool) -> RawFilter {
    RawFilter { key: key.to_string(), value: value.to_string(), negated }
}

#[test]
fn image_semantic_enabled_only_without_an_in_restriction() {
    assert!(image_semantic_enabled(None), "an unrestricted query includes the image-vector layer");
    let transcript = vec!["transcript".to_string()];
    assert!(!image_semantic_enabled(Some(&transcript)), "in:transcript must not surface image-vector hits");
    let name = vec!["name".to_string()];
    assert!(!image_semantic_enabled(Some(&name)), "in:name means names — no image-vector hits");
}

#[test]
fn in_sources_unions_values_and_ignores_other_keys() {
    let filters = vec![raw("in", "transcript", false), raw("tag", "pets", false), raw("in", "ocr", false)];
    let sources = in_sources(&filters).expect("valid").expect("restricted");
    let got: Vec<&str> = sources.iter().map(String::as_str).collect();
    assert_eq!(got, vec!["ocr", "transcript"]);
}

#[test]
fn in_sources_without_in_filters_is_unrestricted() {
    let filters = vec![raw("tag", "pets", false)];
    assert!(in_sources(&filters).expect("valid").is_none());
}

#[test]
fn in_sources_rejects_negation() {
    let err = in_sources(&vec![raw("in", "ocr", true)]).expect_err("must fail");
    assert!(err.contains("negation"), "{err}");
}

#[test]
fn in_sources_rejects_unknown_values_naming_the_valid_set() {
    let err = in_sources(&vec![raw("in", "subtitles", false)]).expect_err("must fail");
    assert!(err.contains("subtitles") && err.contains("transcript"), "{err}");
}

#[test]
fn snippet_text_trims_and_truncates_on_a_char_boundary() {
    assert_eq!(snippet_text("  short  "), "short");
    let long = "é".repeat(200);
    let cut = snippet_text(&long);
    assert!(cut.chars().count() == 81 && cut.ends_with('\u{2026}'));
}

#[test]
fn selected_text_sources_keeps_notice_order() {
    let picked = selected_text_sources(Some(&vec!["pdf".to_string(), "name".to_string(), "transcript".to_string()]));
    assert_eq!(picked, Some(vec!["transcript".to_string(), "pdf".to_string()]));
    assert_eq!(selected_text_sources(None), None);
}

#[test]
fn dedupe_hits_keeps_the_first_rank_and_nearest_keyframe_per_asset() {
    let hit = |hex: &str, kind: &str, ts: i64| VectorHit { asset_hex: hex.into(), kind: kind.into(), ts_ms: ts };
    let (ranked, keyframes) = dedupe_hits(&vec![
        hit("aa", "image", 0),
        hit("bb", "keyframe", 500),
        hit("aa", "keyframe", 900),
        hit("bb", "keyframe", 100),
    ]);
    assert_eq!(ranked, vec!["xxh3:aa".to_string(), "xxh3:bb".to_string()]);
    assert_eq!(keyframes, vec![("xxh3:bb".to_string(), 500), ("xxh3:aa".to_string(), 900)]);
}

#[test]
fn semantic_notes_name_their_remedy() {
    assert_eq!(SemanticMiss::NoModel.note(), "semantic search unavailable — run `maj model fetch`");
    assert_eq!(
        SemanticMiss::Unreadable("bad manifest".into()).note(),
        "semantic index unreadable (bad manifest) — run `maj index run` to rebuild"
    );
}

fn node(id: &str, kind: majestical_services::para::ParaKind, name: &str, archived: bool) -> ParaNode {
    ParaNode { id: id.into(), kind: Some(kind), name: Some(name.into()), archived }
}

#[test]
fn resolve_filter_resolves_each_key() {
    let nodes = vec![node("01A", ParaKind::Project, "alpha", false), node("01B", ParaKind::Area, "home", true)];
    let mounted = vec!["vol1".to_string()];
    let kinds: Vec<String> = ["video", "image", "audio", "pdf", "other"].iter().map(|s| s.to_string()).collect();
    let no_date = || Err("not a date".to_string());
    match resolve_filter(&raw("para", "project/alpha", true), &nodes, &mounted, &kinds, no_date()) {
        Ok(Filter::Para { node, negated }) => assert_eq!((node.as_str(), negated), ("01A", true)),
        _ => panic!("para"),
    }
    match resolve_filter(&raw("online", "yes", true), &nodes, &mounted, &kinds, no_date()) {
        Ok(Filter::Online { ids, want }) => assert_eq!((ids, want), (vec!["vol1".to_string()], false)),
        _ => panic!("online"),
    }
    let err = resolve_filter(&raw("kind", "gif", false), &nodes, &mounted, &kinds, no_date()).err().expect("kind");
    assert_eq!(err, "unknown kind 'gif' — one of: video, image, audio, pdf, other");
    let err = resolve_filter(&raw("before", "2024", true), &nodes, &mounted, &kinds, Ok(5)).err().expect("neg");
    assert_eq!(err, "'-before:' has no meaning — use 'after:' instead");
    match resolve_filter(&raw("after", "2024", false), &nodes, &mounted, &kinds, Ok(5)) {
        Ok(Filter::After(ms)) => assert_eq!(ms, 5),
        _ => panic!("after"),
    }
    let err = resolve_filter(&raw("colour", "red", false), &nodes, &mounted, &kinds, no_date()).err().expect("unknown");
    assert_eq!(err, "unknown filter 'colour:'; valid filters: tag, vol/volume, para, kind, online, before, after, in");
    let err = resolve_filter(&raw("para", "area/home", false), &nodes, &mounted, &kinds, no_date()).err().expect("archived");
    assert_eq!(err, "no active PARA node 'area/home' — see `maj para list`");
}

#[test]
fn fetch_limits_widen_unless_a_filter_needs_every_match() {
    assert_eq!(fetch_limits(10, false), (40, 40));
    assert_eq!(fetch_limits(usize::MAX, false), (usize::MAX, usize::MAX));
    assert_eq!(fetch_limits(10, true), (usize::MAX, usize::MAX >> 1));
}

#[test]
fn coverage_gaps_name_each_consulted_source_short_of_its_eligible_assets() {
    let kinds: Vec<(String, String)> = [("a", "video"), ("b", "image"), ("c", "pdf"), ("d", "audio")]
        .iter()
        .map(|(a, k)| (a.to_string(), k.to_string()))
        .collect();
    let covered = vec![
        vec!["a".to_string(), "d".to_string()],
        vec!["a".to_string()],
        vec![],
        vec!["c".to_string()],
    ];
    let gaps = coverage_gaps(None, &kinds, &covered);
    assert_eq!(
        gaps,
        vec![
            CoverageGap { source: 1, covered: 1, eligible: 3 },
            CoverageGap { source: 2, covered: 0, eligible: 2 },
        ]
    );
    let only_ocr = vec!["ocr".to_string()];
    assert_eq!(coverage_gaps(Some(&only_ocr), &kinds, &covered), vec![CoverageGap { source: 2, covered: 0, eligible: 2 }]);
    let notice = coverage_notice(gaps[0], "run `maj index run`".to_string());
    assert_eq!((notice.label.as_str(), notice.noun.as_str(), notice.source.as_str()), ("captions", "image/video/pdf assets", "caption"));
    assert_eq!(eligible_asset_count(&kinds), 2);
}

#[test]
fn build_hits_joins_summaries_and_gives_text_detail_to_the_first_rank() {
    let ranked = vec!["xxh3:a".to_string(), "xxh3:gone".to_string(), "xxh3:a".to_string()];
    let sums = vec![AssetSummary {
        asset: "xxh3:a".to_string(),
        name: "a.mov".to_string(),
        volumes: vec![("v1".to_string(), "Card".to_string()), ("v2".to_string(), "Disk".to_string())],
        tags: vec!["beach".to_string()],
        para: Some("project/x".to_string()),
    }];
    let mounted = vec!["v2".to_string()];
    let kts = vec![("xxh3:a".to_string(), 1500i64)];
    let metas = vec![("xxh3:a".to_string(), TextMeta { source: "ocr".to_string(), locator: -1, snippet: "hi".to_string() })];
    let hits = build_hits(&ranked, &sums, &mounted, &kts, &metas);
    assert_eq!(hits.len(), 3);
    assert!(hits[0].known);
    assert_eq!(hits[0].name, "a.mov");
    assert_eq!(hits[0].volumes.iter().map(|v| v.online).collect::<Vec<_>>(), vec![false, true]);
    assert_eq!(hits[0].timestamp_ms, Some(1500));
    assert_eq!(hits[0].source.as_deref(), Some("ocr"));
    assert!(!hits[1].known, "a hit the catalog no longer knows is a placeholder");
    assert_eq!(hits[1].name, "");
    assert_eq!(hits[2].source, None, "the detail went to the first rank");
}

#[test]
fn full_text_detail_wins_over_a_chunk() {
    let meta = |s: &str| TextMeta { source: s.to_string(), locator: 0, snippet: String::new() };
    let merged = merge_text_meta(
        vec![("a".to_string(), meta("pdf"))],
        vec![("a".to_string(), meta("transcript")), ("b".to_string(), meta("transcript"))],
    );
    assert_eq!(merged.len(), 2);
    assert_eq!(merged[0].1.source, "pdf");
    assert_eq!(merged[1].0, "b");
}

fn ids(v: &[&str]) -> Vec<String> {
    v.iter().map(|s| s.to_string()).collect()
}

#[test]
fn fuse_plan_drops_hits_outside_the_filter_from_every_list() {
    let allowed = ids(&["xxh3:aa"]);
    let plan = fuse_plan(
        &ids(&["xxh3:aa", "xxh3:zz"]),
        &ids(&["xxh3:zz"]),
        &vec![ids(&["xxh3:zz"]), ids(&["xxh3:zz", "xxh3:aa"])],
        Some(&allowed),
        10,
    );
    match plan {
        FusePlan::Fuse(lists) => assert_eq!(lists, vec![ids(&["xxh3:aa"]), ids(&["xxh3:aa"])]),
        other => panic!("expected fusion, got {other:?}"),
    }
}

#[test]
fn fuse_plan_keeps_the_name_ranking_when_nothing_else_survives() {
    let allowed = ids(&["xxh3:bb", "xxh3:cc"]);
    let plan = fuse_plan(
        &ids(&["xxh3:aa", "xxh3:bb", "xxh3:cc"]),
        &ids(&["xxh3:zz"]),
        &vec![ids(&["xxh3:yy"]), vec![]],
        Some(&allowed),
        10,
    );
    match plan {
        FusePlan::NameOnly(positions) => assert_eq!(positions, vec![1, 2]),
        other => panic!("expected the name ranking, got {other:?}"),
    }
    match fuse_plan(&ids(&["xxh3:aa", "xxh3:bb", "xxh3:cc"]), &vec![], &vec![], None, 2) {
        FusePlan::NameOnly(positions) => assert_eq!(positions, vec![0, 1]),
        other => panic!("expected the name ranking cut at the limit, got {other:?}"),
    }
}

#[test]
fn fuse_plan_orders_name_then_text_then_semantic_lists() {
    match fuse_plan(&vec![], &ids(&["xxh3:t"]), &vec![vec![], ids(&["xxh3:s"])], None, 5) {
        FusePlan::Fuse(lists) => assert_eq!(lists, vec![ids(&["xxh3:t"]), ids(&["xxh3:s"])]),
        other => panic!("expected fusion, got {other:?}"),
    }
    match fuse_plan(&ids(&["xxh3:n"]), &vec![], &vec![ids(&["xxh3:s"])], None, 5) {
        FusePlan::Fuse(lists) => assert_eq!(lists, vec![ids(&["xxh3:n"]), ids(&["xxh3:s"])]),
        other => panic!("expected fusion, got {other:?}"),
    }
}

#[test]
fn dedupe_text_chunk_hits_keeps_the_nearest_chunk_per_asset() {
    let hit = |ms: i64, text: &str| TextChunkHit {
        asset_hex: "aa11".into(),
        source: "transcript".into(),
        start_ms: ms,
        end_ms: ms + 1000,
        text: text.into(),
    };
    let kept = dedupe_text_chunk_hits(&vec![hit(5000, "best"), hit(9000, "worse")]);
    let ranked: Vec<&str> = kept.iter().map(|(a, _)| a.as_str()).collect();
    assert_eq!(ranked, vec!["xxh3:aa11"]);
    let meta = &kept[0].1;
    assert_eq!((meta.locator, meta.snippet.as_str()), (5000, "best"));
}

#[test]
fn dedupe_hits_keeps_a_multi_hit_asset_at_a_single_rank_not_inflated() {
    let repeated = "aa11".to_string();
    let hits = vec![
        VectorHit { asset_hex: repeated.clone(), kind: "keyframe".into(), ts_ms: 1000 },
        VectorHit { asset_hex: repeated.clone(), kind: "keyframe".into(), ts_ms: 2000 },
        VectorHit { asset_hex: repeated.clone(), kind: "keyframe".into(), ts_ms: 3000 },
    ];
    let (ranked, keyframe_ts) = dedupe_hits(&hits);
    let asset = format!("xxh3:{repeated}");
    assert_eq!(
        ranked,
        vec![asset.clone()],
        "three hits for one asset must collapse to one entry, not inflate its fused score"
    );
    assert_eq!(
        keyframe_ts.iter().find(|(a, _)| *a == asset).map(|(_, ts)| *ts),
        Some(1000),
        "the nearest (first-encountered) hit's timestamp wins"
    );
}

#[test]
fn dedupe_hits_on_no_hits_is_empty() {
    let (ranked, keyframe_ts) = dedupe_hits(&Vec::new());
    assert!(ranked.is_empty());
    assert!(keyframe_ts.is_empty());
}

#[test]
fn eligible_asset_count_counts_only_image_and_video_kinds() {
    let kinds = vec![
        ("xxh3:a".to_string(), "image".to_string()),
        ("xxh3:b".to_string(), "video".to_string()),
        ("xxh3:c".to_string(), "other".to_string()),
    ];
    assert_eq!(eligible_asset_count(&kinds), 2, "only the image and video assets are embedding-eligible");
}

#[test]
fn eligible_asset_count_of_an_empty_projection_is_zero() {
    assert_eq!(eligible_asset_count(&Vec::new()), 0);
}

fn request(query: Option<&str>, saved: Option<&str>, save: Option<&str>) -> SearchRequest {
    SearchRequest {
        query: query.map(str::to_string),
        limit: 20,
        saved: saved.map(str::to_string),
        save: save.map(str::to_string),
    }
}

#[test]
fn search_query_takes_the_literal_then_the_saved_query() {
    assert_eq!(search_query(&request(Some("sunset"), None, None), None).expect("literal"), "sunset");
    assert_eq!(
        search_query(&request(None, Some("beach"), None), Some("sunset tag:beach".into())).expect("saved"),
        "sunset tag:beach"
    );
    let unknown = search_query(&request(None, Some("nope"), None), None).expect_err("unknown saved");
    assert_eq!(unknown.message(), "no saved search named 'nope'");
    let neither = search_query(&request(None, None, None), None).expect_err("nothing to run");
    assert_eq!(neither.message(), "give a query string or --saved <name>");
    let empty = search_query(&request(Some("x"), None, Some("")), None).expect_err("empty save name");
    assert_eq!(empty.message(), "saved search name must not be empty");
}

#[test]
fn a_search_is_saved_only_once_it_succeeded() {
    let req = request(Some("sunset"), None, Some("evenings"));
    assert!(search_to_save(&req, "sunset", false).is_none(), "a failed search is never saved");
    let saved = search_to_save(&req, "sunset", true).expect("saved");
    assert_eq!((saved.name.as_str(), saved.query.as_str()), ("evenings", "sunset"));
    assert!(search_to_save(&request(Some("sunset"), None, None), "sunset", true).is_none());
}

#[test]
fn saved_search_removal_refuses_an_empty_or_unknown_name() {
    assert_eq!(saved_search_removal("", true).expect_err("empty").message(), "saved search name must not be empty");
    assert_eq!(saved_search_removal("beach", false).expect_err("unknown").message(), "no saved search named 'beach'");
    assert_eq!(saved_search_removal("beach", true).expect("known"), "beach");
}
