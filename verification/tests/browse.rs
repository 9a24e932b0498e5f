use majestical_services::browse::{
    browse_page, browse_scope, browse_tree, path_marks, volume_folders, BrowseFolder, BrowsePage,
    BrowseRequest, BrowseVolume, InstanceRow, SummaryKey, VolumeRow, DEFAULT_LIMIT,
};

const ONLINE_ID: &str = "label:root";
const ONLINE_LABEL: &str = "root";
const OFFLINE_VOLUME_ID: &str = "label:probe-offline-vol-browse-xyz";
const OFFLINE_VOLUME_LABEL: &str = "probe-offline-vol-browse-xyz";

fn asset_id(tag: &str) -> String {
    format!("xxh3:{tag:0<32}")
}

fn kind_of(path: &str) -> &'static str {
    if path.ends_with(".mov") {
        "video"
    } else if path.ends_with(".jpg") {
        "image"
    } else if path.ends_with(".pdf") {
        "pdf"
    } else {
        "other"
    }
}

fn inst(tag: &str, volume: &str, path: &str, size: u64, mtime_ms: u64) -> InstanceRow {
    InstanceRow {
        asset: asset_id(tag),
        volume: volume.to_string(),
        path: path.to_string(),
        size,
        mtime_ms,
        kind: kind_of(path).to_string(),
    }
}

fn volumes() -> Vec<VolumeRow> {
    vec![
        VolumeRow { id: ONLINE_ID.to_string(), label: ONLINE_LABEL.to_string(), online: true },
        VolumeRow {
            id: OFFLINE_VOLUME_ID.to_string(),
            label: OFFLINE_VOLUME_LABEL.to_string(),
            online: false,
        },
    ]
}

fn fixture() -> Vec<InstanceRow> {
    vec![
        inst("x", ONLINE_ID, "A/x.mov", 10, 3000),
        inst("y", ONLINE_ID, "A/B/y.jpg", 20, 1000),
        inst("z", ONLINE_ID, "C/z.pdf", 30, 2000),
        inst("w", OFFLINE_VOLUME_ID, "D/w.mov", 40, 4000),
    ]
}

fn kinds() -> Vec<String> {
    ["image", "video", "audio", "pdf", "other"].iter().map(|k| k.to_string()).collect()
}

/// Summaries named after each asset's file name.
fn summaries(insts: &[InstanceRow]) -> Vec<SummaryKey> {
    let mut out: Vec<SummaryKey> = Vec::new();
    for i in insts {
        if out.iter().any(|s| s.asset == i.asset) {
            continue;
        }
        let name = i.path.rsplit('/').next().unwrap_or("").to_string();
        out.push(SummaryKey { asset: i.asset.clone(), name });
    }
    out
}

fn req(path: &str) -> BrowseRequest {
    BrowseRequest {
        volume: ONLINE_ID.into(),
        path: path.into(),
        flatten: true,
        sort: None,
        kind: None,
        limit: DEFAULT_LIMIT,
        offset: 0,
    }
}

struct Listed {
    page: BrowsePage,
    names: Vec<String>,
    sizes: Vec<u64>,
    mtimes: Vec<u64>,
}

fn list(insts: &[InstanceRow], req: &BrowseRequest) -> Result<Listed, String> {
    let insts = insts.to_vec_rows();
    let scope = browse_scope(req, &volumes(), &kinds(), &insts)?;
    let matches: Vec<InstanceRow> = scope.matches.iter().map(copy).collect();
    let sums = summaries(&insts);
    let page = browse_page(req, scope, &sums, Vec::new());
    let names = page.rows.iter().map(|(_, s)| sums[*s].name.clone()).collect();
    let sizes = page.rows.iter().map(|(m, _)| matches[*m].size).collect();
    let mtimes = page.rows.iter().map(|(m, _)| matches[*m].mtime_ms).collect();
    Ok(Listed { page, names, sizes, mtimes })
}

fn copy(r: &InstanceRow) -> InstanceRow {
    InstanceRow {
        asset: r.asset.clone(),
        volume: r.volume.clone(),
        path: r.path.clone(),
        size: r.size,
        mtime_ms: r.mtime_ms,
        kind: r.kind.clone(),
    }
}

trait ToRows {
    fn to_vec_rows(&self) -> Vec<InstanceRow>;
}

impl ToRows for [InstanceRow] {
    fn to_vec_rows(&self) -> Vec<InstanceRow> {
        self.iter().map(copy).collect()
    }
}

fn folder<'a>(volume: &'a BrowseVolume, path: &str) -> &'a BrowseFolder {
    volume
        .folders
        .iter()
        .find(|f| f.path == path)
        .unwrap_or_else(|| panic!("no folder '{path}' in {:?}", volume.folders))
}

#[test]
fn browse_tree_computes_exact_folder_structure_per_volume() {
    let out = browse_tree(&volumes(), &fixture(), Vec::new());
    assert_eq!(out.volumes.len(), 2);
    let v = out.volumes.iter().find(|v| v.id == ONLINE_ID).expect("volume V");
    assert!(v.online, "root-labeled volume must read online");
    assert_eq!(v.folders.len(), 4, "'', A, A/B, C");
    assert_eq!(folder(v, "").children, vec!["A", "C"]);
    assert_eq!(folder(v, "").recursive_count, 3);
    assert_eq!(folder(v, "A").children, vec!["B"]);
    assert_eq!(folder(v, "A").recursive_count, 2);
    assert!(folder(v, "A/B").children.is_empty());
    assert_eq!(folder(v, "A/B").recursive_count, 1);
    assert!(folder(v, "C").children.is_empty());
    assert_eq!(folder(v, "C").recursive_count, 1);

    let w = out.volumes.iter().find(|v| v.id == OFFLINE_VOLUME_ID).expect("volume W");
    assert!(!w.online, "an unmounted label must read offline");
    assert_eq!(folder(w, "").children, vec!["D"]);
    assert_eq!(folder(w, "").recursive_count, 1);
    assert!(folder(w, "D").children.is_empty());
    assert_eq!(folder(w, "D").recursive_count, 1);
    assert!(
        out.notices.iter().any(|n| n.contains(OFFLINE_VOLUME_LABEL)),
        "an offline volume must be named in a notice: {:?}",
        out.notices
    );
}

#[test]
fn browse_tree_of_an_empty_volume_is_just_the_root_folder() {
    let vols = vec![VolumeRow { id: ONLINE_ID.into(), label: ONLINE_LABEL.into(), online: true }];
    let out = browse_tree(&vols, &Vec::new(), Vec::new());
    assert_eq!(out.volumes.len(), 1);
    assert_eq!(
        out.volumes[0].folders,
        vec![BrowseFolder { path: String::new(), children: Vec::new(), recursive_count: 0 }],
        "a volume with no cataloged instances has exactly one folder: an empty root"
    );
}

#[test]
fn browse_tree_collapses_several_offline_volumes_into_one_notice() {
    let vols = vec![
        VolumeRow { id: "label:offline-a".into(), label: "offline-a".into(), online: false },
        VolumeRow { id: "label:offline-b".into(), label: "offline-b".into(), online: false },
    ];
    let out = browse_tree(&vols, &Vec::new(), vec!["later".to_string()]);
    assert_eq!(out.notices.len(), 2, "{:?}", out.notices);
    assert_eq!(
        out.notices[0],
        "2 volumes are offline — showing cataloged data only: offline-a, offline-b"
    );
    assert_eq!(out.notices[1], "later");
}

#[test]
fn one_offline_volume_keeps_the_singular_wording() {
    let out = browse_tree(&volumes(), &fixture(), Vec::new());
    assert_eq!(out.notices, vec![format!(
        "volume '{OFFLINE_VOLUME_LABEL}' is offline — showing cataloged data only"
    )]);
}

#[test]
fn a_root_level_file_only_counts_at_the_root() {
    let insts = vec![(asset_id("r"), "root.mov".to_string())];
    let folders = volume_folders(&insts);
    assert_eq!(
        folders,
        vec![BrowseFolder { path: String::new(), children: Vec::new(), recursive_count: 1 }]
    );
}

#[test]
fn path_marks_name_each_folder_with_its_parent() {
    let marks = path_marks("A/B/y.jpg");
    assert_eq!(
        marks,
        vec![
            ("A".to_string(), String::new(), "A".to_string()),
            ("A/B".to_string(), "A".to_string(), "B".to_string()),
        ]
    );
    assert!(path_marks("x.mov").is_empty());
}

#[test]
fn browse_list_flatten_true_counts_the_whole_subtree() {
    let out = list(&fixture(), &req("A")).expect("list");
    assert_eq!(out.page.count, 2, "x.mov and y.jpg are both under A");
    assert_eq!(out.page.folder_count, 2, "A and A/B");
}

#[test]
fn browse_list_flatten_false_is_the_immediate_folder_only() {
    let out = list(&fixture(), &BrowseRequest { flatten: false, ..req("A") }).expect("list");
    assert_eq!(out.page.count, 1, "only x.mov sits directly in A");
    assert_eq!(out.names, vec!["x.mov"]);
    assert_eq!(out.sizes, vec![10], "the scoped instance's own size");
    assert_eq!(out.mtimes, vec![3000], "the scoped instance's own mtime");
}

#[test]
fn browse_list_flatten_false_at_root_scope_only_matches_root_level_files() {
    let mut insts = fixture();
    insts.push(inst("root", ONLINE_ID, "root.mov", 5, 50));
    let out = list(&insts, &BrowseRequest { flatten: false, ..req("") }).expect("list");
    assert_eq!(out.page.count, 1, "only root.mov sits at the volume root — A/x.mov etc. don't");
    assert_eq!(out.names, vec!["root.mov"]);
}

#[test]
fn browse_tree_and_list_agree_on_asset_count_for_two_instances_of_one_asset() {
    let insts = vec![
        inst("shared", ONLINE_ID, "E/a-older.mov", 100, 500),
        inst("shared", ONLINE_ID, "E/z-newer.mov", 200, 900),
    ];
    let out = list(&insts, &req("")).expect("list");
    assert_eq!(out.page.count, 1, "one asset, two instances — deduped to one row");
    assert_eq!(out.sizes, vec![200], "the newer-mtime instance wins");
    assert_eq!(out.mtimes, vec![900], "the newer-mtime instance wins");
    let tree = browse_tree(&volumes(), &insts, Vec::new());
    let v = tree.volumes.iter().find(|v| v.id == ONLINE_ID).expect("volume V");
    assert_eq!(folder(v, "E").recursive_count, 1);
    assert_eq!(folder(v, "").recursive_count, 1, "same asset, counted once at the root too");
}

#[test]
fn two_instances_with_the_same_mtime_pick_the_smaller_path() {
    let insts = vec![
        inst("tied", ONLINE_ID, "F/b.mov", 20, 700),
        inst("tied", ONLINE_ID, "F/a.mov", 10, 700),
    ];
    let out = list(&insts, &req("")).expect("list");
    assert_eq!(out.page.count, 1, "one asset, two instances");
    assert_eq!(out.sizes, vec![10], "the smaller path breaks the tie — a.mov's size, not b.mov's");
}

#[test]
fn browse_list_sorts_by_name_ascending() {
    let out = list(&fixture(), &BrowseRequest { sort: Some("name".into()), ..req("") }).expect("list");
    assert_eq!(out.names, vec!["x.mov", "y.jpg", "z.pdf"]);
}

#[test]
fn browse_list_sorts_by_captured_newest_first_by_default() {
    let out = list(&fixture(), &req("")).expect("list");
    assert_eq!(out.names, vec!["x.mov", "z.pdf", "y.jpg"]);
}

#[test]
fn browse_list_sorts_by_size_descending() {
    let out = list(&fixture(), &BrowseRequest { sort: Some("size".into()), ..req("") }).expect("list");
    assert_eq!(out.names, vec!["z.pdf", "y.jpg", "x.mov"]);
}

#[test]
fn browse_list_kind_filter_matches_only_that_kind() {
    let out = list(&fixture(), &BrowseRequest { kind: Some("image".into()), ..req("") }).expect("list");
    assert_eq!(out.page.count, 1);
    assert_eq!(out.names, vec!["y.jpg"]);
}

#[test]
fn browse_list_rejects_an_unknown_sort_naming_valid_values() {
    let msg = list(&fixture(), &BrowseRequest { sort: Some("bogus".into()), ..req("") })
        .err()
        .expect("must reject unknown sort");
    assert_eq!(msg, "unknown sort 'bogus' — one of: captured, name, size");
}

#[test]
fn browse_list_rejects_an_unknown_kind_naming_valid_values() {
    let msg = list(&fixture(), &BrowseRequest { kind: Some("bogus".into()), ..req("") })
        .err()
        .expect("must reject unknown kind");
    assert!(msg.contains("bogus"));
    for k in ["image", "video", "audio", "pdf", "other"] {
        assert!(msg.contains(k), "{msg}");
    }
}

#[test]
fn browse_list_limit_and_offset_paginate_after_sorting() {
    let out = list(&fixture(), &BrowseRequest { sort: Some("name".into()), limit: 1, offset: 1, ..req("") })
        .expect("list");
    assert_eq!(out.page.count, 3, "count is pre-pagination");
    assert_eq!(out.page.folder_count, 3, "folder_count is pre-pagination too — A, A/B, C");
    assert_eq!(out.names, vec!["y.jpg"], "second row in name order");
}

#[test]
fn browse_list_offset_past_the_end_is_empty_results_with_counts_intact() {
    let out = list(&fixture(), &BrowseRequest { offset: 10, ..req("") }).expect("list");
    assert_eq!(out.page.count, 3);
    assert_eq!(out.page.folder_count, 3);
    assert!(out.page.rows.is_empty());
}

#[test]
fn browse_list_rejects_an_unknown_volume_naming_it_and_the_remedy() {
    let msg = list(&fixture(), &BrowseRequest { volume: "no-such-volume".into(), ..req("") })
        .err()
        .expect("must reject unknown volume");
    assert!(msg.contains("no-such-volume"));
    assert!(msg.contains("maj volumes list"));
}

#[test]
fn browse_list_on_an_offline_volume_works_from_the_catalog_alone_with_a_notice() {
    let out = list(&fixture(), &BrowseRequest { volume: OFFLINE_VOLUME_ID.into(), ..req("") })
        .expect("an offline volume still lists");
    assert_eq!(out.page.count, 1);
    assert_eq!(out.names, vec!["w.mov"]);
    assert!(
        out.page.notices.iter().any(|n| n.contains(OFFLINE_VOLUME_LABEL)),
        "offline volume must be noticed: {:?}",
        out.page.notices
    );
}

#[test]
fn a_match_without_a_summary_is_dropped_with_a_notice() {
    let insts = fixture();
    let scope = browse_scope(&req(""), &volumes(), &kinds(), &insts).expect("scope");
    let sums = vec![SummaryKey { asset: asset_id("x"), name: "x.mov".into() }];
    let page = browse_page(&req(""), scope, &sums, vec!["earlier".to_string()]);
    assert_eq!(page.count, 1);
    assert_eq!(page.notices.len(), 3);
    assert_eq!(page.notices[0], "earlier");
    assert_eq!(
        page.notices[1],
        format!("browse: no catalog summary for asset {} — dropped from results", asset_id("y"))
    );
}

#[test]
fn browse_list_rows_carry_exact_size_mtime_kind_and_online_volume() {
    let insts = fixture();
    let r = BrowseRequest { sort: Some("name".into()), ..req("") };
    let scope = browse_scope(&r, &volumes(), &kinds(), &insts.to_vec_rows()).expect("browse_list");
    let matches: Vec<InstanceRow> = scope.matches.iter().map(copy).collect();
    let sums = summaries(&insts);
    let page = browse_page(&r, scope, &sums, Vec::new());
    let by_name: std::collections::HashMap<String, &InstanceRow> =
        page.rows.iter().map(|(m, s)| (sums[*s].name.clone(), &matches[*m])).collect();
    let x = by_name["x.mov"];
    assert_eq!((x.size, x.mtime_ms, x.kind.as_str()), (10, 3000, "video"));
    let volume = volumes().into_iter().find(|v| v.id == x.volume).expect("the row's volume");
    assert!(volume.online, "the root-labeled volume must read online for the row too");
    let y = by_name["y.jpg"];
    assert_eq!((y.size, y.mtime_ms, y.kind.as_str()), (20, 1000, "image"));
    let z = by_name["z.pdf"];
    assert_eq!((z.size, z.mtime_ms, z.kind.as_str()), (30, 2000, "pdf"));
}
