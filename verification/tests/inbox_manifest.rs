use majestical_services::inbox_manifest::{
    check_files, validate_manifest, ContributionManifest, FileProbe, ManifestError, ManifestFile,
    NonFile,
};

fn file(name: &str, xxh64: &str, size: u64) -> ManifestFile {
    ManifestFile { name: name.to_string(), xxh64: xxh64.to_string(), size }
}

fn manifest(files: Vec<ManifestFile>) -> ContributionManifest {
    ContributionManifest {
        version: 1,
        contributor: "dana".to_string(),
        para_target: Some("project/spring".to_string()),
        source: Some("iphone".to_string()),
        note: None,
        files,
    }
}

fn refusal(m: &ContributionManifest) -> String {
    validate_manifest(m).expect_err("must be refused").message("/in/contribution.json")
}

#[test]
fn a_complete_contribution_is_ready() {
    let m = manifest(vec![file("IMG_1.HEIC", "deadbeef00000000", 4)]);
    validate_manifest(&m).expect("valid");
    assert_eq!(m.contributor, "dana");
    let check = check_files(&m, &vec![FileProbe::Present { len: 4 }], Ok(vec![
        "IMG_1.HEIC".to_string(),
        "contribution.json".to_string(),
    ]))
    .expect("check");
    assert!(check.waiting.is_empty());
    assert!(check.unlisted.is_empty());
    assert!(check.refused.is_empty());
}

#[test]
fn short_and_missing_files_mean_still_uploading() {
    let m = manifest(vec![
        file("IMG_1.HEIC", "deadbeef00000000", 4),
        file("IMG_2.HEIC", "deadbeef00000001", 9),
    ]);
    validate_manifest(&m).expect("valid");
    let check = check_files(
        &m,
        &vec![FileProbe::Present { len: 2 }, FileProbe::Missing],
        Ok(vec!["IMG_1.HEIC".to_string(), "contribution.json".to_string()]),
    )
    .expect("check");
    assert_eq!(check.waiting.len(), 2, "one short, one missing: {:?}", check.waiting);
    assert_eq!(check.waiting[0], "IMG_1.HEIC: 2 of 4 bytes present — still uploading?");
    assert_eq!(check.waiting[1], "IMG_2.HEIC: not yet present");
}

#[test]
fn unlisted_files_are_reported_never_absorbed() {
    let m = manifest(vec![file("IMG_1.HEIC", "deadbeef00000000", 4)]);
    let check = check_files(&m, &vec![FileProbe::Present { len: 4 }], Ok(vec![
        "IMG_1.HEIC".to_string(),
        "stray.mov".to_string(),
        "contribution.json".to_string(),
    ]))
    .expect("check");
    assert_eq!(check.unlisted, vec!["stray.mov".to_string()]);
}

#[test]
fn unlisted_files_are_collected_recursively_and_sorted() {
    let m = manifest(vec![]);
    let check = check_files(&m, &vec![], Ok(vec![
        "z.txt".to_string(),
        "b/sub/nested.txt".to_string(),
        "contribution.json".to_string(),
        "a/one.txt".to_string(),
        "b/two.txt".to_string(),
    ]))
    .expect("check");
    assert_eq!(check.unlisted, vec![
        "a/one.txt".to_string(),
        "b/sub/nested.txt".to_string(),
        "b/two.txt".to_string(),
        "z.txt".to_string(),
    ]);
}

#[test]
fn a_symlinked_listed_file_is_refused_not_erred() {
    let m = manifest(vec![file("IMG_1.HEIC", "deadbeef00000000", 4)]);
    let check = check_files(
        &m,
        &vec![FileProbe::NotRegular { what: NonFile::Symlink }],
        Ok(vec!["IMG_1.HEIC".to_string()]),
    )
    .expect("a symlinked listed file is a refusal, not an I/O error");
    assert_eq!(check.refused.len(), 1, "{:?}", check.refused);
    assert!(check.refused[0].contains("IMG_1.HEIC"), "{:?}", check.refused);
    assert!(check.refused[0].contains("symlink"), "{:?}", check.refused);
}

#[test]
fn a_listed_name_that_is_a_directory_is_refused() {
    let m = manifest(vec![file("subdir", "deadbeef00000000", 4)]);
    let check = check_files(
        &m,
        &vec![FileProbe::NotRegular { what: NonFile::Directory }],
        Ok(vec![]),
    )
    .expect("check");
    assert_eq!(check.refused.len(), 1, "{:?}", check.refused);
    assert!(check.refused[0].contains("subdir"), "{:?}", check.refused);
    assert!(check.refused[0].contains("directory"), "{:?}", check.refused);
}

#[test]
fn a_listed_path_through_a_non_directory_component_is_a_hard_error() {
    let m = manifest(vec![file("plain-file/IMG_1.HEIC", "deadbeef00000000", 4)]);
    let result = check_files(
        &m,
        &vec![FileProbe::Failed { message: "checking plain-file/IMG_1.HEIC".to_string() }],
        Ok(vec!["plain-file".to_string()]),
    );
    assert_eq!(result.expect_err("hard error"), "checking plain-file/IMG_1.HEIC");
}

#[test]
fn a_failed_folder_listing_is_a_hard_error() {
    let m = manifest(vec![file("IMG_1.HEIC", "deadbeef00000000", 4)]);
    let result = check_files(&m, &vec![FileProbe::Present { len: 4 }], Err("reading /in".to_string()));
    assert_eq!(result.expect_err("hard error"), "reading /in");
}

#[test]
fn duplicate_manifest_entries_are_rejected() {
    let m = manifest(vec![
        file("IMG_1.HEIC", "deadbeef00000000", 4),
        file("IMG_1.HEIC", "1111111111111111", 9),
    ]);
    let err = refusal(&m);
    assert!(err.contains("IMG_1.HEIC"), "{err}");
    assert!(err.contains("more than once"), "{err}");
}

#[test]
fn an_empty_manifest_entry_name_is_rejected() {
    let m = manifest(vec![file("", "deadbeef00000000", 1)]);
    let err = refusal(&m);
    assert!(err.contains("empty"), "{err}");
}

#[test]
fn a_trailing_slash_manifest_entry_name_is_rejected() {
    let m = manifest(vec![file("sub/", "deadbeef00000000", 1)]);
    let err = refusal(&m);
    assert!(err.contains("sub/"), "{err}");
}

#[test]
fn a_malformed_xxh64_is_rejected() {
    let m = manifest(vec![file("IMG_1.HEIC", "DEADBEEF00000000", 4)]);
    let err = refusal(&m);
    assert!(err.contains("xxh64"), "{err}");
    assert!(err.contains("16 lowercase hex"), "{err}");
}

#[test]
fn an_absolute_contributor_is_rejected() {
    let mut m = manifest(vec![]);
    m.contributor = "/etc/passwd".to_string();
    m.para_target = None;
    m.source = None;
    let err = refusal(&m);
    assert!(err.contains("contributor"), "{err}");
    assert!(err.contains("escapes"), "{err}");
}

#[test]
fn a_parent_dir_contributor_is_rejected() {
    let mut m = manifest(vec![]);
    m.contributor = "../evil".to_string();
    let err = refusal(&m);
    assert!(err.contains("contributor"), "{err}");
    assert!(err.contains("escapes"), "{err}");
}

#[test]
fn an_empty_para_target_is_rejected() {
    let mut m = manifest(vec![]);
    m.para_target = Some(String::new());
    let err = refusal(&m);
    assert!(err.contains("para_target"), "{err}");
    assert!(err.contains("empty"), "{err}");
}

#[test]
fn a_multi_slash_para_target_is_rejected() {
    let mut m = manifest(vec![]);
    m.para_target = Some("a/b/c".to_string());
    let err = refusal(&m);
    assert!(err.contains("para_target"), "{err}");
    assert!(err.contains("more than one"), "{err}");
}

#[test]
fn an_unknown_version_is_rejected() {
    let mut m = manifest(vec![]);
    m.version = 99;
    let err = refusal(&m);
    assert!(err.contains("version 99"), "{err}");
    assert!(err.contains("supports version 1"), "{err}");
    assert!(err.starts_with("/in/contribution.json is version 99"), "{err}");
}

#[test]
fn a_traversal_file_name_is_rejected() {
    let m = manifest(vec![file("../escape.mov", "deadbeef00000000", 1)]);
    let err = refusal(&m);
    assert!(err.contains("escape"), "{err}");
    assert!(matches!(validate_manifest(&m), Err(ManifestError::EscapingEntry { .. })));
}

#[test]
fn dotted_names_that_stay_inside_the_folder_pass() {
    let m = manifest(vec![
        file("a..b/..c", "0123456789abcdef", 1),
        file("./x", "0123456789abcdef", 1),
    ]);
    validate_manifest(&m).expect("`..` only counts as a whole component");
}

#[test]
fn the_first_failing_check_is_the_one_reported() {
    let m = manifest(vec![
        file("ok.jpg", "0123456789abcdef", 1),
        file("bad.jpg", "xyz", 1),
        file("", "0123456789abcdef", 1),
    ]);
    assert!(matches!(
        validate_manifest(&m),
        Err(ManifestError::MalformedHash { name, hash }) if name == "bad.jpg" && hash == "xyz"
    ));
}
