use majestical_services::blobs::resolve_keyframe_image;
use majestical_services::blobs::{
    blob_hex, existing_keyframe_image_indices, is_well_formed_asset_id, keyframe_index, read_failure,
    read_keyframe_image, read_keyframe_timestamps, BlobError, Kind,
};

const ASSET: &str = "xxh3:0123456789abcdef0123456789abcdef";

#[test]
fn an_id_that_is_not_xxh3_hex_is_rejected_before_any_file_is_touched() {
    for bad in ["xxh3:0123", "sha1:0123456789abcdef0123456789abcdef", "xxh3:0123456789ABCDEF0123456789abcdef", ""] {
        assert!(!is_well_formed_asset_id(bad), "{bad}");
        let err = blob_hex(bad).expect_err("malformed");
        assert!(matches!(&err, BlobError::MalformedAssetId { asset_id } if asset_id == bad));
        assert_eq!(err.message(), format!("{bad}: not a valid asset id (expected xxh3:<hex>)"));
    }
    assert!(is_well_formed_asset_id(ASSET));
    assert_eq!(blob_hex(ASSET).expect("hex"), "0123456789abcdef0123456789abcdef");
}

#[test]
fn a_blob_nobody_has_derived_names_its_own_remedy() {
    let err = read_failure(Kind::Thumb, ASSET, "/cat/blobs/x/thumb-320.webp", true, "not found");
    assert_eq!(
        err.message(),
        format!("no thumbnail for {ASSET} — run `maj index run --kinds thumbs` to derive it")
    );
    let err = read_failure(Kind::KeyframeImage { timestamp_ms: 1500 }, ASSET, "/p", true, "nf");
    assert!(err.message().contains("--kinds keyframe-images"));
}

#[test]
fn a_read_failure_that_is_not_absence_is_reported_as_a_read_failure() {
    let err = read_failure(Kind::Keyframes, ASSET, "/cat/k.json", false, "permission denied");
    assert_eq!(err.message(), "reading keyframe manifest blob at /cat/k.json: permission denied");
}

#[test]
fn read_keyframe_image_maps_index_to_the_timestamp_at_that_position() {
    let timestamps = vec![1500, 4200, 9000];
    let index = keyframe_index(ASSET, "1").expect("index");
    assert_eq!(read_keyframe_image(ASSET, index, &timestamps).expect("in range"), Kind::KeyframeImage { timestamp_ms: 4200 });
}

#[test]
fn read_keyframe_image_out_of_range_index_is_clean_not_a_panic() {
    let err = read_keyframe_image(ASSET, 3, &vec![1500, 4200, 9000]).expect_err("out of range");
    assert!(matches!(err, BlobError::KeyframeIndexOutOfRange { index: 3, count: 3, .. }));
    assert_eq!(err.message(), format!("{ASSET}: no keyframe image at index 3 (3 in the manifest)"));
}

#[test]
fn read_keyframe_image_malformed_index_is_clean_not_a_panic() {
    for bad in ["-1", "x", "", "1.5", "99999999999999999999999"] {
        let err = keyframe_index(ASSET, bad).expect_err("malformed");
        assert!(matches!(&err, BlobError::MalformedKeyframeIndex { requested, .. } if requested == bad));
        assert_eq!(
            err.message(),
            format!("{ASSET}: {bad:?} is not a valid keyframe index (expected a whole number)")
        );
    }
    assert_eq!(keyframe_index(ASSET, "+2").expect("plus sign"), 2);
}

#[test]
fn a_manifest_that_does_not_parse_is_a_malformed_manifest() {
    let err = read_keyframe_timestamps(ASSET, Err("expected value at line 1 column 1".to_string()))
        .expect_err("malformed");
    assert_eq!(
        err.message(),
        format!("keyframe manifest for {ASSET} is not valid JSON: expected value at line 1 column 1")
    );
    assert_eq!(read_keyframe_timestamps(ASSET, Ok(vec![1, 2])).expect("parsed"), vec![1, 2]);
}

#[test]
fn existing_keyframe_image_indices_lists_only_indices_with_a_blob() {
    assert_eq!(existing_keyframe_image_indices(ASSET, &vec![true, false, true]), vec![0, 2]);
}

#[test]
fn existing_keyframe_image_indices_on_a_malformed_id_is_empty_not_a_panic() {
    assert!(existing_keyframe_image_indices("bogus", &vec![true, true]).is_empty());
}

#[test]
fn read_keyframe_timestamps_parses_the_manifest() {
    let timestamps = read_keyframe_timestamps(ASSET, Ok(vec![1500, 4500])).expect("parse the planted manifest");
    assert_eq!(timestamps, vec![1500, 4500]);
}

#[test]
fn read_keyframe_timestamps_on_unparsable_bytes_is_a_malformed_manifest() {
    let err = read_keyframe_timestamps(ASSET, Err("key must be a string at line 1 column 3".to_string()))
        .expect_err("corrupt manifest bytes must not parse");
    assert!(matches!(err, BlobError::MalformedManifest { .. }), "{err:?}");
}

#[test]
fn read_keyframe_image_malformed_index_never_touches_the_manifest() {
    let err = keyframe_index(ASSET, "not-a-number").expect_err("malformed index, no manifest planted");
    assert!(matches!(err, BlobError::MalformedKeyframeIndex { .. }), "{err:?}");
}

#[test]
fn resolve_keyframe_image_refuses_a_malformed_index_whatever_the_manifest() {
    for manifest in [Ok(vec![1500, 4500]), Err("unreadable".to_string())] {
        let err = resolve_keyframe_image(ASSET, "x", manifest).expect_err("malformed index");
        assert!(
            matches!(&err, BlobError::MalformedKeyframeIndex { requested, .. } if requested == "x"),
            "{err:?}"
        );
    }
    assert!(matches!(
        resolve_keyframe_image(ASSET, "1", Ok(vec![1500, 4500])),
        Ok(Kind::KeyframeImage { timestamp_ms: 4500 })
    ));
    assert!(matches!(
        resolve_keyframe_image(ASSET, "2", Ok(vec![1500, 4500])),
        Err(BlobError::KeyframeIndexOutOfRange { index: 2, count: 2, .. })
    ));
    assert!(matches!(
        resolve_keyframe_image(ASSET, "0", Err("bad json".to_string())),
        Err(BlobError::MalformedManifest { .. })
    ));
}
