use majestical_services::heal::{
    blob_asset_id, is_nonblank, keyframe_ocr_rows, keyframe_ocr_timestamp, needs_heal,
    parse_decimal_i64, pdf_page_rows, sort_by_locator, still_row, timed_text_rows,
};

#[test]
fn a_blob_belongs_to_the_xxh3_asset_of_its_hash() {
    assert_eq!(blob_asset_id("0123abcd"), "xxh3:0123abcd");
}

#[test]
fn an_asset_with_rows_is_not_healed_again() {
    let covered = vec!["xxh3:aa".to_string()];
    assert!(!needs_heal(&covered, "xxh3:aa"));
    assert!(needs_heal(&covered, "xxh3:bb"));
}

#[test]
fn a_blank_still_text_yields_no_row() {
    assert_eq!(still_row("  \n\t".to_string()), None);
    assert_eq!(still_row(" a sunset ".to_string()), Some((-1, " a sunset ".to_string())));
    assert!(!is_nonblank(""));
}

#[test]
fn video_captions_keep_their_timestamps_and_drop_blank_texts() {
    let rows = timed_text_rows(vec![
        (1500, "a dog".to_string()),
        (2500, "   ".to_string()),
        (u64::MAX, "late".to_string()),
    ]);
    assert_eq!(rows, vec![(1500, "a dog".to_string()), (i64::MAX, "late".to_string())]);
}

#[test]
fn pdf_pages_are_located_by_their_one_based_number() {
    let rows = pdf_page_rows(vec!["first".to_string(), " ".to_string(), "third".to_string()]);
    assert_eq!(rows, vec![(1, "first".to_string()), (3, "third".to_string())]);
}

#[test]
fn keyframe_ocr_blob_names_carry_their_timestamp() {
    assert_eq!(keyframe_ocr_timestamp("kf-1500.json.zst"), Some(1500));
    assert_eq!(keyframe_ocr_timestamp("kf--20.json.zst"), Some(-20));
    assert_eq!(keyframe_ocr_timestamp("kf-+7.json.zst"), Some(7));
    assert_eq!(keyframe_ocr_timestamp("kf-.json.zst"), None);
    assert_eq!(keyframe_ocr_timestamp("kf-12a.json.zst"), None);
    assert_eq!(keyframe_ocr_timestamp("kf-12.json"), None);
    assert_eq!(keyframe_ocr_timestamp("ocr-complete.json"), None);
    assert_eq!(keyframe_ocr_timestamp("kf-99999999999999999999.json.zst"), None);
}

#[test]
fn signed_decimals_parse_as_str_parse_does() {
    assert_eq!(parse_decimal_i64("-9223372036854775808"), Some(i64::MIN));
    assert_eq!(parse_decimal_i64("9223372036854775807"), Some(i64::MAX));
    assert_eq!(parse_decimal_i64("9223372036854775808"), None);
    assert_eq!(parse_decimal_i64("+"), None);
    assert_eq!(parse_decimal_i64("-"), None);
    assert_eq!(parse_decimal_i64(""), None);
    assert_eq!(parse_decimal_i64("007"), Some(7));
}

#[test]
fn keyframe_ocr_rows_are_sorted_by_timestamp_without_blank_texts() {
    let rows = keyframe_ocr_rows(vec![
        (3000, "c".to_string()),
        (1000, "a".to_string()),
        (2000, " ".to_string()),
        (1500, "b".to_string()),
    ]);
    assert_eq!(rows, vec![(1000, "a".to_string()), (1500, "b".to_string()), (3000, "c".to_string())]);
}

#[test]
fn sorting_by_locator_keeps_every_row() {
    let rows = sort_by_locator(vec![(5, "x".to_string()), (-1, "y".to_string()), (5, "z".to_string())]);
    assert_eq!(rows.len(), 3);
    assert_eq!(rows[0], (-1, "y".to_string()));
    assert!(rows[1..].iter().all(|r| r.0 == 5));
}
