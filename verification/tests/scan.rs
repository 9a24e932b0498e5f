use majestical_services::scan::sighting_path;
use majestical_services::scan::{asset_id, event_path, resolve_volume, scan_ops, AssetHasher, ScanOp, SeenFile};

#[test]
fn resolve_volume_with_an_override_uses_it_as_both_id_and_label() {
    let (id, label) = resolve_volume(Some("myvol".into()), ("auto-id".into(), "Auto".into()));
    assert_eq!((id.as_str(), label.as_str()), ("myvol", "myvol"));
    let (id, label) = resolve_volume(None, ("auto-id".into(), "Auto".into()));
    assert_eq!((id.as_str(), label.as_str()), ("auto-id", "Auto"));
}

#[test]
fn asset_ids_are_the_xxh3_128_digest_in_32_hex_digits() {
    assert_eq!(asset_id(0), "xxh3:00000000000000000000000000000000");
    assert_eq!(asset_id(0xabc), "xxh3:00000000000000000000000000000abc");
    assert_eq!(asset_id(u128::MAX), "xxh3:ffffffffffffffffffffffffffffffff");
}

#[test]
fn streaming_a_file_in_chunks_gives_the_one_shot_digest() {
    let data = b"alpha beta gamma delta".repeat(1000);
    let mut h = AssetHasher::new();
    for chunk in data.chunks(777) {
        h.update(chunk);
    }
    let expected = format!("xxh3:{:032x}", xxhash_rust::xxh3::xxh3_128(&data));
    assert_eq!(h.asset_id(), expected);
    assert_ne!(AssetHasher::new().asset_id(), expected);
}

#[test]
fn event_paths_use_forward_slashes() {
    assert_eq!(event_path("DCIM\\100\\a.jpg"), "DCIM/100/a.jpg");
}

#[test]
fn scan_ops_lead_with_the_volume() {
    let ops = scan_ops(
        "vol1",
        "Card",
        vec![SeenFile { asset: "xxh3:1".into(), path: "a.txt".into(), size: 5, mtime_ms: 9 }],
    );
    assert_eq!(ops.len(), 2);
    assert!(matches!(&ops[0], ScanOp::VolumeSeen { volume, label } if volume == "vol1" && label == "Card"));
    assert!(matches!(&ops[1], ScanOp::AssetSeen { path, size, .. } if path == "a.txt" && *size == 5));
}

#[test]
fn scan_reports_asset_count_and_volume_id() {
    let files = vec![
        SeenFile { asset: "xxh3:a".into(), path: "a.txt".into(), size: 5, mtime_ms: 0 },
        SeenFile { asset: "xxh3:b".into(), path: "b.txt".into(), size: 4, mtime_ms: 0 },
    ];
    let outcome = majestical_services::scan::scan_outcome("vol1", &files, vec![]);
    assert_eq!(outcome.assets, 2, "the volume's own sighting is not an asset");
    assert_eq!(outcome.volume_id, "vol1");
    let ops = majestical_services::scan::scan_ops("vol1", "vol1", files);
    assert_eq!(ops.len(), 3);
}

#[test]
fn sighting_path_rebases_only_a_detected_volume() {
    assert_eq!(sighting_path(true, "b/c.jpg", Some("a\\b/c.jpg")), "a/b/c.jpg");
    assert_eq!(sighting_path(true, "b\\c.jpg", None), "b/c.jpg");
    assert_eq!(sighting_path(false, "b/c.jpg", Some("a/b/c.jpg")), "b/c.jpg");
}
