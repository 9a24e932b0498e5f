use majestical_services::catalog::{meta_lookup, para_label, volume_label};
use majestical_services::para::{ParaKind, ParaNode};

fn node(id: &str, kind: Option<ParaKind>, name: Option<&str>) -> ParaNode {
    ParaNode { id: id.to_string(), kind, name: name.map(|n| n.to_string()), archived: false }
}

#[test]
fn a_volume_label_falls_back_to_its_id() {
    let vols = vec![
        ("vol1".to_string(), Some("Card A".to_string())),
        ("vol2".to_string(), None),
    ];
    assert_eq!(volume_label(&vols, "vol1"), "Card A");
    assert_eq!(volume_label(&vols, "vol2"), "vol2");
    assert_eq!(volume_label(&vols, "vol3"), "vol3");
}

#[test]
fn para_assignment_renders_kind_and_name_or_the_bare_id() {
    let nodes = vec![
        node("01N", Some(ParaKind::Project), Some("client-x")),
        node("01M", None, Some("orphan")),
    ];
    assert_eq!(para_label(Some("01N"), &nodes).as_deref(), Some("project/client-x"));
    assert_eq!(para_label(Some("01M"), &nodes).as_deref(), Some("01M"));
    assert_eq!(para_label(Some("01Z"), &nodes).as_deref(), Some("01Z"));
    assert_eq!(para_label(None, &nodes), None);
}

#[test]
fn meta_get_of_a_set_field_returns_one_entry() {
    let fields = vec![("shot".to_string(), "sunset".to_string()), ("lens".to_string(), "35mm".to_string())];
    let out = meta_lookup(&fields, Some("lens"));
    assert_eq!(out.fields, vec![("lens".to_string(), "35mm".to_string())]);
}

#[test]
fn meta_get_of_an_unset_field_is_empty() {
    let fields = vec![("shot".to_string(), "sunset".to_string())];
    assert!(meta_lookup(&fields, Some("lens")).fields.is_empty());
}

#[test]
fn meta_get_of_no_field_returns_every_set_field() {
    let fields = vec![("shot".to_string(), "sunset".to_string()), ("lens".to_string(), "35mm".to_string())];
    assert_eq!(meta_lookup(&fields, None).fields, fields);
}
