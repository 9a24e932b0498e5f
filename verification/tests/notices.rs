use majestical_services::error::ServiceError;
use majestical_services::notices::Notices;

#[test]
fn push_then_drain_preserves_order_and_empties() {
    let mut notices = Notices::default();
    notices.push("first".to_string());
    notices.push("second".to_string());
    assert_eq!(notices.drain(), vec!["first", "second"]);
    assert!(notices.drain().is_empty(), "drain must empty the buffer");
}

#[test]
fn attach_on_err_wraps_a_failure_with_the_sink_contents() {
    let mut notices = Notices::default();
    notices.push("warning one".to_string());
    notices.push("warning two".to_string());
    let result: Result<(), ServiceError> = Err(ServiceError::Other("boom".to_string()));
    let err = notices.attach_on_err(result).expect_err("must stay Err");
    let ServiceError::WithNotices { notices: carried, source } = err else {
        panic!("expected WithNotices, got a different variant");
    };
    assert_eq!(carried, vec!["warning one", "warning two"]);
    assert!(matches!(*source, ServiceError::Other(_)));
    assert!(notices.drain().is_empty(), "attach must drain the sink");
}

#[test]
fn attach_on_err_passes_ok_and_empty_sink_through_untouched() {
    let mut notices = Notices::default();
    notices.push("still here".to_string());
    let ok: Result<u8, ServiceError> = Ok(7);
    assert_eq!(notices.attach_on_err(ok).expect("ok stays ok"), 7);
    assert_eq!(
        notices.drain(),
        vec!["still here"],
        "an Ok result must leave the sink's contents untouched, not drain them"
    );
    let bare: Result<(), ServiceError> = Err(ServiceError::Other("boom".to_string()));
    let err = notices.attach_on_err(bare).expect_err("must stay Err");
    assert!(matches!(err, ServiceError::Other(_)), "an empty sink must not wrap");
}

#[test]
fn attach_on_err_merges_into_an_existing_carrier_instead_of_nesting() {
    let mut notices = Notices::default();
    notices.push("later warning".to_string());
    let already: Result<(), ServiceError> = Err(ServiceError::WithNotices {
        notices: vec!["earlier warning".to_string()],
        source: Box::new(ServiceError::Other("boom".to_string())),
    });
    let err = notices.attach_on_err(already).expect_err("must stay Err");
    let ServiceError::WithNotices { notices: carried, source } = err else {
        panic!("expected WithNotices");
    };
    assert_eq!(carried, vec!["earlier warning", "later warning"]);
    assert!(matches!(*source, ServiceError::Other(_)), "must merge, never nest a carrier in a carrier");
}

#[test]
fn a_carrier_reports_how_many_diagnostics_it_holds() {
    let e = ServiceError::WithNotices {
        notices: vec!["a".to_string(), "b".to_string()],
        source: Box::new(ServiceError::Other("boom".to_string())),
    };
    assert_eq!(e.message(), "2 diagnostic(s) were collected before this failure");
    let nc = majestical_services::error::no_catalog("/x/cat");
    assert_eq!(nc.message(), "no catalog at /x/cat — run `maj catalog init` first");
}

#[test]
fn len_counts_waiting_lines() {
    let mut notices = Notices::new();
    assert_eq!(notices.len(), 0);
    notices.push("one".to_string());
    assert_eq!(notices.len(), 1);
}
