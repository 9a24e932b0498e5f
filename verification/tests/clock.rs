use majestical_services::clock::epoch_millis;
use majestical_services::clock::clamp_tally;
use majestical_services::clock::{
    clamp_warning, physical_now_ms, saturating_millis, skipped_lines_warning, SystemClock,
};

#[test]
fn the_wall_clock_reads_after_the_epoch() {
    let a = physical_now_ms();
    let b = SystemClock.wall_ms();
    assert!(a > 1_600_000_000_000, "{a}");
    assert!(b >= a);
}

#[test]
fn milliseconds_saturate_at_u64_max() {
    assert_eq!(saturating_millis(5), 5);
    assert_eq!(saturating_millis(u128::from(u64::MAX) + 1), u64::MAX);
}

#[test]
fn clamped_events_warn_once_with_days_ahead() {
    assert_eq!(clamp_warning(0, 0, 0), None);
    assert_eq!(
        clamp_warning(2, 3 * 86_400_000 + 5, 5).as_deref(),
        Some("warning: 2 event(s) carry timestamps more than 24h in the future (worst: ~3d ahead) — a peer's clock may be wrong; ordering was clamped locally")
    );
    assert!(clamp_warning(1, 10, 20).expect("warns").contains("~0d ahead"));
}

#[test]
fn skipped_lines_name_the_event_directory() {
    assert_eq!(skipped_lines_warning(0, "/cat"), None);
    assert_eq!(
        skipped_lines_warning(3, "/cat").as_deref(),
        Some("warning: skipped 3 corrupt event log line(s) in /cat/events — damaged transport; affected metadata may be missing")
    );
}

#[test]
fn clamp_tally_counts_clamped_events_and_keeps_the_worst() {
    assert_eq!(clamp_tally(&vec![]), (0, 0));
    assert_eq!(clamp_tally(&vec![None, Some(500), None, Some(900), Some(700)]), (3, 900));
}

#[test]
fn epoch_millis_is_zero_before_the_epoch_and_saturates_past_u64() {
    assert_eq!(epoch_millis(None), 0);
    assert_eq!(epoch_millis(Some(1_700_000_000_000)), 1_700_000_000_000);
    assert_eq!(epoch_millis(Some(u128::from(u64::MAX) + 1)), u64::MAX);
}
