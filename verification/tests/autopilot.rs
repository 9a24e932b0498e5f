use majestical_services::autopilot::{
    autopilot_decision, HoldReason, PowerSource, PowerState, SchedulerDecision, ThrottleOverride,
};

fn state(source: PowerSource, low_power_mode: bool) -> PowerState {
    PowerState { source, low_power_mode }
}

#[test]
fn paused_wins_over_ac_with_pending_work() {
    let decision = autopilot_decision(state(PowerSource::Ac, false), ThrottleOverride::Paused, 5);
    assert_eq!(decision, SchedulerDecision::Hold(HoldReason::Paused));
}

#[test]
fn low_override_ignores_power_including_low_power_mode() {
    let decision = autopilot_decision(state(PowerSource::Battery, true), ThrottleOverride::Low, 5);
    assert_eq!(decision, SchedulerDecision::RunLow);
}

#[test]
fn full_override_ignores_power_including_low_power_mode() {
    let decision = autopilot_decision(state(PowerSource::Battery, true), ThrottleOverride::Full, 5);
    assert_eq!(decision, SchedulerDecision::RunFull);
}

#[test]
fn auto_on_ac_runs_full() {
    let decision = autopilot_decision(state(PowerSource::Ac, false), ThrottleOverride::Auto, 5);
    assert_eq!(decision, SchedulerDecision::RunFull);
}

#[test]
fn auto_on_battery_runs_low() {
    let decision =
        autopilot_decision(state(PowerSource::Battery, false), ThrottleOverride::Auto, 5);
    assert_eq!(decision, SchedulerDecision::RunLow);
}

#[test]
fn auto_on_unknown_source_runs_low() {
    let decision =
        autopilot_decision(state(PowerSource::Unknown, false), ThrottleOverride::Auto, 5);
    assert_eq!(decision, SchedulerDecision::RunLow);
}

#[test]
fn auto_in_low_power_mode_holds_regardless_of_source() {
    for source in [PowerSource::Ac, PowerSource::Battery, PowerSource::Unknown] {
        let decision = autopilot_decision(state(source, true), ThrottleOverride::Auto, 5);
        assert_eq!(decision, SchedulerDecision::Hold(HoldReason::LowPowerMode));
    }
}

#[test]
fn zero_pending_holds_for_every_non_paused_throttle() {
    for throttle in [ThrottleOverride::Auto, ThrottleOverride::Low, ThrottleOverride::Full] {
        let decision = autopilot_decision(state(PowerSource::Ac, false), throttle, 0);
        assert_eq!(decision, SchedulerDecision::Hold(HoldReason::NoPendingWork));
    }
}

#[test]
fn zero_pending_and_paused_reports_paused_not_no_work() {
    let decision = autopilot_decision(state(PowerSource::Ac, false), ThrottleOverride::Paused, 0);
    assert_eq!(decision, SchedulerDecision::Hold(HoldReason::Paused));
}

#[test]
fn paused_holds_paused_on_every_power_state_and_queue_depth() {
    for source in [PowerSource::Ac, PowerSource::Battery, PowerSource::Unknown] {
        for low in [false, true] {
            for pending in [0u64, 1, 7, u64::MAX] {
                let decision = autopilot_decision(state(source, low), ThrottleOverride::Paused, pending);
                assert_eq!(decision, SchedulerDecision::Hold(HoldReason::Paused));
            }
        }
    }
}

#[test]
fn non_auto_overrides_never_hold_for_low_power_mode() {
    for throttle in [ThrottleOverride::Paused, ThrottleOverride::Low, ThrottleOverride::Full] {
        for pending in [0u64, 3] {
            let decision = autopilot_decision(state(PowerSource::Battery, true), throttle, pending);
            assert_ne!(decision, SchedulerDecision::Hold(HoldReason::LowPowerMode));
        }
    }
}
