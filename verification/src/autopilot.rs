//! Autopilot scheduling policy: a pure function from power state, manual
//! throttle override, and pending work count to a scheduler decision. The
//! desktop host runs the actual loop (polling power, reading the queue
//! depth, calling [`autopilot_decision`] each tick and acting on it).
use vstd::prelude::*;

verus! {

#[derive(Debug, Clone, Copy, PartialEq, Eq, Structural)]
pub enum PowerSource {
    Ac,
    Battery,
    /// Probe unavailable (non-macOS) or unparseable output.
    Unknown,
}

#[derive(Debug, Clone, Copy, PartialEq, Eq, Structural)]
pub struct PowerState {
    pub source: PowerSource,
    pub low_power_mode: bool,
}

#[derive(Debug, Clone, Copy, PartialEq, Eq, Structural)]
pub enum ThrottleOverride {
    Auto,
    Paused,
    Low,
    Full,
}

#[derive(Debug, Clone, Copy, PartialEq, Eq, Structural)]
pub enum HoldReason {
    Paused,
    LowPowerMode,
    NoPendingWork,
}

#[derive(Debug, Clone, Copy, PartialEq, Eq, Structural)]
pub enum SchedulerDecision {
    RunFull,
    RunLow,
    Hold(HoldReason),
}

/// The scheduling policy, stated by precedence: an explicit `Paused`
/// override always holds; otherwise an empty queue holds for
/// `NoPendingWork`; then `Low`/`Full` force a mode; only `Auto` consults
/// power (low power mode holds, AC runs full, battery or unknown runs low).
pub open spec fn decision_spec(
    power: PowerState,
    throttle: ThrottleOverride,
    pending_items: u64,
) -> SchedulerDecision {
    if throttle == ThrottleOverride::Paused {
        SchedulerDecision::Hold(HoldReason::Paused)
    } else if pending_items == 0 {
        SchedulerDecision::Hold(HoldReason::NoPendingWork)
    } else if throttle == ThrottleOverride::Low {
        SchedulerDecision::RunLow
    } else if throttle == ThrottleOverride::Full {
        SchedulerDecision::RunFull
    } else if power.low_power_mode {
        SchedulerDecision::Hold(HoldReason::LowPowerMode)
    } else if power.source == PowerSource::Ac {
        SchedulerDecision::RunFull
    } else {
        SchedulerDecision::RunLow
    }
}

/// Decide what the indexer loop should do on this tick.
pub fn autopilot_decision(
    power: PowerState,
    throttle: ThrottleOverride,
    pending_items: u64,
) -> (decision: SchedulerDecision)
    ensures
        decision == decision_spec(power, throttle, pending_items),
{
    if pending_items == 0 && throttle != ThrottleOverride::Paused {
        return SchedulerDecision::Hold(HoldReason::NoPendingWork);
    }
    match throttle {
        ThrottleOverride::Paused => SchedulerDecision::Hold(HoldReason::Paused),
        ThrottleOverride::Low => SchedulerDecision::RunLow,
        ThrottleOverride::Full => SchedulerDecision::RunFull,
        ThrottleOverride::Auto => {
            if power.low_power_mode {
                return SchedulerDecision::Hold(HoldReason::LowPowerMode);
            }
            match power.source {
                PowerSource::Ac => SchedulerDecision::RunFull,
                PowerSource::Battery | PowerSource::Unknown => SchedulerDecision::RunLow,
            }
        },
    }
}

/// A `Paused` override holds as `Paused` whatever the power state and
/// however much work is pending.
pub proof fn paused_always_holds_paused(power: PowerState, pending_items: u64)
    ensures
        decision_spec(power, ThrottleOverride::Paused, pending_items) == SchedulerDecision::Hold(
            HoldReason::Paused,
        ),
{
}

/// Any override other than `Auto` never holds for low power mode: only
/// `Auto` ever consults the power state.
pub proof fn non_auto_throttle_never_holds_for_low_power_mode(
    power: PowerState,
    throttle: ThrottleOverride,
    pending_items: u64,
)
    requires
        throttle != ThrottleOverride::Auto,
    ensures
        decision_spec(power, throttle, pending_items) != SchedulerDecision::Hold(
            HoldReason::LowPowerMode,
        ),
        decision_spec(power, throttle, pending_items) == decision_spec(
            PowerState { source: PowerSource::Unknown, low_power_mode: false },
            throttle,
            pending_items,
        ),
{
}

/// With nothing pending, every override except `Paused` holds for
/// `NoPendingWork`, whatever the power state.
pub proof fn empty_queue_holds_unless_paused(power: PowerState, throttle: ThrottleOverride)
    requires
        throttle != ThrottleOverride::Paused,
    ensures
        decision_spec(power, throttle, 0) == SchedulerDecision::Hold(HoldReason::NoPendingWork),
{
}

/// With work pending and no manual override, the decision never depends on
/// how much work is pending: only on whether there is any.
pub proof fn pending_count_only_matters_when_zero(
    power: PowerState,
    throttle: ThrottleOverride,
    a: u64,
    b: u64,
)
    requires
        a > 0,
        b > 0,
    ensures
        decision_spec(power, throttle, a) == decision_spec(power, throttle, b),
{
}

} // verus!
