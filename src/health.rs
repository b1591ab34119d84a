use vstd::prelude::*;

verus! {

/// The outcome of a health check.
#[derive(Clone, Copy, Debug, PartialEq, Eq, Structural)]
pub enum HealthCheckResult {
    Success,
    Failure,
}

/// How a health check runs: probe every `period_ms` milliseconds until
/// `success_threshold` probes succeeded or `failure_threshold` failed.
#[derive(Clone, Copy, Debug, PartialEq, Eq, Structural)]
pub struct HealthCheckConfiguration {
    pub period_ms: u64,
    pub success_threshold: u32,
    pub failure_threshold: u32,
}

impl HealthCheckConfiguration {
    pub fn new(period_ms: u64, success_threshold: u32, failure_threshold: u32) -> (r: Self)
        ensures
            r == (HealthCheckConfiguration { period_ms, success_threshold, failure_threshold }),
    {
        HealthCheckConfiguration { period_ms, success_threshold, failure_threshold }
    }
}

/// The probes counted so far by an undecided health check.
#[derive(Clone, Copy, Debug, PartialEq, Eq, Structural)]
pub struct HealthCheckState {
    pub successes: u32,
    pub failures: u32,
}

/// What a health check does after a probe.
#[derive(Clone, Copy, Debug, PartialEq, Eq, Structural)]
pub enum HealthCheckStep {
    /// Probe again, with these counts.
    Continue(HealthCheckState),
    /// Stop with this outcome.
    Done(HealthCheckResult),
}

impl HealthCheckState {
    /// No probe yet.
    pub fn new() -> (r: Self)
        ensures
            r == (HealthCheckState { successes: 0, failures: 0 }),
    {
        HealthCheckState { successes: 0, failures: 0 }
    }

    /// The counts of an undecided check stay below the thresholds.
    pub open spec fn undecided(self, config: HealthCheckConfiguration) -> bool {
        (self.successes == 0 || self.successes < config.success_threshold) && (self.failures == 0
            || self.failures < config.failure_threshold)
    }

    /// Counts one probe; success is looked at before failure.
    pub fn record(self, config: HealthCheckConfiguration, succeeded: bool) -> (r: HealthCheckStep)
        requires
            self.undecided(config),
        ensures
            ({
                let s = if succeeded { self.successes + 1 } else { self.successes as int };
                let f = if succeeded { self.failures as int } else { self.failures + 1 };
                if s >= config.success_threshold {
                    r == HealthCheckStep::Done(HealthCheckResult::Success)
                } else if f >= config.failure_threshold {
                    r == HealthCheckStep::Done(HealthCheckResult::Failure)
                } else {
                    r == HealthCheckStep::Continue(HealthCheckState { successes: s as u32, failures: f as u32 })
                        && (HealthCheckState { successes: s as u32, failures: f as u32 }).undecided(config)
                }
            }),
    {
        let mut successes = self.successes;
        let mut failures = self.failures;
        if succeeded {
            successes = successes + 1;
        } else {
            failures = failures + 1;
        }
        if successes >= config.success_threshold {
            return HealthCheckStep::Done(HealthCheckResult::Success);
        }
        if failures >= config.failure_threshold {
            return HealthCheckStep::Done(HealthCheckResult::Failure);
        }
        HealthCheckStep::Continue(HealthCheckState { successes, failures })
    }
}

} // verus!
