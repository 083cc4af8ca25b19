//! Metric counters of an injector tree and their rendering in the
//! Prometheus text exposition format.
use vstd::prelude::*;
use vstd::string::*;
use crate::text::{decimal, push_decimal};

verus! {

/// Span name emitted during provider registration.
pub const SPAN_PROVIDE: &'static str = "fluxdi.provide";
/// Span name emitted during service resolution.
pub const SPAN_RESOLVE: &'static str = "fluxdi.resolve";
/// Span name emitted while executing a provider factory.
pub const SPAN_FACTORY_EXECUTE: &'static str = "fluxdi.factory.execute";
/// Event name emitted when a circular dependency is detected.
pub const EVENT_CIRCULAR_DEPENDENCY: &'static str = "fluxdi.circular_dependency";
/// Metric name: provider registration attempts.
pub const METRIC_PROVIDE_ATTEMPTS_TOTAL: &'static str = "fluxdi_provide_attempts_total";
/// Metric name: successful provider registrations.
pub const METRIC_PROVIDE_SUCCESS_TOTAL: &'static str = "fluxdi_provide_success_total";
/// Metric name: failed provider registrations.
pub const METRIC_PROVIDE_FAILURES_TOTAL: &'static str = "fluxdi_provide_failures_total";
/// Metric name: resolve attempts.
pub const METRIC_RESOLVE_ATTEMPTS_TOTAL: &'static str = "fluxdi_resolve_attempts_total";
/// Metric name: successful resolves.
pub const METRIC_RESOLVE_SUCCESS_TOTAL: &'static str = "fluxdi_resolve_success_total";
/// Metric name: failed resolves.
pub const METRIC_RESOLVE_FAILURES_TOTAL: &'static str = "fluxdi_resolve_failures_total";
/// Metric name: resolve cache hits.
pub const METRIC_RESOLVE_CACHE_HITS_TOTAL: &'static str = "fluxdi_resolve_cache_hits_total";
/// Metric name: resolve cache misses.
pub const METRIC_RESOLVE_CACHE_MISSES_TOTAL: &'static str = "fluxdi_resolve_cache_misses_total";
/// Metric name: factory executions.
pub const METRIC_FACTORY_EXECUTIONS_TOTAL: &'static str = "fluxdi_factory_executions_total";
/// Metric name: cumulative resolve duration in seconds.
pub const METRIC_RESOLVE_DURATION_SECONDS_TOTAL: &'static str = "fluxdi_resolve_duration_seconds_total";
/// Metric name: resolve duration sample count.
pub const METRIC_RESOLVE_DURATION_SAMPLES_TOTAL: &'static str = "fluxdi_resolve_duration_samples_total";

/// Counter sum as an atomic `fetch_add` computes it: modulo 2^64.
pub open spec fn wrapped_add(a: u64, b: u64) -> u64 {
    if a + b > u64::MAX {
        (a + b - 0x1_0000_0000_0000_0000) as u64
    } else {
        (a + b) as u64
    }
}

/// Snapshot of the injector metric counters.
#[derive(Clone, Copy, Debug, PartialEq, Eq, Structural)]
pub struct MetricsSnapshot {
    pub provide_attempts_total: u64,
    pub provide_success_total: u64,
    pub provide_failures_total: u64,
    pub resolve_attempts_total: u64,
    pub resolve_success_total: u64,
    pub resolve_failures_total: u64,
    pub resolve_cache_hits_total: u64,
    pub resolve_cache_misses_total: u64,
    pub factory_executions_total: u64,
    pub resolve_duration_ns_total: u64,
    pub resolve_duration_samples_total: u64,
}

/// The counters all at zero.
pub open spec fn zero_snapshot() -> MetricsSnapshot {
    MetricsSnapshot {
        provide_attempts_total: 0,
        provide_success_total: 0,
        provide_failures_total: 0,
        resolve_attempts_total: 0,
        resolve_success_total: 0,
        resolve_failures_total: 0,
        resolve_cache_hits_total: 0,
        resolve_cache_misses_total: 0,
        factory_executions_total: 0,
        resolve_duration_ns_total: 0,
        resolve_duration_samples_total: 0,
    }
}

impl MetricsSnapshot {
    /// All counters at zero.
    pub fn zero() -> (r: Self)
        ensures
            r == zero_snapshot(),
    {
        MetricsSnapshot {
            provide_attempts_total: 0,
            provide_success_total: 0,
            provide_failures_total: 0,
            resolve_attempts_total: 0,
            resolve_success_total: 0,
            resolve_failures_total: 0,
            resolve_cache_hits_total: 0,
            resolve_cache_misses_total: 0,
            factory_executions_total: 0,
            resolve_duration_ns_total: 0,
            resolve_duration_samples_total: 0,
        }
    }
}

impl MetricsSnapshot {
    pub open spec fn count_provide_attempt(self) -> Self {
        MetricsSnapshot { provide_attempts_total: wrapped_add(self.provide_attempts_total, 1), ..self }
    }

    pub open spec fn count_provide_success(self) -> Self {
        MetricsSnapshot { provide_success_total: wrapped_add(self.provide_success_total, 1), ..self }
    }

    pub open spec fn count_provide_failure(self) -> Self {
        MetricsSnapshot { provide_failures_total: wrapped_add(self.provide_failures_total, 1), ..self }
    }

    pub open spec fn count_resolve_attempt(self) -> Self {
        MetricsSnapshot { resolve_attempts_total: wrapped_add(self.resolve_attempts_total, 1), ..self }
    }

    pub open spec fn count_cache_hit(self) -> Self {
        MetricsSnapshot { resolve_cache_hits_total: wrapped_add(self.resolve_cache_hits_total, 1), ..self }
    }

    pub open spec fn count_cache_miss(self) -> Self {
        MetricsSnapshot { resolve_cache_misses_total: wrapped_add(self.resolve_cache_misses_total, 1), ..self }
    }

    pub open spec fn count_factory_execution(self) -> Self {
        MetricsSnapshot { factory_executions_total: wrapped_add(self.factory_executions_total, 1), ..self }
    }

    pub open spec fn count_resolve_success(self, elapsed_nanos: u128) -> Self {
        MetricsSnapshot {
            resolve_success_total: wrapped_add(self.resolve_success_total, 1),
            resolve_duration_ns_total: wrapped_add(self.resolve_duration_ns_total, saturated_nanos(elapsed_nanos)),
            resolve_duration_samples_total: wrapped_add(self.resolve_duration_samples_total, 1),
            ..self
        }
    }

    pub open spec fn count_resolve_failure(self, elapsed_nanos: u128) -> Self {
        MetricsSnapshot {
            resolve_failures_total: wrapped_add(self.resolve_failures_total, 1),
            resolve_duration_ns_total: wrapped_add(self.resolve_duration_ns_total, saturated_nanos(elapsed_nanos)),
            resolve_duration_samples_total: wrapped_add(self.resolve_duration_samples_total, 1),
            ..self
        }
    }
}

impl Default for MetricsSnapshot {
    fn default() -> (r: Self)
        ensures
            r == zero_snapshot(),
    {
        MetricsSnapshot::zero()
    }
}

pub open spec fn metric_provide_attempts() -> Seq<char> { "fluxdi_provide_attempts_total"@ }
pub open spec fn metric_provide_success() -> Seq<char> { "fluxdi_provide_success_total"@ }
pub open spec fn metric_provide_failures() -> Seq<char> { "fluxdi_provide_failures_total"@ }
pub open spec fn metric_resolve_attempts() -> Seq<char> { "fluxdi_resolve_attempts_total"@ }
pub open spec fn metric_resolve_success() -> Seq<char> { "fluxdi_resolve_success_total"@ }
pub open spec fn metric_resolve_failures() -> Seq<char> { "fluxdi_resolve_failures_total"@ }
pub open spec fn metric_cache_hits() -> Seq<char> { "fluxdi_resolve_cache_hits_total"@ }
pub open spec fn metric_cache_misses() -> Seq<char> { "fluxdi_resolve_cache_misses_total"@ }
pub open spec fn metric_factory_executions() -> Seq<char> { "fluxdi_factory_executions_total"@ }
pub open spec fn metric_duration_seconds() -> Seq<char> { "fluxdi_resolve_duration_seconds_total"@ }
pub open spec fn metric_duration_samples() -> Seq<char> { "fluxdi_resolve_duration_samples_total"@ }

/// One counter in exposition format: its help line, its type line and its sample.
pub open spec fn counter_text(name: Seq<char>, help: Seq<char>, value: Seq<char>) -> Seq<char> {
    "# HELP "@ + name + " "@ + help + "\n"@ + "# TYPE "@ + name + " counter\n"@ + name + " "@
        + value + "\n"@
}

/// The whole exposition text of a snapshot, with `seconds` as the sample
/// of the resolve duration in seconds.
pub open spec fn prometheus_text(s: MetricsSnapshot, seconds: Seq<char>) -> Seq<char> {
    counter_text(metric_provide_attempts(), "Total number of provider registration attempts."@, decimal(s.provide_attempts_total as nat))
    + counter_text(metric_provide_success(), "Total number of successful provider registrations."@, decimal(s.provide_success_total as nat))
    + counter_text(metric_provide_failures(), "Total number of failed provider registrations."@, decimal(s.provide_failures_total as nat))
    + counter_text(metric_resolve_attempts(), "Total number of resolve attempts."@, decimal(s.resolve_attempts_total as nat))
    + counter_text(metric_resolve_success(), "Total number of successful resolves."@, decimal(s.resolve_success_total as nat))
    + counter_text(metric_resolve_failures(), "Total number of failed resolves."@, decimal(s.resolve_failures_total as nat))
    + counter_text(metric_cache_hits(), "Total number of resolve cache hits."@, decimal(s.resolve_cache_hits_total as nat))
    + counter_text(metric_cache_misses(), "Total number of resolve cache misses."@, decimal(s.resolve_cache_misses_total as nat))
    + counter_text(metric_factory_executions(), "Total number of provider factory executions."@, decimal(s.factory_executions_total as nat))
    + counter_text(metric_duration_seconds(), "Total time spent resolving services in seconds."@, seconds)
    + counter_text(metric_duration_samples(), "Total number of resolve duration samples recorded."@, decimal(s.resolve_duration_samples_total as nat))
}

/// Appends one counter block whose sample value is already rendered.
fn append_counter_text(output: &mut String, metric_name: &str, help: &str, value: &str)
    ensures
        final(output)@ == old(output)@ + counter_text(metric_name@, help@, value@),
{
    output.append("# HELP ");
    output.append(metric_name);
    output.append(" ");
    output.append(help);
    output.append("\n");
    output.append("# TYPE ");
    output.append(metric_name);
    output.append(" counter\n");
    output.append(metric_name);
    output.append(" ");
    output.append(value);
    output.append("\n");
    proof {
        reveal_strlit("# HELP ");
        reveal_strlit(" ");
        reveal_strlit("\n");
        reveal_strlit("# TYPE ");
        reveal_strlit(" counter\n");
    }
}

/// Appends one integer counter block.
pub fn append_counter(output: &mut String, metric_name: &str, help: &str, value: u64)
    ensures
        final(output)@ == old(output)@ + counter_text(metric_name@, help@, decimal(value as nat)),
{
    let mut text = String::new();
    push_decimal(&mut text, value);
    append_counter_text(output, metric_name, help, text.as_str());
}

impl MetricsSnapshot {
    /// Renders the counters in Prometheus text exposition format.
    /// `resolve_seconds` is the sample of the resolve duration metric: the
    /// nanosecond total divided by 10^9 as a 64-bit float, in the float's
    /// shortest text. Floating point is left to the caller.
    pub fn to_prometheus(self, resolve_seconds: &str) -> (output: String)
        ensures
            output@ == prometheus_text(self, resolve_seconds@),
    {
        let mut output = String::new();
        append_counter(&mut output, "fluxdi_provide_attempts_total", "Total number of provider registration attempts.", self.provide_attempts_total);
        append_counter(&mut output, "fluxdi_provide_success_total", "Total number of successful provider registrations.", self.provide_success_total);
        append_counter(&mut output, "fluxdi_provide_failures_total", "Total number of failed provider registrations.", self.provide_failures_total);
        append_counter(&mut output, "fluxdi_resolve_attempts_total", "Total number of resolve attempts.", self.resolve_attempts_total);
        append_counter(&mut output, "fluxdi_resolve_success_total", "Total number of successful resolves.", self.resolve_success_total);
        append_counter(&mut output, "fluxdi_resolve_failures_total", "Total number of failed resolves.", self.resolve_failures_total);
        append_counter(&mut output, "fluxdi_resolve_cache_hits_total", "Total number of resolve cache hits.", self.resolve_cache_hits_total);
        append_counter(&mut output, "fluxdi_resolve_cache_misses_total", "Total number of resolve cache misses.", self.resolve_cache_misses_total);
        append_counter(&mut output, "fluxdi_factory_executions_total", "Total number of provider factory executions.", self.factory_executions_total);
        append_counter_text(&mut output, "fluxdi_resolve_duration_seconds_total", "Total time spent resolving services in seconds.", resolve_seconds);
        append_counter(&mut output, "fluxdi_resolve_duration_samples_total", "Total number of resolve duration samples recorded.", self.resolve_duration_samples_total);
        proof {
            assert(output@ =~= prometheus_text(self, resolve_seconds@));
        }
        output
    }
}

/// The nanosecond count stored for an elapsed time: saturated at `u64::MAX`.
pub open spec fn saturated_nanos(nanos: u128) -> u64 {
    if nanos > u64::MAX as u128 { u64::MAX } else { nanos as u64 }
}

/// Saturates an elapsed time in nanoseconds to the counter width.
pub fn duration_to_nanos_u64(nanos: u128) -> (r: u64)
    ensures
        r == saturated_nanos(nanos),
{
    if nanos > u64::MAX as u128 { u64::MAX } else { nanos as u64 }
}

/// Live metric counters of an injector tree. Every counter wraps around
/// at 2^64 as an atomic `fetch_add` does.
pub struct MetricsState {
    counters: MetricsSnapshot,
}

impl MetricsState {
    /// The current counter values.
    pub closed spec fn view_counters(&self) -> MetricsSnapshot {
        self.counters
    }

    /// All counters at zero.
    pub fn new() -> (r: Self)
        ensures
            r.view_counters() == zero_snapshot(),
    {
        MetricsState { counters: MetricsSnapshot::zero() }
    }

    pub fn record_provide_attempt(&mut self)
        ensures
            final(self).view_counters() == old(self).view_counters().count_provide_attempt(),
    {
        self.counters.provide_attempts_total = self.counters.provide_attempts_total.wrapping_add(1);
    }

    pub fn record_provide_success(&mut self)
        ensures
            final(self).view_counters() == old(self).view_counters().count_provide_success(),
    {
        self.counters.provide_success_total = self.counters.provide_success_total.wrapping_add(1);
    }

    pub fn record_provide_failure(&mut self)
        ensures
            final(self).view_counters() == old(self).view_counters().count_provide_failure(),
    {
        self.counters.provide_failures_total = self.counters.provide_failures_total.wrapping_add(1);
    }

    pub fn record_resolve_attempt(&mut self)
        ensures
            final(self).view_counters() == old(self).view_counters().count_resolve_attempt(),
    {
        self.counters.resolve_attempts_total = self.counters.resolve_attempts_total.wrapping_add(1);
    }

    /// Counts a successful resolve and adds its duration.
    pub fn record_resolve_success(&mut self, elapsed_nanos: u128)
        ensures
            final(self).view_counters() == old(self).view_counters().count_resolve_success(elapsed_nanos),
    {
        self.counters.resolve_success_total = self.counters.resolve_success_total.wrapping_add(1);
        let ns = duration_to_nanos_u64(elapsed_nanos);
        self.counters.resolve_duration_ns_total = self.counters.resolve_duration_ns_total.wrapping_add(ns);
        self.counters.resolve_duration_samples_total = self.counters.resolve_duration_samples_total.wrapping_add(1);
    }

    /// Counts a failed resolve and adds its duration.
    pub fn record_resolve_failure(&mut self, elapsed_nanos: u128)
        ensures
            final(self).view_counters() == old(self).view_counters().count_resolve_failure(elapsed_nanos),
    {
        self.counters.resolve_failures_total = self.counters.resolve_failures_total.wrapping_add(1);
        let ns = duration_to_nanos_u64(elapsed_nanos);
        self.counters.resolve_duration_ns_total = self.counters.resolve_duration_ns_total.wrapping_add(ns);
        self.counters.resolve_duration_samples_total = self.counters.resolve_duration_samples_total.wrapping_add(1);
    }

    pub fn record_resolve_cache_hit(&mut self)
        ensures
            final(self).view_counters() == old(self).view_counters().count_cache_hit(),
    {
        self.counters.resolve_cache_hits_total = self.counters.resolve_cache_hits_total.wrapping_add(1);
    }

    pub fn record_resolve_cache_miss(&mut self)
        ensures
            final(self).view_counters() == old(self).view_counters().count_cache_miss(),
    {
        self.counters.resolve_cache_misses_total = self.counters.resolve_cache_misses_total.wrapping_add(1);
    }

    pub fn record_factory_execution(&mut self)
        ensures
            final(self).view_counters() == old(self).view_counters().count_factory_execution(),
    {
        self.counters.factory_executions_total = self.counters.factory_executions_total.wrapping_add(1);
    }

    /// A copy of the current counters.
    pub fn snapshot(&self) -> (r: MetricsSnapshot)
        ensures
            r == self.view_counters(),
    {
        self.counters
    }

    /// The current counters in Prometheus text exposition format, with
    /// `resolve_seconds` as the duration sample (see
    /// [`MetricsSnapshot::to_prometheus`]).
    pub fn to_prometheus(&self, resolve_seconds: &str) -> (output: String)
        ensures
            output@ == prometheus_text(self.view_counters(), resolve_seconds@),
    {
        self.snapshot().to_prometheus(resolve_seconds)
    }
}

} // verus!
