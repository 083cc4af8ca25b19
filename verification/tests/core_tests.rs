use fluxdi::application::{BootstrapOptions, ShutdownOptions};
use fluxdi::axum::{retry_async, Resolved};
use fluxdi::eager::{after_wave, dynamic_node_id, named_node_id, single_node_id, wave_failure, WaveStep};
use fluxdi::graph::topological_waves;
use fluxdi::observability::{append_counter, duration_to_nanos_u64, MetricsSnapshot, MetricsState};
use fluxdi::resolve_guard::ResolveStack;
use fluxdi::scope::{cache_target_for_scope, registration_node, scope_label, Scope};
use fluxdi::{Error, ErrorKind, Shared};
use std::time::Duration;

#[test]
fn waves_follow_dependencies_and_are_sorted() {
    // 0 depends on 1 and 2, 1 depends on 2, 3 is independent, 2 depends on an unknown node 9.
    let deps = vec![vec![1, 2], vec![2], vec![9], vec![]];
    let waves = topological_waves(&deps).unwrap();
    assert_eq!(waves, vec![vec![2, 3], vec![1], vec![0]]);
}

#[test]
fn waves_of_an_empty_graph() {
    let waves = topological_waves(&vec![]).unwrap();
    assert!(waves.is_empty());
}

#[test]
fn waves_report_a_cycle() {
    let deps = vec![vec![1], vec![0], vec![]];
    let e = topological_waves(&deps).unwrap_err();
    assert!(e.kind == ErrorKind::GraphValidationFailed);
    assert!(e.message.contains("circular dependency detected during eager resolution"));
    let self_loop = topological_waves(&vec![vec![0]]).unwrap_err();
    assert!(self_loop.kind == ErrorKind::GraphValidationFailed);
}

#[test]
fn waves_with_duplicate_dependencies() {
    let deps = vec![vec![1, 1], vec![]];
    assert_eq!(topological_waves(&deps).unwrap(), vec![vec![1], vec![0]]);
}

#[test]
fn resolve_stack_reports_the_cycle_from_its_first_entry() {
    let mut stack = ResolveStack::new();
    assert!(stack.push(1, "A").is_ok());
    assert!(stack.push(2, "B").is_ok());
    assert!(stack.push(3, "C").is_ok());
    assert_eq!(stack.depth(), 3);
    let e = stack.push(2, "B").unwrap_err();
    assert!(e.kind == ErrorKind::CircularDependency);
    assert_eq!(
        e.message,
        "Circular dependency detected: B -> C -> B. Break the cycle by removing one of these dependencies"
    );
    assert_eq!(stack.depth(), 3);
    stack.pop();
    stack.pop();
    assert!(stack.push(3, "C").is_ok());
    assert_eq!(stack.depth(), 2);
}

#[test]
fn scope_labels_and_cache_targets() {
    assert_eq!(scope_label(Scope::Root), "root");
    assert_eq!(scope_label(Scope::Module), "module");
    assert_eq!(scope_label(Scope::Scoped), "scoped");
    assert_eq!(scope_label(Scope::Transient), "transient");
    assert_eq!(cache_target_for_scope(Scope::Root, 5), Some(0));
    assert_eq!(cache_target_for_scope(Scope::Module, 5), Some(5));
    assert_eq!(cache_target_for_scope(Scope::Scoped, 5), Some(5));
    assert_eq!(cache_target_for_scope(Scope::Transient, 5), None);
}

#[test]
fn prometheus_rendering_of_a_snapshot() {
    let mut s = MetricsSnapshot::zero();
    s.resolve_attempts_total = 3;
    s.resolve_duration_ns_total = 1_500_000_000;
    let text = s.to_prometheus(&(1_500_000_000u64 as f64 / 1_000_000_000.0).to_string());
    assert!(text.starts_with(
        "# HELP fluxdi_provide_attempts_total Total number of provider registration attempts.\n# TYPE fluxdi_provide_attempts_total counter\nfluxdi_provide_attempts_total 0\n"
    ));
    assert!(text.contains("fluxdi_resolve_attempts_total 3\n"));
    assert!(text.contains("fluxdi_resolve_duration_seconds_total 1.5\n"));
    assert!(text.ends_with("fluxdi_resolve_duration_samples_total 0\n"));
    assert_eq!(text.lines().count(), 33);
}

#[test]
fn one_counter_block() {
    let mut out = String::from("x\n");
    append_counter(&mut out, "m_total", "Help text.", 42);
    assert_eq!(out, "x\n# HELP m_total Help text.\n# TYPE m_total counter\nm_total 42\n");
}

#[test]
fn metrics_state_counts_and_wraps() {
    let mut m = MetricsState::new();
    m.record_provide_attempt();
    m.record_provide_success();
    m.record_provide_attempt();
    m.record_provide_failure();
    m.record_resolve_attempt();
    m.record_resolve_cache_miss();
    m.record_factory_execution();
    m.record_resolve_success(250);
    m.record_resolve_attempt();
    m.record_resolve_cache_hit();
    m.record_resolve_failure(u128::MAX);
    let s = m.snapshot();
    assert_eq!(s.provide_attempts_total, 2);
    assert_eq!(s.provide_success_total, 1);
    assert_eq!(s.provide_failures_total, 1);
    assert_eq!(s.resolve_attempts_total, 2);
    assert_eq!(s.resolve_success_total, 1);
    assert_eq!(s.resolve_failures_total, 1);
    assert_eq!(s.resolve_cache_hits_total, 1);
    assert_eq!(s.resolve_cache_misses_total, 1);
    assert_eq!(s.factory_executions_total, 1);
    assert_eq!(s.resolve_duration_samples_total, 2);
    assert_eq!(s.resolve_duration_ns_total, 249);
    assert_eq!(m.to_prometheus("x"), s.to_prometheus("x"));
    assert!(s.to_prometheus("x").contains("fluxdi_resolve_duration_seconds_total x\n"));
    let d = MetricsSnapshot::default();
    assert_eq!(d.resolve_attempts_total, 0);
}

#[test]
fn durations_saturate() {
    assert_eq!(duration_to_nanos_u64(5), 5);
    assert_eq!(duration_to_nanos_u64(u64::MAX as u128), u64::MAX);
    assert_eq!(duration_to_nanos_u64(u64::MAX as u128 + 1), u64::MAX);
}

#[test]
fn eager_node_ids_and_wave_failure() {
    assert_eq!(single_node_id("app::Db"), "single::app::Db");
    assert_eq!(named_node_id("app::Db", "primary"), "named::app::Db::primary");
    assert_eq!(dynamic_node_id("plugin"), "dynamic::plugin");
    let errors = vec![Error::type_mismatch("A"), Error::service_not_provided("B")];
    let e = wave_failure(2, &errors);
    assert!(e.kind == ErrorKind::EagerResolutionFailed);
    assert_eq!(
        e.message,
        "Eager resolution wave 2 failed: Type mismatch when resolving: A; No provider registered for type: B. Register it with provide() in Module::configure"
    );
}

#[test]
fn options_builders() {
    let d = BootstrapOptions::default();
    assert!(d.timeout.is_none());
    assert!(!d.parallel_start);
    let o = BootstrapOptions::default().with_timeout(Duration::from_secs(30)).with_parallel_start(true);
    assert_eq!(o.timeout, Some(Duration::from_secs(30)));
    assert!(o.parallel_start);
    let o2 = o.with_parallel_start(false);
    assert_eq!(o2.timeout, Some(Duration::from_secs(30)));
    assert!(!o2.parallel_start);
    let s = ShutdownOptions::default();
    assert!(s.timeout.is_none());
    assert_eq!(s.with_timeout(Duration::from_millis(10)).timeout, Some(Duration::from_millis(10)));
}

#[test]
fn resolved_hands_out_its_handle() {
    let value = Shared::new(42u32);
    let resolved = Resolved(value.clone());
    let back = resolved.into_shared();
    assert!(Shared::ptr_eq(&back, &value));
    let actix = fluxdi::actix::Resolved(value.clone());
    assert!(Shared::ptr_eq(&actix.into_shared(), &value));
}

#[test]
fn only_async_providers_are_retried_asynchronously() {
    assert!(retry_async(&Error::async_factory_requires_async_resolve("T")));
    assert!(!retry_async(&Error::service_not_provided("T")));
}

#[test]
fn registration_goes_to_the_root_for_root_scope() {
    assert_eq!(registration_node(Scope::Root, 4), 0);
    assert_eq!(registration_node(Scope::Module, 4), 4);
    assert_eq!(registration_node(Scope::Transient, 4), 4);
}

#[test]
fn seconds_sample_is_written_as_given() {
    let mut s = MetricsSnapshot::zero();
    s.resolve_duration_ns_total = u64::MAX;
    let seconds = (u64::MAX as f64 / 1_000_000_000.0).to_string();
    assert_eq!(seconds, "18446744073.709553");
    assert!(s.to_prometheus(&seconds).contains("fluxdi_resolve_duration_seconds_total 18446744073.709553\n"));
}

#[test]
fn waves_stop_at_the_first_failure() {
    assert!(matches!(after_wave(0, 3, &vec![]), WaveStep::RunWave { wave_index: 1 }));
    assert!(matches!(after_wave(2, 3, &vec![]), WaveStep::Done));
    match after_wave(1, 3, &vec![Error::type_mismatch("A"), Error::type_mismatch("B")]) {
        WaveStep::Failed { error } => {
            assert!(error.kind == ErrorKind::EagerResolutionFailed);
            assert_eq!(
                error.message,
                "Eager resolution wave 1 failed: Type mismatch when resolving: A; Type mismatch when resolving: B"
            );
        }
        _ => panic!("expected a failure"),
    }
}
