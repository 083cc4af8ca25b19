use fluxdi::registry::{ProviderConfig, Registry, ResolveMode, ResolveStep, ServiceKey};
use fluxdi::scope::Scope;
use fluxdi::ErrorKind;

fn config(scope: Scope) -> ProviderConfig {
    ProviderConfig { scope, is_async: false, max_concurrent_creations: None }
}

#[test]
fn root_provider_is_created_once_and_cached_at_the_root() {
    let mut r = Registry::root();
    let id = r.try_provide(0, 1, config(Scope::Root), "Db").unwrap();
    assert_eq!(id, 0);
    let child = r.child(0);
    assert_eq!(child, 1);
    let key = ServiceKey::of_type(1);
    let step = r.begin_resolve(child, &key, "Db", ResolveMode::Sync).unwrap();
    match step {
        ResolveStep::Create { provider, cache_at } => {
            assert_eq!(provider.provider_id, 0);
            assert_eq!(cache_at, Some(0));
        }
        _ => panic!("expected a creation"),
    }
    r.finish_resolve(&key, step, 500);
    assert_eq!(r.begin_resolve(0, &key, "Db", ResolveMode::Sync).unwrap(), ResolveStep::Cached { instance: 500 });
    assert_eq!(r.begin_resolve(child, &key, "Db", ResolveMode::Sync).unwrap(), ResolveStep::Cached { instance: 500 });
    assert_eq!(r.find_instance(child, &key), Some(500));
}

#[test]
fn duplicate_registration_is_refused() {
    let mut r = Registry::root();
    r.try_provide(0, 1, config(Scope::Transient), "Foo").unwrap();
    let e = r.try_provide(0, 1, config(Scope::Transient), "Foo").unwrap_err();
    assert!(e.kind == ErrorKind::ProviderAlreadyRegistered);
    assert_eq!(e.message, "Provider (transient scope) already registered for type: Foo. Use override_provider() to replace it");
    let s = r.metrics_snapshot();
    assert_eq!(s.provide_attempts_total, 2);
    assert_eq!(s.provide_success_total, 1);
    assert_eq!(s.provide_failures_total, 1);
}

#[test]
fn missing_services_are_reported() {
    let mut r = Registry::root();
    let e = r.begin_resolve(0, &ServiceKey::of_type(9), "Missing", ResolveMode::Sync).unwrap_err();
    assert!(e.kind == ErrorKind::ServiceNotProvided);
    assert_eq!(e.message, "No provider registered for type: Missing. Register it with provide() in Module::configure");
    let e = r.begin_resolve(0, &ServiceKey::named(9, "primary"), "Missing", ResolveMode::Sync).unwrap_err();
    assert_eq!(e.message, "No provider registered for type: Missing with name: primary. Register it with provide_named()");
}

#[test]
fn child_bindings_are_invisible_to_the_parent() {
    let mut r = Registry::root();
    let child = r.child(0);
    r.try_provide(child, 3, config(Scope::Module), "Local").unwrap();
    assert!(r.find_provider(0, &ServiceKey::of_type(3)).is_none());
    assert!(r.find_provider(child, &ServiceKey::of_type(3)).is_some());
    let grandchild = r.child(child);
    let key = ServiceKey::of_type(3);
    match r.begin_resolve(grandchild, &key, "Local", ResolveMode::Sync).unwrap() {
        ResolveStep::Create { cache_at, .. } => assert_eq!(cache_at, Some(grandchild)),
        _ => panic!("expected a creation"),
    }
}

#[test]
fn transient_instances_are_never_cached() {
    let mut r = Registry::root();
    r.try_provide(0, 4, config(Scope::Transient), "T").unwrap();
    let key = ServiceKey::of_type(4);
    let step = r.begin_resolve(0, &key, "T", ResolveMode::Sync).unwrap();
    assert!(matches!(step, ResolveStep::Create { cache_at: None, .. }));
    r.finish_resolve(&key, step, 1);
    let again = r.begin_resolve(0, &key, "T", ResolveMode::Sync).unwrap();
    assert!(matches!(again, ResolveStep::Create { .. }));
}

#[test]
fn async_providers_need_an_async_resolve() {
    let mut r = Registry::root();
    let cfg = ProviderConfig { scope: Scope::Root, is_async: true, max_concurrent_creations: None };
    r.try_provide(0, 5, cfg, "AsyncType").unwrap();
    let key = ServiceKey::of_type(5);
    let e = r.begin_resolve(0, &key, "AsyncType", ResolveMode::Sync).unwrap_err();
    assert!(e.kind == ErrorKind::AsyncFactoryRequiresAsyncResolve);
    assert_eq!(e.message, "Type AsyncType is registered with an async provider; use try_resolve_async/resolve_async");
    assert!(r.begin_resolve(0, &key, "AsyncType", ResolveMode::Async).is_ok());
}

#[test]
fn creation_limit_is_enforced_until_a_creation_finishes() {
    let mut r = Registry::root();
    let cfg = ProviderConfig { scope: Scope::Transient, is_async: false, max_concurrent_creations: Some(1) };
    r.try_provide(0, 6, cfg, "DbPool").unwrap();
    let key = ServiceKey::of_type(6);
    let first = r.begin_resolve(0, &key, "DbPool", ResolveMode::Sync).unwrap();
    let e = r.begin_resolve(0, &key, "DbPool", ResolveMode::Sync).unwrap_err();
    assert!(e.kind == ErrorKind::ResourceLimitExceeded);
    assert_eq!(e.message, "Resource limit exceeded while creating type DbPool: max_concurrent_creations=1");
    r.finish_resolve(&key, first, 0);
    assert!(r.begin_resolve(0, &key, "DbPool", ResolveMode::Sync).is_ok());
}

#[test]
fn override_replaces_the_binding_and_drops_its_instance() {
    let mut r = Registry::root();
    let e = r.try_override_provider(0, 7, config(Scope::Root), "Cfg").unwrap_err();
    assert!(e.kind == ErrorKind::ServiceNotProvided);
    assert!(e.message.contains("override"));
    let first = r.try_provide(0, 7, config(Scope::Root), "Cfg").unwrap();
    let key = ServiceKey::of_type(7);
    let step = r.begin_resolve(0, &key, "Cfg", ResolveMode::Sync).unwrap();
    r.finish_resolve(&key, step, 70);
    assert_eq!(r.find_instance(0, &key), Some(70));
    let second = r.try_override_provider(0, 7, config(Scope::Root), "Cfg").unwrap();
    assert_ne!(first, second);
    assert_eq!(r.find_instance(0, &key), None);
    match r.begin_resolve(0, &key, "Cfg", ResolveMode::Sync).unwrap() {
        ResolveStep::Create { provider, .. } => assert_eq!(provider.provider_id, second),
        _ => panic!("expected a creation"),
    }
}

#[test]
fn named_bindings_are_separate_from_the_unnamed_one() {
    let mut r = Registry::root();
    r.try_provide_named(0, 8, "primary", config(Scope::Root), "Db").unwrap();
    assert!(r.find_provider(0, &ServiceKey::of_type(8)).is_none());
    assert!(r.find_provider(0, &ServiceKey::named(8, "primary")).is_some());
    let e = r.try_provide_named(0, 8, "primary", config(Scope::Root), "Db").unwrap_err();
    assert_eq!(e.message, "Provider (root scope) already registered for type: Db with name: primary");
}

#[test]
fn set_providers_are_collected_parent_first() {
    let mut r = Registry::root();
    let child = r.child(0);
    let a = r.try_provide_into_set(0, 10, config(Scope::Transient)).unwrap();
    let b = r.try_provide_into_set(child, 10, config(Scope::Transient)).unwrap();
    let c = r.try_provide_into_set(0, 10, config(Scope::Transient)).unwrap();
    let ids: Vec<u64> = r.resolve_set_providers(child, 10, "Plugin").unwrap().iter().map(|p| p.provider_id).collect();
    assert_eq!(ids, vec![a, c, b]);
    let e = r.resolve_set_providers(0, 11, "Nothing").unwrap_err();
    assert!(e.kind == ErrorKind::ServiceNotProvided);
}

#[test]
fn set_items_of_root_scope_are_cached() {
    let mut r = Registry::root();
    r.try_provide_into_set(0, 12, config(Scope::Root)).unwrap();
    let providers = r.resolve_set_providers(0, 12, "Plugin").unwrap();
    let step = r.begin_set_item(0, providers[0], "Plugin", ResolveMode::Sync).unwrap();
    r.finish_set_item(step, 33);
    assert_eq!(r.begin_set_item(0, providers[0], "Plugin", ResolveMode::Sync).unwrap(), ResolveStep::Cached { instance: 33 });
}

#[test]
fn resolve_metrics_are_rendered() {
    let mut r = Registry::root();
    r.record_resolve_attempt();
    r.record_resolve_outcome(true, 2_000_000_000);
    let s = r.metrics_snapshot();
    assert_eq!(s.resolve_attempts_total, 1);
    assert_eq!(s.resolve_success_total, 1);
    assert!(r.prometheus_metrics(&(2_000_000_000u64 as f64 / 1_000_000_000.0).to_string()).contains("fluxdi_resolve_duration_seconds_total 2\n"));
    assert_eq!(r.root_injector(0), 0);
    assert_eq!(r.len(), 1);
    assert_eq!(r.next_provider_id(), 0);
}

#[test]
fn scoped_instances_are_isolated_between_sibling_scopes() {
    let mut r = Registry::root();
    r.try_provide(0, 13, config(Scope::Scoped), "RequestContext").unwrap();
    let scope_a = r.child(0);
    let scope_b = r.child(0);
    let key = ServiceKey::of_type(13);
    let step = r.begin_resolve(scope_a, &key, "RequestContext", ResolveMode::Sync).unwrap();
    assert!(matches!(step, ResolveStep::Create { cache_at: Some(n), .. } if n == scope_a));
    r.finish_resolve(&key, step, 1);
    assert_eq!(r.begin_resolve(scope_a, &key, "RequestContext", ResolveMode::Sync).unwrap(), ResolveStep::Cached { instance: 1 });
    assert!(matches!(
        r.begin_resolve(scope_b, &key, "RequestContext", ResolveMode::Sync).unwrap(),
        ResolveStep::Create { cache_at: Some(n), .. } if n == scope_b
    ));
    assert_eq!(r.find_instance(0, &key), None);
    assert_eq!(r.parent(scope_b), Some(0));
    assert_eq!(r.parent(0), None);
}

#[test]
fn paths_run_from_the_root_down() {
    let mut r = Registry::root();
    let a = r.child(0);
    let b = r.child(a);
    let c = r.child(0);
    assert_eq!(r.path_from_root(b), vec![0, a, b]);
    assert_eq!(r.path_from_root(c), vec![0, c]);
    assert_eq!(r.path_from_root(0), vec![0]);
}
