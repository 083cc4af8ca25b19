use fluxdi::lifecycle::{
    bootstrap_timed_out, shutdown_order, shutdown_result, stop_timed_out_details, Bootstrap,
    LifecycleAction, LifecycleEvent,
};
use fluxdi::ErrorKind;

fn imports(bootstrap: &mut Bootstrap, injector: usize, names: &[&str]) -> LifecycleAction {
    let event = LifecycleEvent::ImportsFound {
        injector,
        import_names: names.iter().map(|s| s.to_string()).collect(),
    };
    assert!(bootstrap.accepts_event(&event));
    bootstrap.step(event)
}

fn ok(bootstrap: &mut Bootstrap, event: LifecycleEvent) -> LifecycleAction {
    assert!(bootstrap.accepts_event(&event));
    bootstrap.step(event)
}

fn discover(a: &LifecycleAction) -> (usize, usize) {
    match a {
        LifecycleAction::DiscoverImports { module, parent_injector } => (*module, *parent_injector),
        _ => panic!("expected DiscoverImports"),
    }
}

fn configure(a: &LifecycleAction) -> (usize, usize) {
    match a {
        LifecycleAction::Configure { module, injector } => (*module, *injector),
        _ => panic!("expected Configure"),
    }
}

fn start(a: &LifecycleAction) -> (usize, usize) {
    match a {
        LifecycleAction::Start { module, injector } => (*module, *injector),
        _ => panic!("expected Start"),
    }
}

fn stop(a: &LifecycleAction) -> (usize, usize) {
    match a {
        LifecycleAction::Stop { module, injector } => (*module, *injector),
        _ => panic!("expected Stop"),
    }
}

/// App imports Db and Web; Web imports Cache.
fn walk_to_first_start(parallel: bool) -> Bootstrap {
    let (mut b, a) = Bootstrap::new("App", 0, parallel);
    assert_eq!(discover(&a), (0, 0));
    let a = imports(&mut b, 1, &["Db", "Web"]);
    assert_eq!(discover(&a), (1, 1));
    assert_eq!(b.module_name(1), "Db");
    assert_eq!(b.module_name(2), "Web");
    let a = imports(&mut b, 2, &[]);
    assert_eq!(configure(&a), (1, 2));
    b
}

#[test]
fn sequential_bootstrap_configures_and_starts_imports_first() {
    let mut b = walk_to_first_start(false);
    let a = ok(&mut b, LifecycleEvent::Configured { failure: None });
    assert_eq!(start(&a), (1, 2));
    let a = ok(&mut b, LifecycleEvent::Started { failure: None });
    assert_eq!(discover(&a), (2, 1));
    let a = imports(&mut b, 3, &["Cache"]);
    assert_eq!(discover(&a), (3, 3));
    assert_eq!(b.discovered(), 4);
    let a = imports(&mut b, 4, &[]);
    assert_eq!(configure(&a), (3, 4));
    let a = ok(&mut b, LifecycleEvent::Configured { failure: None });
    assert_eq!(start(&a), (3, 4));
    let a = ok(&mut b, LifecycleEvent::Started { failure: None });
    assert_eq!(configure(&a), (2, 3));
    let a = ok(&mut b, LifecycleEvent::Configured { failure: None });
    assert_eq!(start(&a), (2, 3));
    let a = ok(&mut b, LifecycleEvent::Started { failure: None });
    assert_eq!(configure(&a), (0, 1));
    let a = ok(&mut b, LifecycleEvent::Configured { failure: None });
    assert_eq!(start(&a), (0, 1));
    let a = ok(&mut b, LifecycleEvent::Started { failure: None });
    assert!(matches!(a, LifecycleAction::Finished));
    assert_eq!(b.started_modules(), vec![(1, 2), (3, 4), (2, 3), (0, 1)]);
    assert!(!b.accepts_event(&LifecycleEvent::Stopped));
}

#[test]
fn sequential_start_failure_stops_started_modules_in_reverse() {
    let mut b = walk_to_first_start(false);
    ok(&mut b, LifecycleEvent::Configured { failure: None });
    ok(&mut b, LifecycleEvent::Started { failure: None });
    imports(&mut b, 3, &["Cache"]);
    imports(&mut b, 4, &[]);
    ok(&mut b, LifecycleEvent::Configured { failure: None });
    ok(&mut b, LifecycleEvent::Started { failure: None });
    let a = ok(&mut b, LifecycleEvent::Configured { failure: None });
    assert_eq!(start(&a), (2, 3));
    let a = ok(&mut b, LifecycleEvent::Started { failure: Some("bind failed".to_string()) });
    assert_eq!(stop(&a), (3, 4));
    let a = ok(&mut b, LifecycleEvent::Stopped);
    assert_eq!(stop(&a), (1, 2));
    let a = ok(&mut b, LifecycleEvent::Stopped);
    match a {
        LifecycleAction::Failed { error } => {
            assert!(error.kind == ErrorKind::ModuleLifecycleFailed);
            assert_eq!(error.message, "Module lifecycle failed: module=Web, phase=on_start, details=bind failed");
        }
        _ => panic!("expected Failed"),
    }
}

#[test]
fn configure_failure_fails_without_stopping() {
    let mut b = walk_to_first_start(false);
    let a = ok(&mut b, LifecycleEvent::Configured { failure: Some("bad config".to_string()) });
    match a {
        LifecycleAction::Failed { error } => {
            assert!(error.kind == ErrorKind::ModuleLifecycleFailed);
            assert_eq!(error.message, "Module lifecycle failed: module=Db, phase=configure, details=bad config");
        }
        _ => panic!("expected Failed"),
    }
    assert!(!b.accepts_event(&LifecycleEvent::Stopped));
}

#[test]
fn first_start_failure_has_nothing_to_roll_back() {
    let mut b = walk_to_first_start(false);
    ok(&mut b, LifecycleEvent::Configured { failure: None });
    let a = ok(&mut b, LifecycleEvent::Started { failure: Some("x".to_string()) });
    match a {
        LifecycleAction::Failed { error } => {
            assert_eq!(error.message, "Module lifecycle failed: module=Db, phase=on_start, details=x");
        }
        _ => panic!("expected Failed"),
    }
}

#[test]
fn parallel_bootstrap_configures_all_then_starts_together() {
    let mut b = walk_to_first_start(true);
    let a = ok(&mut b, LifecycleEvent::Configured { failure: None });
    assert_eq!(discover(&a), (2, 1));
    imports(&mut b, 3, &["Cache"]);
    let a = imports(&mut b, 4, &[]);
    assert_eq!(configure(&a), (3, 4));
    let a = ok(&mut b, LifecycleEvent::Configured { failure: None });
    assert_eq!(configure(&a), (2, 3));
    let a = ok(&mut b, LifecycleEvent::Configured { failure: None });
    assert_eq!(configure(&a), (0, 1));
    let a = ok(&mut b, LifecycleEvent::Configured { failure: None });
    match a {
        LifecycleAction::StartAll { modules } => assert_eq!(modules, vec![(1, 2), (3, 4), (2, 3), (0, 1)]),
        _ => panic!("expected StartAll"),
    }
    assert!(!b.accepts_event(&LifecycleEvent::AllStarted { failures: vec![None] }));
    let a = ok(&mut b, LifecycleEvent::AllStarted { failures: vec![None, None, None, None] });
    assert!(matches!(a, LifecycleAction::Finished));
    assert_eq!(b.started_modules(), vec![(1, 2), (3, 4), (2, 3), (0, 1)]);
}

#[test]
fn parallel_start_failures_are_aggregated_and_successes_rolled_back() {
    let (mut b, _) = Bootstrap::new("App", 7, true);
    let a = imports(&mut b, 8, &["A", "B"]);
    assert_eq!(discover(&a), (1, 8));
    let a = imports(&mut b, 9, &[]);
    assert_eq!(configure(&a), (1, 9));
    let a = ok(&mut b, LifecycleEvent::Configured { failure: None });
    assert_eq!(discover(&a), (2, 8));
    let a = imports(&mut b, 10, &[]);
    assert_eq!(configure(&a), (2, 10));
    let a = ok(&mut b, LifecycleEvent::Configured { failure: None });
    assert_eq!(configure(&a), (0, 8));
    let a = ok(&mut b, LifecycleEvent::Configured { failure: None });
    assert!(matches!(a, LifecycleAction::StartAll { .. }));
    let a = ok(
        &mut b,
        LifecycleEvent::AllStarted {
            failures: vec![None, Some("down".to_string()), Some("late".to_string())],
        },
    );
    assert_eq!(stop(&a), (1, 9));
    let a = ok(&mut b, LifecycleEvent::Stopped);
    match a {
        LifecycleAction::Failed { error } => {
            assert!(error.kind == ErrorKind::ModuleLifecycleFailed);
            assert_eq!(
                error.message,
                "Bootstrap failed: 2 module(s) reported errors: Module lifecycle failed: module=B, phase=on_start, details=down; Module lifecycle failed: module=App, phase=on_start, details=late"
            );
        }
        _ => panic!("expected Failed"),
    }
}

#[test]
fn wrong_answers_are_not_accepted() {
    let (b, _) = Bootstrap::new("App", 0, false);
    assert!(!b.accepts_event(&LifecycleEvent::Configured { failure: None }));
    assert!(!b.accepts_event(&LifecycleEvent::Started { failure: None }));
    assert!(!b.accepts_event(&LifecycleEvent::Stopped));
    assert!(b.accepts_event(&LifecycleEvent::ImportsFound { injector: 1, import_names: vec![] }));
}

#[test]
fn single_module_bootstrap() {
    let (mut b, a) = Bootstrap::new("Solo", 3, false);
    assert_eq!(discover(&a), (0, 3));
    let a = imports(&mut b, 4, &[]);
    assert_eq!(configure(&a), (0, 4));
    let a = ok(&mut b, LifecycleEvent::Configured { failure: None });
    assert_eq!(start(&a), (0, 4));
    let a = ok(&mut b, LifecycleEvent::Started { failure: None });
    assert!(matches!(a, LifecycleAction::Finished));
    assert_eq!(b.started_modules(), vec![(0, 4)]);
}

#[test]
fn shutdown_stops_in_reverse_start_order() {
    assert_eq!(shutdown_order(&vec![(1, 2), (3, 4), (0, 1)]), vec![(0, 1), (3, 4), (1, 2)]);
    assert_eq!(shutdown_order(&vec![]), Vec::<(usize, usize)>::new());
}

#[test]
fn shutdown_reports_every_failure() {
    let names = vec!["Web".to_string(), "Db".to_string(), "App".to_string()];
    let r = shutdown_result(&names, &vec![None, None, None]);
    assert!(r.is_ok());
    let r = shutdown_result(&names, &vec![Some("a".to_string()), None, Some("c".to_string())]);
    let e = r.unwrap_err();
    assert!(e.kind == ErrorKind::ModuleLifecycleFailed);
    assert!(e.message.contains("2 module(s) reported errors"));
    assert_eq!(
        e.message,
        "Shutdown failed: 2 module(s) reported errors: Module lifecycle failed: module=Web, phase=on_stop, details=a; Module lifecycle failed: module=App, phase=on_stop, details=c"
    );
}

#[test]
fn timeout_texts() {
    let e = bootstrap_timed_out("5s");
    assert!(e.kind == ErrorKind::ModuleLifecycleFailed);
    assert_eq!(e.message, "bootstrap timed out after 5s");
    assert_eq!(stop_timed_out_details("10ms"), "timed out during shutdown (limit: 10ms)");
}
