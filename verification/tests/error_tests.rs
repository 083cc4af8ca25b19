use fluxdi::{Error, ErrorKind};

#[test]
fn error_service_not_provided_error() {
    let err = Error::service_not_provided("MyType");
    assert!(err.kind == ErrorKind::ServiceNotProvided);
    assert!(err.message.contains("MyType"));
    assert!(err.message.contains("provider"));
}

#[test]
fn error_type_mismatch_error() {
    let err = Error::type_mismatch("OtherType");
    assert!(err.kind == ErrorKind::TypeMismatch);
    assert!(err.message.contains("OtherType"));
}

#[test]
fn error_provider_already_registered_error() {
    let err = Error::provider_already_registered("Foo", "transient");
    assert!(err.kind == ErrorKind::ProviderAlreadyRegistered);
    assert!(err.message.contains("Foo"));
    assert!(err.message.contains("transient"));
}

#[test]
fn error_circular_dependency_error() {
    let chain = ["A", "B", "A"];
    let err = Error::circular_dependency(&chain);
    assert!(err.kind == ErrorKind::CircularDependency);
    assert!(err.message.contains("A -> B -> A"));
}

#[test]
fn error_async_factory_requires_async_resolve_error() {
    let err = Error::async_factory_requires_async_resolve("AsyncType");
    assert!(err.kind == ErrorKind::AsyncFactoryRequiresAsyncResolve);
    assert!(err.message.contains("AsyncType"));
    assert!(err.message.contains("try_resolve_async"));
}

#[test]
fn error_resource_limit_exceeded_error() {
    let err = Error::resource_limit_exceeded("DbPool", "max_concurrent_creations=1");
    assert!(err.kind == ErrorKind::ResourceLimitExceeded);
    assert!(err.message.contains("DbPool"));
    assert!(err.message.contains("max_concurrent_creations=1"));
}

#[test]
fn error_module_lifecycle_failed_error() {
    let err = Error::module_lifecycle_failed("WebModule", "on_start", "bind failed");
    assert!(err.kind == ErrorKind::ModuleLifecycleFailed);
    assert!(err.message.contains("WebModule"));
    assert!(err.message.contains("on_start"));
    assert!(err.message.contains("bind failed"));
}

#[test]
fn error_display_trait() {
    let err = Error::service_not_provided("X");
    let s = err.to_display_string();
    assert!(s.contains("X"));
}

#[test]
fn error_error_kind_equality() {
    let err1 = Error::type_mismatch("A");
    let err2 = Error::type_mismatch("B");
    assert!(err1.kind == err2.kind);
    assert_ne!(err1.message, err2.message);
}

#[test]
fn tests_service_not_provided_error() {
    let err = Error::service_not_provided("MyType");
    assert!(err.kind == ErrorKind::ServiceNotProvided);
    assert!(err.message.contains("MyType"));
    assert!(err.message.contains("Module::configure"));
}

#[test]
fn service_not_provided_for_override_error() {
    let err = Error::service_not_provided_for_override("MyType");
    assert!(err.kind == ErrorKind::ServiceNotProvided);
    assert!(err.message.contains("override"));
    assert!(err.message.contains("provide"));
}

#[test]
fn service_not_provided_named_error() {
    let err = Error::service_not_provided_named("MyType", "primary");
    assert!(err.kind == ErrorKind::ServiceNotProvided);
    assert!(err.message.contains("MyType"));
    assert!(err.message.contains("primary"));
    assert!(err.message.contains("provide_named"));
}

#[test]
fn tests_type_mismatch_error() {
    let err = Error::type_mismatch("OtherType");
    assert!(err.kind == ErrorKind::TypeMismatch);
    assert!(err.message.contains("OtherType"));
}

#[test]
fn tests_provider_already_registered_error() {
    let err = Error::provider_already_registered("Foo", "transient");
    assert!(err.kind == ErrorKind::ProviderAlreadyRegistered);
    assert!(err.message.contains("Foo"));
    assert!(err.message.contains("transient"));
    assert!(err.message.contains("override_provider"));
}

#[test]
fn provider_already_registered_named_error() {
    let err = Error::provider_already_registered_named("Foo", "primary", "root");
    assert!(err.kind == ErrorKind::ProviderAlreadyRegistered);
    assert!(err.message.contains("Foo"));
    assert!(err.message.contains("primary"));
    assert!(err.message.contains("root"));
}

#[test]
fn tests_circular_dependency_error() {
    let chain = ["A", "B", "A"];
    let err = Error::circular_dependency(&chain);
    assert!(err.kind == ErrorKind::CircularDependency);
    assert!(err.message.contains("A -> B -> A"));
    assert!(err.message.contains("Break the cycle"));
}

#[test]
fn tests_async_factory_requires_async_resolve_error() {
    let err = Error::async_factory_requires_async_resolve("AsyncType");
    assert!(err.kind == ErrorKind::AsyncFactoryRequiresAsyncResolve);
    assert!(err.message.contains("AsyncType"));
    assert!(err.message.contains("try_resolve_async"));
}

#[test]
fn tests_resource_limit_exceeded_error() {
    let err = Error::resource_limit_exceeded("DbPool", "max_concurrent_creations=1");
    assert!(err.kind == ErrorKind::ResourceLimitExceeded);
    assert!(err.message.contains("DbPool"));
    assert!(err.message.contains("max_concurrent_creations=1"));
}

#[test]
fn tests_module_lifecycle_failed_error() {
    let err = Error::module_lifecycle_failed("WebModule", "on_start", "bind failed");
    assert!(err.kind == ErrorKind::ModuleLifecycleFailed);
    assert!(err.message.contains("WebModule"));
    assert!(err.message.contains("on_start"));
    assert!(err.message.contains("bind failed"));
}

#[test]
fn graph_validation_failed_error() {
    let err = Error::graph_validation_failed("missing Foo");
    assert!(err.kind == ErrorKind::GraphValidationFailed);
    assert!(err.message.contains("missing Foo"));
    assert!(err.message.contains("dependency_graph"));
}

#[test]
fn tests_display_trait() {
    let err = Error::service_not_provided("X");
    let s = err.to_display_string();
    assert!(s.contains("X"));
}

#[test]
fn tests_error_kind_equality() {
    let err1 = Error::type_mismatch("A");
    let err2 = Error::type_mismatch("B");
    assert!(err1.kind == err2.kind);
    assert_ne!(err1.message, err2.message);
}

#[test]
fn exact_messages_of_each_constructor() {
    assert_eq!(
        Error::service_not_provided("Db").message,
        "No provider registered for type: Db. Register it with provide() in Module::configure"
    );
    assert_eq!(Error::type_mismatch("Db").message, "Type mismatch when resolving: Db");
    assert_eq!(
        Error::provider_already_registered("Db", "root").message,
        "Provider (root scope) already registered for type: Db. Use override_provider() to replace it"
    );
    assert_eq!(
        Error::circular_dependency(&["A", "B", "A"]).message,
        "Circular dependency detected: A -> B -> A. Break the cycle by removing one of these dependencies"
    );
    assert_eq!(
        Error::resource_limit_exceeded("Pool", "max_concurrent_creations=2").message,
        "Resource limit exceeded while creating type Pool: max_concurrent_creations=2"
    );
    assert_eq!(
        Error::module_lifecycle_failed("Web", "on_stop", "closed").message,
        "Module lifecycle failed: module=Web, phase=on_stop, details=closed"
    );
    let e = Error::new(ErrorKind::TypeMismatch, String::from("custom"));
    assert!(e.kind == ErrorKind::TypeMismatch);
    assert_eq!(e.message, "custom");
}

#[test]
fn circular_dependency_with_single_entry_and_empty_chain() {
    assert_eq!(
        Error::circular_dependency(&["A"]).message,
        "Circular dependency detected: A. Break the cycle by removing one of these dependencies"
    );
    assert_eq!(
        Error::circular_dependency(&[]).message,
        "Circular dependency detected: . Break the cycle by removing one of these dependencies"
    );
}

#[test]
fn aggregated_errors_count_and_join_messages() {
    let errors = vec![
        Error::module_lifecycle_failed("A", "on_stop", "x"),
        Error::module_lifecycle_failed("B", "on_stop", "y"),
    ];
    let e = Error::shutdown_aggregate(errors);
    assert!(e.kind == ErrorKind::ModuleLifecycleFailed);
    assert_eq!(
        e.message,
        "Shutdown failed: 2 module(s) reported errors: Module lifecycle failed: module=A, phase=on_stop, details=x; Module lifecycle failed: module=B, phase=on_stop, details=y"
    );
    let b = Error::bootstrap_aggregate(vec![Error::type_mismatch("T")]);
    assert_eq!(b.message, "Bootstrap failed: 1 module(s) reported errors: Type mismatch when resolving: T");
}

#[test]
fn display_with_kind_puts_the_kind_first() {
    let err = Error::service_not_provided("X");
    let s = err.to_display_string_with_kind();
    assert!(s.contains("ServiceNotProvided"));
    assert!(s.contains("X"));
    assert_eq!(Error::type_mismatch("T").to_display_string_with_kind(), "(TypeMismatch) - Type mismatch when resolving: T");
    assert_eq!(fluxdi::error::kind_name(ErrorKind::EagerResolutionFailed), "EagerResolutionFailed");
}
