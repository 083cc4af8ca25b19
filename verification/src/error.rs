//! Error model of the container: a coarse error category and a
//! human-readable message. Each constructor fixes the category and the exact
//! message text, so that callers can match on the kind and read the message.
use vstd::prelude::*;
use vstd::string::*;
use crate::text::{decimal, join, lemma_join_push, push_decimal};

verus! {

/// Error categories for the container.
#[derive(Clone, Copy, Debug, PartialEq, Eq, Structural)]
pub enum ErrorKind {
    /// Service provider not found for the requested type.
    ServiceNotProvided,
    /// Type mismatch during downcast or resolution.
    TypeMismatch,
    /// A provider is already registered for this type.
    ProviderAlreadyRegistered,
    /// Circular dependency detected in the resolution chain.
    CircularDependency,
    /// Async provider was resolved through a synchronous resolve method.
    AsyncFactoryRequiresAsyncResolve,
    /// Service creation was denied by configured resource limits.
    ResourceLimitExceeded,
    /// A module lifecycle hook failed.
    ModuleLifecycleFailed,
    /// The declared dependency graph is not valid.
    GraphValidationFailed,
    /// Eager resolution of the provider graph failed.
    EagerResolutionFailed,
}

/// Container error: `kind` for programmatic handling, `message` for people.
#[derive(Clone, Debug)]
pub struct Error {
    pub kind: ErrorKind,
    pub message: String,
}

pub open spec fn service_not_provided_text(service_name: Seq<char>) -> Seq<char> {
    "No provider registered for type: "@ + service_name
        + ". Register it with provide() in Module::configure"@
}

pub open spec fn service_not_provided_for_override_text(service_name: Seq<char>) -> Seq<char> {
    "Cannot override provider for type: "@ + service_name
        + "; nothing is registered yet, call provide() first"@
}

pub open spec fn service_not_provided_named_text(service_name: Seq<char>, name: Seq<char>) -> Seq<char> {
    "No provider registered for type: "@ + service_name + " with name: "@ + name
        + ". Register it with provide_named()"@
}

pub open spec fn type_mismatch_text(service_name: Seq<char>) -> Seq<char> {
    "Type mismatch when resolving: "@ + service_name
}

pub open spec fn provider_already_registered_text(service_name: Seq<char>, scope: Seq<char>) -> Seq<char> {
    "Provider ("@ + scope + " scope) already registered for type: "@ + service_name
        + ". Use override_provider() to replace it"@
}

pub open spec fn provider_already_registered_named_text(
    service_name: Seq<char>,
    name: Seq<char>,
    scope: Seq<char>,
) -> Seq<char> {
    "Provider ("@ + scope + " scope) already registered for type: "@ + service_name
        + " with name: "@ + name
}

pub open spec fn circular_dependency_text(chain: Seq<Seq<char>>) -> Seq<char> {
    "Circular dependency detected: "@ + join(chain, " -> "@)
        + ". Break the cycle by removing one of these dependencies"@
}

pub open spec fn async_factory_requires_async_resolve_text(service_name: Seq<char>) -> Seq<char> {
    "Type "@ + service_name
        + " is registered with an async provider; use try_resolve_async/resolve_async"@
}

pub open spec fn resource_limit_exceeded_text(service_name: Seq<char>, details: Seq<char>) -> Seq<char> {
    "Resource limit exceeded while creating type "@ + service_name + ": "@ + details
}

pub open spec fn module_lifecycle_failed_text(
    module_name: Seq<char>,
    phase: Seq<char>,
    details: Seq<char>,
) -> Seq<char> {
    "Module lifecycle failed: module="@ + module_name + ", phase="@ + phase + ", details="@
        + details
}

pub open spec fn graph_validation_failed_text(details: Seq<char>) -> Seq<char> {
    "Dependency graph validation failed: "@ + details
        + ". Inspect dependency_graph() for the declared edges"@
}

/// The messages of a list of errors.
pub open spec fn messages(errors: Seq<Error>) -> Seq<Seq<char>> {
    errors.map_values(|e: Error| e.message@)
}

/// The message that reports the module failures `texts` of `stage` together.
pub open spec fn aggregate_message(stage: Seq<char>, texts: Seq<Seq<char>>) -> Seq<char> {
    stage + " failed: "@ + decimal(texts.len()) + " module(s) reported errors: "@
        + join(texts, "; "@)
}

pub open spec fn aggregate_text(stage: Seq<char>, errors: Seq<Error>) -> Seq<char> {
    aggregate_message(stage, messages(errors))
}

/// Appends `parts` joined by `sep`; shared by every joined message.
fn push_joined_strs(out: &mut String, parts: &[&str], sep: &str)
    ensures
        final(out)@ == old(out)@ + join(parts@.map_values(|s: &str| s@), sep@),
{
    let ghost start = out@;
    let ghost all = parts@.map_values(|s: &str| s@);
    let mut i: usize = 0;
    while i < parts.len()
        invariant
            0 <= i <= parts@.len(),
            all == parts@.map_values(|s: &str| s@),
            out@ == start + join(all.take(i as int), sep@),
        decreases parts@.len() - i,
    {
        proof {
            assert(all.take(i + 1) =~= all.take(i as int).push(all[i as int]));
            lemma_join_push(all.take(i as int), sep@, all[i as int]);
        }
        if i > 0 {
            out.append(sep);
        }
        out.append(parts[i]);
        i = i + 1;
    }
    assert(all.take(parts@.len() as int) =~= all);
}

/// Appends the messages of `errors` joined by `sep`.
pub(crate) fn push_joined_messages(out: &mut String, errors: &Vec<Error>, sep: &str)
    ensures
        final(out)@ == old(out)@ + join(messages(errors@), sep@),
{
    let ghost start = out@;
    let ghost all = messages(errors@);
    let mut i: usize = 0;
    while i < errors.len()
        invariant
            0 <= i <= errors@.len(),
            all == messages(errors@),
            out@ == start + join(all.take(i as int), sep@),
        decreases errors@.len() - i,
    {
        proof {
            assert(all.take(i + 1) =~= all.take(i as int).push(all[i as int]));
            lemma_join_push(all.take(i as int), sep@, all[i as int]);
        }
        if i > 0 {
            out.append(sep);
        }
        out.append(errors[i].message.as_str());
        i = i + 1;
    }
    assert(all.take(errors@.len() as int) =~= all);
}

impl Error {
    /// Creates an error with the given kind and message.
    pub fn new(kind: ErrorKind, message: String) -> (e: Self)
        ensures
            e.kind == kind,
            e.message@ == message@,
    {
        Error { kind, message }
    }

    /// No provider is registered for the requested type.
    pub fn service_not_provided(service_name: &str) -> (e: Self)
        ensures
            e.kind == ErrorKind::ServiceNotProvided,
            e.message@ == service_not_provided_text(service_name@),
    {
        let mut m = String::new();
        m.append("No provider registered for type: ");
        m.append(service_name);
        m.append(". Register it with provide() in Module::configure");
        Self::new(ErrorKind::ServiceNotProvided, m)
    }

    /// An override was requested for a type that has no provider yet.
    pub fn service_not_provided_for_override(service_name: &str) -> (e: Self)
        ensures
            e.kind == ErrorKind::ServiceNotProvided,
            e.message@ == service_not_provided_for_override_text(service_name@),
    {
        let mut m = String::new();
        m.append("Cannot override provider for type: ");
        m.append(service_name);
        m.append("; nothing is registered yet, call provide() first");
        Self::new(ErrorKind::ServiceNotProvided, m)
    }

    /// No provider is registered for the requested type under `name`.
    pub fn service_not_provided_named(service_name: &str, name: &str) -> (e: Self)
        ensures
            e.kind == ErrorKind::ServiceNotProvided,
            e.message@ == service_not_provided_named_text(service_name@, name@),
    {
        let mut m = String::new();
        m.append("No provider registered for type: ");
        m.append(service_name);
        m.append(" with name: ");
        m.append(name);
        m.append(". Register it with provide_named()");
        Self::new(ErrorKind::ServiceNotProvided, m)
    }

    /// A stored value does not have the requested type.
    pub fn type_mismatch(service_name: &str) -> (e: Self)
        ensures
            e.kind == ErrorKind::TypeMismatch,
            e.message@ == type_mismatch_text(service_name@),
    {
        let mut m = String::new();
        m.append("Type mismatch when resolving: ");
        m.append(service_name);
        Self::new(ErrorKind::TypeMismatch, m)
    }

    /// A provider is already registered for this type.
    pub fn provider_already_registered(service_name: &str, scope: &str) -> (e: Self)
        ensures
            e.kind == ErrorKind::ProviderAlreadyRegistered,
            e.message@ == provider_already_registered_text(service_name@, scope@),
    {
        let mut m = String::new();
        m.append("Provider (");
        m.append(scope);
        m.append(" scope) already registered for type: ");
        m.append(service_name);
        m.append(". Use override_provider() to replace it");
        Self::new(ErrorKind::ProviderAlreadyRegistered, m)
    }

    /// A provider is already registered for this type under `name`.
    pub fn provider_already_registered_named(service_name: &str, name: &str, scope: &str) -> (e: Self)
        ensures
            e.kind == ErrorKind::ProviderAlreadyRegistered,
            e.message@ == provider_already_registered_named_text(service_name@, name@, scope@),
    {
        let mut m = String::new();
        m.append("Provider (");
        m.append(scope);
        m.append(" scope) already registered for type: ");
        m.append(service_name);
        m.append(" with name: ");
        m.append(name);
        Self::new(ErrorKind::ProviderAlreadyRegistered, m)
    }

    /// A circular dependency was found; `dependency_chain` lists it in order.
    pub fn circular_dependency(dependency_chain: &[&str]) -> (e: Self)
        ensures
            e.kind == ErrorKind::CircularDependency,
            e.message@ == circular_dependency_text(
                dependency_chain@.map_values(|s: &str| s@),
            ),
    {
        let mut m = String::new();
        m.append("Circular dependency detected: ");
        push_joined_strs(&mut m, dependency_chain, " -> ");
        m.append(". Break the cycle by removing one of these dependencies");
        Self::new(ErrorKind::CircularDependency, m)
    }

    /// An async provider was reached through a synchronous resolve.
    pub fn async_factory_requires_async_resolve(service_name: &str) -> (e: Self)
        ensures
            e.kind == ErrorKind::AsyncFactoryRequiresAsyncResolve,
            e.message@ == async_factory_requires_async_resolve_text(service_name@),
    {
        let mut m = String::new();
        m.append("Type ");
        m.append(service_name);
        m.append(" is registered with an async provider; use try_resolve_async/resolve_async");
        Self::new(ErrorKind::AsyncFactoryRequiresAsyncResolve, m)
    }

    /// Creating a service was denied by its resource limits.
    pub fn resource_limit_exceeded(service_name: &str, details: &str) -> (e: Self)
        ensures
            e.kind == ErrorKind::ResourceLimitExceeded,
            e.message@ == resource_limit_exceeded_text(service_name@, details@),
    {
        let mut m = String::new();
        m.append("Resource limit exceeded while creating type ");
        m.append(service_name);
        m.append(": ");
        m.append(details);
        Self::new(ErrorKind::ResourceLimitExceeded, m)
    }

    /// A module lifecycle hook failed in the given phase.
    pub fn module_lifecycle_failed(module_name: &str, phase: &str, details: &str) -> (e: Self)
        ensures
            e.kind == ErrorKind::ModuleLifecycleFailed,
            e.message@ == module_lifecycle_failed_text(module_name@, phase@, details@),
    {
        let mut m = String::new();
        m.append("Module lifecycle failed: module=");
        m.append(module_name);
        m.append(", phase=");
        m.append(phase);
        m.append(", details=");
        m.append(details);
        Self::new(ErrorKind::ModuleLifecycleFailed, m)
    }

    /// The declared dependency graph is invalid.
    pub fn graph_validation_failed(details: &str) -> (e: Self)
        ensures
            e.kind == ErrorKind::GraphValidationFailed,
            e.message@ == graph_validation_failed_text(details@),
    {
        let mut m = String::new();
        m.append("Dependency graph validation failed: ");
        m.append(details);
        m.append(". Inspect dependency_graph() for the declared edges");
        Self::new(ErrorKind::GraphValidationFailed, m)
    }

    /// One error that reports every module failure of a shutdown.
    pub fn shutdown_aggregate(errors: Vec<Error>) -> (e: Self)
        requires
            errors@.len() <= u64::MAX,
        ensures
            e.kind == ErrorKind::ModuleLifecycleFailed,
            e.message@ == aggregate_text("Shutdown"@, errors@),
    {
        Self::aggregate("Shutdown", &errors)
    }

    /// One error that reports every module failure of a bootstrap.
    pub fn bootstrap_aggregate(errors: Vec<Error>) -> (e: Self)
        requires
            errors@.len() <= u64::MAX,
        ensures
            e.kind == ErrorKind::ModuleLifecycleFailed,
            e.message@ == aggregate_text("Bootstrap"@, errors@),
    {
        Self::aggregate("Bootstrap", &errors)
    }

    fn aggregate(stage: &str, errors: &Vec<Error>) -> (e: Self)
        requires
            errors@.len() <= u64::MAX,
        ensures
            e.kind == ErrorKind::ModuleLifecycleFailed,
            e.message@ == aggregate_text(stage@, errors@),
    {
        let mut m = String::new();
        m.append(stage);
        m.append(" failed: ");
        push_decimal(&mut m, errors.len() as u64);
        m.append(" module(s) reported errors: ");
        push_joined_messages(&mut m, errors, "; ");
        Self::new(ErrorKind::ModuleLifecycleFailed, m)
    }

    /// The text that displaying this error shows: its message.
    pub fn to_display_string(&self) -> (s: String)
        ensures
            s@ == self.message@,
    {
        self.message.clone()
    }

    /// The text that displaying this error shows in builds that also
    /// report the kind: `(Kind) - message`.
    pub fn to_display_string_with_kind(&self) -> (s: String)
        ensures
            s@ == display_with_kind_text(self.kind, self.message@),
    {
        let mut s = String::new();
        s.append("(");
        s.append(kind_name(self.kind));
        s.append(") - ");
        s.append(self.message.as_str());
        s
    }
}

/// The name of an error kind, as its `Debug` form writes it.
pub open spec fn kind_name_text(kind: ErrorKind) -> Seq<char> {
    match kind {
        ErrorKind::ServiceNotProvided => "ServiceNotProvided"@,
        ErrorKind::TypeMismatch => "TypeMismatch"@,
        ErrorKind::ProviderAlreadyRegistered => "ProviderAlreadyRegistered"@,
        ErrorKind::CircularDependency => "CircularDependency"@,
        ErrorKind::AsyncFactoryRequiresAsyncResolve => "AsyncFactoryRequiresAsyncResolve"@,
        ErrorKind::ResourceLimitExceeded => "ResourceLimitExceeded"@,
        ErrorKind::ModuleLifecycleFailed => "ModuleLifecycleFailed"@,
        ErrorKind::GraphValidationFailed => "GraphValidationFailed"@,
        ErrorKind::EagerResolutionFailed => "EagerResolutionFailed"@,
    }
}

pub open spec fn display_with_kind_text(kind: ErrorKind, message: Seq<char>) -> Seq<char> {
    "("@ + kind_name_text(kind) + ") - "@ + message
}

/// The name of an error kind.
pub fn kind_name(kind: ErrorKind) -> (r: &'static str)
    ensures
        r@ == kind_name_text(kind),
{
    match kind {
        ErrorKind::ServiceNotProvided => "ServiceNotProvided",
        ErrorKind::TypeMismatch => "TypeMismatch",
        ErrorKind::ProviderAlreadyRegistered => "ProviderAlreadyRegistered",
        ErrorKind::CircularDependency => "CircularDependency",
        ErrorKind::AsyncFactoryRequiresAsyncResolve => "AsyncFactoryRequiresAsyncResolve",
        ErrorKind::ResourceLimitExceeded => "ResourceLimitExceeded",
        ErrorKind::ModuleLifecycleFailed => "ModuleLifecycleFailed",
        ErrorKind::GraphValidationFailed => "GraphValidationFailed",
        ErrorKind::EagerResolutionFailed => "EagerResolutionFailed",
    }
}

} // verus!
