//! Provider lifetimes and the injector that caches each kind of instance.
use vstd::prelude::*;

verus! {

/// How long a resolved instance lives.
#[derive(Clone, Copy, Debug, PartialEq, Eq, Structural)]
pub enum Scope {
    /// One instance for the whole injector tree, cached at the root.
    Root,
    /// One instance per module injector, cached where it is resolved.
    Module,
    /// One instance per scoped injector, cached where it is resolved.
    Scoped,
    /// A new instance for every resolve; never cached.
    Transient,
}

/// The lowercase name of a scope, as error messages show it.
pub open spec fn scope_label_text(scope: Scope) -> Seq<char> {
    match scope {
        Scope::Root => "root"@,
        Scope::Module => "module"@,
        Scope::Scoped => "scoped"@,
        Scope::Transient => "transient"@,
    }
}

/// The lowercase name of a scope.
pub fn scope_label(scope: Scope) -> (r: &'static str)
    ensures
        r@ == scope_label_text(scope),
{
    match scope {
        Scope::Root => "root",
        Scope::Module => "module",
        Scope::Scoped => "scoped",
        Scope::Transient => "transient",
    }
}

/// The injector that caches instances of a scope resolved at `node` in a
/// tree whose root is node 0; none for transient instances.
pub open spec fn cache_target(scope: Scope, node: int) -> Option<int> {
    match scope {
        Scope::Root => Some(0),
        Scope::Module => Some(node),
        Scope::Scoped => Some(node),
        Scope::Transient => None,
    }
}

/// The injector that receives a registration of this scope made at `node`.
pub open spec fn registration_target(scope: Scope, node: int) -> int {
    match scope {
        Scope::Root => 0,
        _ => node,
    }
}

/// Executable form of [`cache_target`].
pub fn cache_target_for_scope(scope: Scope, node: usize) -> (r: Option<usize>)
    ensures
        match r {
            Some(t) => cache_target(scope, node as int) == Some(t as int),
            None => cache_target(scope, node as int) is None,
        },
{
    match scope {
        Scope::Root => Some(0),
        Scope::Module => Some(node),
        Scope::Scoped => Some(node),
        Scope::Transient => None,
    }
}

/// Executable form of [`registration_target`].
pub fn registration_node(scope: Scope, node: usize) -> (r: usize)
    ensures
        r as int == registration_target(scope, node as int),
        r == if scope == Scope::Root { 0 } else { node },
{
    match scope {
        Scope::Root => 0,
        _ => node,
    }
}

/// Only root-scoped registrations leave the injector they are made at:
/// a root-scoped provider is bound at the root, every other one (module,
/// scoped, transient) at the registering injector itself.
pub proof fn lemma_registration_stays_local(scope: Scope, node: int)
    ensures
        scope == Scope::Root ==> registration_target(scope, node) == 0,
        scope != Scope::Root ==> registration_target(scope, node) == node,
{
}

} // verus!
