//! The provider registry of an injector tree.
//!
//! Injectors form a tree rooted at node 0; every other node has a parent
//! with a smaller index. Each node holds its own provider bindings (keyed by
//! type and optional name), its multi-bindings (sets) and its instance
//! caches. A lookup starts at a node and walks towards the root; the nearest
//! binding wins. The factories and values themselves live with the caller,
//! which names them by the provider ids and instance handles kept here.
use vstd::prelude::*;
use vstd::string::*;
use crate::assoc::{latest, lemma_filter_take, lemma_latest_absent, lemma_latest_at, lemma_latest_filter, lemma_latest_push, lemma_latest_update, other_keys};
use crate::error::{
    Error, ErrorKind, async_factory_requires_async_resolve_text, provider_already_registered_named_text,
    provider_already_registered_text, resource_limit_exceeded_text, service_not_provided_for_override_text,
    service_not_provided_named_text, service_not_provided_text,
};
use crate::observability::{MetricsSnapshot, MetricsState, prometheus_text, zero_snapshot};
use crate::scope::{Scope, cache_target, cache_target_for_scope, registration_target, scope_label, scope_label_text};
use crate::text::{decimal, push_decimal};

verus! {

/// A service identity: the type and, for named bindings, the name.
pub type KeyView = (u64, Option<Seq<char>>);

/// Identifies a binding: a type key and, for named bindings, its name.
pub struct ServiceKey {
    pub type_key: u64,
    pub name: Option<String>,
}

pub open spec fn name_view(name: Option<String>) -> Option<Seq<char>> {
    match name {
        Some(s) => Some(s@),
        None => None,
    }
}

impl View for ServiceKey {
    type V = KeyView;

    open spec fn view(&self) -> KeyView {
        (self.type_key, name_view(self.name))
    }
}

impl ServiceKey {
    /// The unnamed binding of a type.
    pub fn of_type(type_key: u64) -> (r: Self)
        ensures
            r@ == (type_key, None::<Seq<char>>),
    {
        ServiceKey { type_key, name: None }
    }

    /// The binding of a type under a name.
    pub fn named(type_key: u64, name: &str) -> (r: Self)
        ensures
            r@ == (type_key, Some(name@)),
    {
        let mut s = String::new();
        s.append(name);
        ServiceKey { type_key, name: Some(s) }
    }

    /// A copy of this key.
    pub fn copy(&self) -> (r: Self)
        ensures
            r@ == self@,
    {
        match &self.name {
            Some(s) => ServiceKey { type_key: self.type_key, name: Some(s.clone()) },
            None => ServiceKey { type_key: self.type_key, name: None },
        }
    }

    /// Whether two keys name the same binding.
    pub fn same_as(&self, other: &ServiceKey) -> (r: bool)
        ensures
            r == (self@ == other@),
    {
        if self.type_key != other.type_key {
            return false;
        }
        match (&self.name, &other.name) {
            (Some(a), Some(b)) => {
                let same = a.eq(b);
                proof {
                    if !same {
                        assert(name_view(self.name) != name_view(other.name));
                    }
                }
                same
            },
            (None, None) => true,
            _ => false,
        }
    }
}

/// What the registry knows of a provider: its id, scope, whether its
/// factory is async, and how many creations may run at once.
#[derive(Clone, Copy, Debug, PartialEq, Eq, Structural)]
pub struct ProviderInfo {
    pub provider_id: u64,
    pub scope: Scope,
    pub is_async: bool,
    pub max_concurrent_creations: Option<u64>,
}

/// A provider as its author describes it; the registry assigns the id.
#[derive(Clone, Copy, Debug, PartialEq, Eq, Structural)]
pub struct ProviderConfig {
    pub scope: Scope,
    pub is_async: bool,
    pub max_concurrent_creations: Option<u64>,
}

pub open spec fn info_of(config: ProviderConfig, id: u64) -> ProviderInfo {
    ProviderInfo {
        provider_id: id,
        scope: config.scope,
        is_async: config.is_async,
        max_concurrent_creations: config.max_concurrent_creations,
    }
}

/// Whether a resolve may await an async factory.
#[derive(Clone, Copy, Debug, PartialEq, Eq, Structural)]
pub enum ResolveMode {
    Sync,
    Async,
}

/// What a resolve does next: hand out a cached instance, or run the
/// provider's factory and, where `cache_at` names an injector, cache there.
#[derive(Clone, Copy, Debug, PartialEq, Eq, Structural)]
pub enum ResolveStep {
    Cached { instance: u64 },
    Create { provider: ProviderInfo, cache_at: Option<usize> },
}

struct ProviderEntry {
    node: usize,
    key: ServiceKey,
    info: ProviderInfo,
}

struct SetEntry {
    node: usize,
    type_key: u64,
    info: ProviderInfo,
}

struct InstanceEntry {
    node: usize,
    key: ServiceKey,
    instance: u64,
}

struct SetInstanceEntry {
    node: usize,
    provider_id: u64,
    instance: u64,
}

spec fn provider_entry_view(e: ProviderEntry) -> ((int, KeyView), ProviderInfo) {
    ((e.node as int, e.key@), e.info)
}

spec fn set_entry_view(e: SetEntry) -> ((int, u64), ProviderInfo) {
    ((e.node as int, e.type_key), e.info)
}

spec fn instance_entry_view(e: InstanceEntry) -> ((int, KeyView), u64) {
    ((e.node as int, e.key@), e.instance)
}

spec fn set_instance_entry_view(e: SetInstanceEntry) -> ((int, u64), u64) {
    ((e.node as int, e.provider_id), e.instance)
}

/// The registry of one injector tree.
pub struct Registry {
    parents: Vec<Option<usize>>,
    providers: Vec<ProviderEntry>,
    sets: Vec<SetEntry>,
    instances: Vec<InstanceEntry>,
    set_instances: Vec<SetInstanceEntry>,
    in_flight: Vec<(u64, u64)>,
    next_provider_id: u64,
    metrics: MetricsState,
}

/// The providers of a set registered at `node` for `type_key`, in
/// registration order.
pub open spec fn sets_at(t: Seq<((int, u64), ProviderInfo)>, node: int, type_key: u64) -> Seq<ProviderInfo>
    decreases t.len(),
{
    if t.len() == 0 {
        Seq::empty()
    } else {
        let rest = sets_at(t.drop_last(), node, type_key);
        if t.last().0 == (node, type_key) {
            rest.push(t.last().1)
        } else {
            rest
        }
    }
}

/// Entry `i` of a set table lies among the first `m` entries for its node
/// and type.
proof fn lemma_sets_at_contains(t: Seq<((int, u64), ProviderInfo)>, node: int, type_key: u64, i: int, m: int)
    requires
        0 <= i < m <= t.len(),
        t[i].0 == (node, type_key),
    ensures
        sets_at(t.take(m), node, type_key).contains(t[i].1),
        m == t.len() ==> sets_at(t, node, type_key).contains(t[i].1),
    decreases m,
{
    let tm = t.take(m);
    assert(tm.drop_last() =~= t.take(m - 1));
    if i == m - 1 {
        let rest = sets_at(tm.drop_last(), node, type_key);
        assert(sets_at(tm, node, type_key) == rest.push(t[i].1));
        assert(rest.push(t[i].1)[rest.len() as int] == t[i].1);
    } else {
        lemma_sets_at_contains(t, node, type_key, i, m - 1);
        let rest = sets_at(t.take(m - 1), node, type_key);
        let k = choose|k: int| 0 <= k < rest.len() && rest[k] == t[i].1;
        if tm.last().0 == (node, type_key) {
            assert(rest.push(tm.last().1)[k] == t[i].1);
        }
    }
    if m == t.len() {
        assert(tm =~= t);
    }
}

impl Registry {
    /// Parent of each injector node.
    pub closed spec fn parents(&self) -> Seq<Option<usize>> {
        self.parents@
    }

    /// Provider bindings: (node, key) to provider; the latest entry wins.
    pub closed spec fn provider_table(&self) -> Seq<((int, KeyView), ProviderInfo)> {
        self.providers@.map_values(|e: ProviderEntry| provider_entry_view(e))
    }

    /// Set bindings in registration order: (node, type key) and provider.
    pub closed spec fn set_table(&self) -> Seq<((int, u64), ProviderInfo)> {
        self.sets@.map_values(|e: SetEntry| set_entry_view(e))
    }

    /// Cached instances: (node, key) to instance handle; the latest entry wins.
    pub closed spec fn instance_table(&self) -> Seq<((int, KeyView), u64)> {
        self.instances@.map_values(|e: InstanceEntry| instance_entry_view(e))
    }

    /// Cached set items: (node, provider id) to instance handle.
    pub closed spec fn set_instance_table(&self) -> Seq<((int, u64), u64)> {
        self.set_instances@.map_values(|e: SetInstanceEntry| set_instance_entry_view(e))
    }

    /// Creations in progress per provider id; the latest entry wins.
    pub closed spec fn in_flight_table(&self) -> Seq<(u64, u64)> {
        self.in_flight@
    }

    /// The id the next registration receives.
    pub closed spec fn next_id(&self) -> u64 {
        self.next_provider_id
    }

    /// The metric counters.
    pub closed spec fn metrics_view(&self) -> MetricsSnapshot {
        self.metrics.view_counters()
    }

    /// Number of injector nodes.
    pub open spec fn node_count(&self) -> nat {
        self.parents().len()
    }

    /// Node 0 is the root; every other node's parent precedes it.
    pub open spec fn wf(&self) -> bool {
        &&& self.parents().len() >= 1
        &&& self.parents()[0] is None
        &&& forall|i: int|
            1 <= i < self.parents().len() ==> (#[trigger] self.parents()[i]) is Some
                && self.parents()[i].unwrap() < i
    }

    /// The provider bound at `node` itself.
    pub open spec fn local_provider(&self, node: int, key: KeyView) -> Option<ProviderInfo> {
        latest(self.provider_table(), (node, key))
    }

    /// The instance cached at `node` itself.
    pub open spec fn local_instance(&self, node: int, key: KeyView) -> Option<u64> {
        latest(self.instance_table(), (node, key))
    }

    /// The set item cached at `node` for a provider.
    pub open spec fn local_set_instance(&self, node: int, provider_id: u64) -> Option<u64> {
        latest(self.set_instance_table(), (node, provider_id))
    }

    /// Creations of a provider now in progress.
    pub open spec fn in_flight_of(&self, provider_id: u64) -> u64 {
        match latest(self.in_flight_table(), provider_id) {
            Some(c) => c,
            None => 0,
        }
    }

    /// The nearest provider for `key` from `node` towards the root, with the
    /// node that binds it.
    pub open spec fn provider_from(&self, node: int, key: KeyView) -> Option<(int, ProviderInfo)>
        decreases node,
    {
        if !(0 <= node < self.parents().len()) {
            None
        } else {
            match self.local_provider(node, key) {
                Some(info) => Some((node, info)),
                None => match self.parents()[node] {
                    Some(p) => if 0 <= p < node {
                        self.provider_from(p as int, key)
                    } else {
                        None
                    },
                    None => None,
                },
            }
        }
    }

    /// The nearest cached instance for `key` from `node` towards the root.
    pub open spec fn instance_from(&self, node: int, key: KeyView) -> Option<u64>
        decreases node,
    {
        if !(0 <= node < self.parents().len()) {
            None
        } else {
            match self.local_instance(node, key) {
                Some(h) => Some(h),
                None => match self.parents()[node] {
                    Some(p) => if 0 <= p < node {
                        self.instance_from(p as int, key)
                    } else {
                        None
                    },
                    None => None,
                },
            }
        }
    }

    /// The providers of a set visible from `node`: those of its ancestors
    /// first (root first), then its own, each in registration order.
    pub open spec fn set_chain(&self, node: int, type_key: u64) -> Seq<ProviderInfo>
        decreases node,
    {
        if !(0 <= node < self.parents().len()) {
            Seq::empty()
        } else {
            let own = sets_at(self.set_table(), node, type_key);
            match self.parents()[node] {
                Some(p) => if 0 <= p < node {
                    self.set_chain(p as int, type_key) + own
                } else {
                    own
                },
                None => own,
            }
        }
    }

    /// Everything but the metric counters and the in-flight counts is as in `other`.
    pub open spec fn same_bindings(&self, other: &Registry) -> bool {
        &&& self.parents() == other.parents()
        &&& self.provider_table() == other.provider_table()
        &&& self.set_table() == other.set_table()
        &&& self.instance_table() == other.instance_table()
        &&& self.set_instance_table() == other.set_instance_table()
        &&& self.next_id() == other.next_id()
    }

    /// A registry with a single root injector and nothing registered.
    pub fn root() -> (r: Self)
        ensures
            r.wf(),
            r.parents() == seq![None::<usize>],
            r.provider_table() == Seq::<((int, KeyView), ProviderInfo)>::empty(),
            r.set_table() == Seq::<((int, u64), ProviderInfo)>::empty(),
            r.instance_table() == Seq::<((int, KeyView), u64)>::empty(),
            r.set_instance_table() == Seq::<((int, u64), u64)>::empty(),
            r.in_flight_table() == Seq::<(u64, u64)>::empty(),
            r.next_id() == 0,
            r.metrics_view() == zero_snapshot(),
    {
        let mut parents = Vec::new();
        parents.push(None);
        let r = Registry {
            parents,
            providers: Vec::new(),
            sets: Vec::new(),
            instances: Vec::new(),
            set_instances: Vec::new(),
            in_flight: Vec::new(),
            next_provider_id: 0,
            metrics: MetricsState::new(),
        };
        proof {
            assert(r.parents() =~= seq![None::<usize>]);
            assert(r.provider_table() =~= Seq::<((int, KeyView), ProviderInfo)>::empty());
            assert(r.set_table() =~= Seq::<((int, u64), ProviderInfo)>::empty());
            assert(r.instance_table() =~= Seq::<((int, KeyView), u64)>::empty());
            assert(r.set_instance_table() =~= Seq::<((int, u64), u64)>::empty());
        }
        r
    }

    /// Number of injector nodes.
    pub fn len(&self) -> (r: usize)
        ensures
            r == self.node_count(),
    {
        self.parents.len()
    }

    /// The parent of an injector node; none for the root.
    pub fn parent(&self, node: usize) -> (r: Option<usize>)
        requires
            node < self.node_count(),
        ensures
            r == self.parents()[node as int],
    {
        self.parents[node]
    }

    /// The injectors from the root down to `node`, `node` last.
    pub open spec fn root_path(&self, node: int) -> Seq<usize>
        decreases node,
    {
        if !(0 <= node < self.parents().len()) {
            Seq::empty()
        } else {
            match self.parents()[node] {
                Some(p) => if 0 <= p < node {
                    self.root_path(p as int).push(node as usize)
                } else {
                    seq![node as usize]
                },
                None => seq![node as usize],
            }
        }
    }

    /// The injectors from the root down to `node`, `node` last.
    pub fn path_from_root(&self, node: usize) -> (r: Vec<usize>)
        requires
            self.wf(),
            node < self.node_count(),
        ensures
            r@ == self.root_path(node as int),
        decreases node,
    {
        match self.parents[node] {
            Some(p) => {
                proof {
                    assert(self.parents()[node as int] == Some(p));
                    if node == 0 {
                        assert(self.parents()[0] is None);
                    }
                }
                let mut r = self.path_from_root(p);
                r.push(node);
                r
            },
            None => {
                let mut r: Vec<usize> = Vec::new();
                r.push(node);
                proof {
                    assert(r@ =~= seq![node]);
                }
                r
            },
        }
    }

    /// The id the next registered provider receives.
    pub fn next_provider_id(&self) -> (r: u64)
        ensures
            r == self.next_id(),
    {
        self.next_provider_id
    }

    /// Adds a child injector of `parent` and returns its node.
    pub fn child(&mut self, parent: usize) -> (id: usize)
        requires
            old(self).wf(),
            parent < old(self).node_count(),
            old(self).node_count() < usize::MAX,
        ensures
            final(self).wf(),
            id == old(self).node_count(),
            final(self).parents() == old(self).parents().push(Some(parent)),
            final(self).provider_table() == old(self).provider_table(),
            final(self).set_table() == old(self).set_table(),
            final(self).instance_table() == old(self).instance_table(),
            final(self).set_instance_table() == old(self).set_instance_table(),
            final(self).in_flight_table() == old(self).in_flight_table(),
            final(self).next_id() == old(self).next_id(),
            final(self).metrics_view() == old(self).metrics_view(),
    {
        let id = self.parents.len();
        self.parents.push(Some(parent));
        id
    }

    /// The root of the tree that holds `node`.
    pub fn root_injector(&self, node: usize) -> (r: usize)
        requires
            self.wf(),
            node < self.node_count(),
        ensures
            r == 0,
    {
        let mut cur = node;
        loop
            invariant
                self.wf(),
                cur < self.node_count(),
            decreases cur,
        {
            match self.parents[cur] {
                Some(p) => {
                    proof {
                        if cur == 0 {
                            assert(self.parents()[0] is None);
                        }
                        assert(self.parents()[cur as int] == Some(p));
                    }
                    cur = p;
                },
                None => {
                    proof {
                        if cur != 0 {
                            assert(self.parents()[cur as int] is Some);
                        }
                    }
                    return cur;
                },
            }
        }
    }

    /// Position of the latest provider entry for (node, key).
    fn find_local_provider(&self, node: usize, key: &ServiceKey) -> (r: Option<usize>)
        ensures
            match r {
                Some(i) => {
                    &&& i < self.providers@.len()
                    &&& self.provider_table()[i as int].0 == (node as int, key@)
                    &&& self.local_provider(node as int, key@) == Some(self.providers@[i as int].info)
                    &&& forall|j: int| i < j < self.provider_table().len() ==> self.provider_table()[j].0 != (node as int, key@)
                },
                None => self.local_provider(node as int, key@) is None,
            },
    {
        let ghost t = self.provider_table();
        let ghost k = (node as int, key@);
        let mut i = self.providers.len();
        while i > 0
            invariant
                i <= self.providers@.len(),
                t == self.provider_table(),
                k == (node as int, key@),
                forall|j: int| i <= j < t.len() ==> t[j].0 != k,
            decreases i,
        {
            let e = &self.providers[i - 1];
            proof {
                assert(t[i - 1] == provider_entry_view(self.providers@[i - 1]));
            }
            if e.node == node && e.key.same_as(key) {
                proof {
                    lemma_latest_at(t, k, i - 1);
                }
                return Some(i - 1);
            }
            i = i - 1;
        }
        proof {
            lemma_latest_absent(t, k);
        }
        None
    }

    /// Position of the latest instance entry for (node, key).
    fn find_local_instance(&self, node: usize, key: &ServiceKey) -> (r: Option<usize>)
        ensures
            match r {
                Some(i) => {
                    &&& i < self.instances@.len()
                    &&& self.local_instance(node as int, key@) == Some(self.instances@[i as int].instance)
                },
                None => self.local_instance(node as int, key@) is None,
            },
    {
        let ghost t = self.instance_table();
        let ghost k = (node as int, key@);
        let mut i = self.instances.len();
        while i > 0
            invariant
                i <= self.instances@.len(),
                t == self.instance_table(),
                k == (node as int, key@),
                forall|j: int| i <= j < t.len() ==> t[j].0 != k,
            decreases i,
        {
            let e = &self.instances[i - 1];
            proof {
                assert(t[i - 1] == instance_entry_view(self.instances@[i - 1]));
            }
            if e.node == node && e.key.same_as(key) {
                proof {
                    lemma_latest_at(t, k, i - 1);
                }
                return Some(i - 1);
            }
            i = i - 1;
        }
        proof {
            lemma_latest_absent(t, k);
        }
        None
    }

    /// The set item cached at `node` for a provider.
    fn find_local_set_instance(&self, node: usize, provider_id: u64) -> (r: Option<u64>)
        ensures
            r == self.local_set_instance(node as int, provider_id),
    {
        let ghost t = self.set_instance_table();
        let ghost k = (node as int, provider_id);
        let mut i = self.set_instances.len();
        while i > 0
            invariant
                i <= self.set_instances@.len(),
                t == self.set_instance_table(),
                k == (node as int, provider_id),
                forall|j: int| i <= j < t.len() ==> t[j].0 != k,
            decreases i,
        {
            let e = &self.set_instances[i - 1];
            proof {
                assert(t[i - 1] == set_instance_entry_view(self.set_instances@[i - 1]));
            }
            if e.node == node && e.provider_id == provider_id {
                proof {
                    lemma_latest_at(t, k, i - 1);
                }
                return Some(e.instance);
            }
            i = i - 1;
        }
        proof {
            lemma_latest_absent(t, k);
        }
        None
    }

    /// The nearest provider for `key` seen from `node`, with its node.
    pub fn find_provider(&self, node: usize, key: &ServiceKey) -> (r: Option<(usize, ProviderInfo)>)
        requires
            self.wf(),
            node < self.node_count(),
        ensures
            match r {
                Some((n, info)) => self.provider_from(node as int, key@) == Some((n as int, info)),
                None => self.provider_from(node as int, key@) is None,
            },
    {
        let mut cur = node;
        loop
            invariant
                self.wf(),
                cur < self.node_count(),
                self.provider_from(node as int, key@) == self.provider_from(cur as int, key@),
            decreases cur,
        {
            match self.find_local_provider(cur, key) {
                Some(i) => {
                    return Some((cur, self.providers[i].info));
                },
                None => {
                    match self.parents[cur] {
                        Some(p) => {
                            proof {
                                if cur == 0 {
                                    assert(self.parents()[0] is None);
                                }
                                assert(self.parents()[cur as int] == Some(p));
                            }
                            cur = p;
                        },
                        None => {
                            return None;
                        },
                    }
                },
            }
        }
    }

    /// The nearest cached instance for `key` seen from `node`.
    pub fn find_instance(&self, node: usize, key: &ServiceKey) -> (r: Option<u64>)
        requires
            self.wf(),
            node < self.node_count(),
        ensures
            r == self.instance_from(node as int, key@),
    {
        let mut cur = node;
        loop
            invariant
                self.wf(),
                cur < self.node_count(),
                self.instance_from(node as int, key@) == self.instance_from(cur as int, key@),
            decreases cur,
        {
            match self.find_local_instance(cur, key) {
                Some(i) => {
                    return Some(self.instances[i].instance);
                },
                None => {
                    match self.parents[cur] {
                        Some(p) => {
                            proof {
                                if cur == 0 {
                                    assert(self.parents()[0] is None);
                                }
                                assert(self.parents()[cur as int] == Some(p));
                            }
                            cur = p;
                        },
                        None => {
                            return None;
                        },
                    }
                },
            }
        }
    }
}


/// The message of a duplicate registration at a key.
pub open spec fn duplicate_text(service_name: Seq<char>, key: KeyView, scope: Scope) -> Seq<char> {
    match key.1 {
        None => provider_already_registered_text(service_name, scope_label_text(scope)),
        Some(name) => provider_already_registered_named_text(service_name, name, scope_label_text(scope)),
    }
}

/// The message of a resolve for which no provider is bound.
pub open spec fn missing_text(service_name: Seq<char>, key: KeyView) -> Seq<char> {
    match key.1 {
        None => service_not_provided_text(service_name),
        Some(name) => service_not_provided_named_text(service_name, name),
    }
}

impl Registry {
    fn push_provider(&mut self, node: usize, key: ServiceKey, info: ProviderInfo)
        ensures
            final(self).provider_table() == old(self).provider_table().push(((node as int, key@), info)),
            final(self).parents() == old(self).parents(),
            final(self).set_table() == old(self).set_table(),
            final(self).instance_table() == old(self).instance_table(),
            final(self).set_instance_table() == old(self).set_instance_table(),
            final(self).in_flight_table() == old(self).in_flight_table(),
            final(self).next_id() == old(self).next_id(),
            final(self).metrics_view() == old(self).metrics_view(),
    {
        self.providers.push(ProviderEntry { node, key, info });
        proof {
            assert(self.provider_table() =~= old(self).provider_table().push(((node as int, key@), info)));
        }
    }

    fn provide_binding(&mut self, node: usize, key: ServiceKey, config: ProviderConfig, service_name: &str) -> (r: Result<u64, Error>)
        requires
            old(self).wf(),
            node < old(self).node_count(),
            old(self).next_id() < u64::MAX,
        ensures
            final(self).wf(),
            final(self).parents() == old(self).parents(),
            final(self).set_table() == old(self).set_table(),
            final(self).instance_table() == old(self).instance_table(),
            final(self).set_instance_table() == old(self).set_instance_table(),
            final(self).in_flight_table() == old(self).in_flight_table(),
            ({
                let target = registration_target(config.scope, node as int);
                match r {
                    Ok(id) => {
                        &&& old(self).local_provider(target, key@) is None
                        &&& id == old(self).next_id()
                        &&& final(self).next_id() == old(self).next_id() + 1
                        &&& final(self).provider_table() == old(self).provider_table().push(
                            ((target, key@), info_of(config, id)),
                        )
                        &&& final(self).metrics_view() == old(self).metrics_view().count_provide_attempt().count_provide_success()
                    },
                    Err(e) => {
                        &&& old(self).local_provider(target, key@) is Some
                        &&& e.kind == ErrorKind::ProviderAlreadyRegistered
                        &&& e.message@ == duplicate_text(service_name@, key@, config.scope)
                        &&& final(self).next_id() == old(self).next_id()
                        &&& final(self).provider_table() == old(self).provider_table()
                        &&& final(self).metrics_view() == old(self).metrics_view().count_provide_attempt().count_provide_failure()
                    },
                }
            }),
    {
        self.metrics.record_provide_attempt();
        let target = match config.scope {
            Scope::Root => self.root_injector(node),
            _ => node,
        };
        match self.find_local_provider(target, &key) {
            Some(_) => {
                let label = scope_label(config.scope);
                let e = match &key.name {
                    None => Error::provider_already_registered(service_name, label),
                    Some(name) => Error::provider_already_registered_named(service_name, name.as_str(), label),
                };
                self.metrics.record_provide_failure();
                Err(e)
            },
            None => {
                let id = self.next_provider_id;
                let info = ProviderInfo {
                    provider_id: id,
                    scope: config.scope,
                    is_async: config.is_async,
                    max_concurrent_creations: config.max_concurrent_creations,
                };
                self.push_provider(target, key, info);
                self.next_provider_id = id + 1;
                self.metrics.record_provide_success();
                Ok(id)
            },
        }
    }

    /// Registers a provider for a type. A root-scoped provider is bound at
    /// the root, any other at `node`. A binding already present at that
    /// injector is refused; nothing is replaced.
    pub fn try_provide(&mut self, node: usize, type_key: u64, config: ProviderConfig, service_name: &str) -> (r: Result<u64, Error>)
        requires
            old(self).wf(),
            node < old(self).node_count(),
            old(self).next_id() < u64::MAX,
        ensures
            final(self).wf(),
            final(self).parents() == old(self).parents(),
            final(self).set_table() == old(self).set_table(),
            final(self).instance_table() == old(self).instance_table(),
            final(self).set_instance_table() == old(self).set_instance_table(),
            final(self).in_flight_table() == old(self).in_flight_table(),
            ({
                let target = registration_target(config.scope, node as int);
                let key = (type_key, None::<Seq<char>>);
                match r {
                    Ok(id) => {
                        &&& old(self).local_provider(target, key) is None
                        &&& id == old(self).next_id()
                        &&& final(self).next_id() == old(self).next_id() + 1
                        &&& final(self).provider_table() == old(self).provider_table().push(
                            ((target, key), info_of(config, id)),
                        )
                        &&& final(self).metrics_view() == old(self).metrics_view().count_provide_attempt().count_provide_success()
                    },
                    Err(e) => {
                        &&& old(self).local_provider(target, key) is Some
                        &&& e.kind == ErrorKind::ProviderAlreadyRegistered
                        &&& e.message@ == provider_already_registered_text(service_name@, scope_label_text(config.scope))
                        &&& final(self).next_id() == old(self).next_id()
                        &&& final(self).provider_table() == old(self).provider_table()
                        &&& final(self).metrics_view() == old(self).metrics_view().count_provide_attempt().count_provide_failure()
                    },
                }
            }),
            ({
                let home = if config.scope == Scope::Root { 0int } else { node as int };
                let key = (type_key, None::<Seq<char>>);
                &&& r is Ok ==> final(self).provider_table() == old(self).provider_table().push(
                    ((home, key), info_of(config, r->Ok_0)),
                )
                &&& r is Ok ==> old(self).local_provider(home, key) is None
                &&& r is Err ==> old(self).local_provider(home, key) is Some
            }),
    {
        self.provide_binding(node, ServiceKey::of_type(type_key), config, service_name)
    }

    /// Registers a provider for a type under a name; otherwise as [`Registry::try_provide`].
    pub fn try_provide_named(
        &mut self,
        node: usize,
        type_key: u64,
        name: &str,
        config: ProviderConfig,
        service_name: &str,
    ) -> (r: Result<u64, Error>)
        requires
            old(self).wf(),
            node < old(self).node_count(),
            old(self).next_id() < u64::MAX,
        ensures
            final(self).wf(),
            final(self).parents() == old(self).parents(),
            final(self).set_table() == old(self).set_table(),
            final(self).instance_table() == old(self).instance_table(),
            final(self).set_instance_table() == old(self).set_instance_table(),
            final(self).in_flight_table() == old(self).in_flight_table(),
            ({
                let target = registration_target(config.scope, node as int);
                let key = (type_key, Some(name@));
                match r {
                    Ok(id) => {
                        &&& old(self).local_provider(target, key) is None
                        &&& id == old(self).next_id()
                        &&& final(self).next_id() == old(self).next_id() + 1
                        &&& final(self).provider_table() == old(self).provider_table().push(
                            ((target, key), info_of(config, id)),
                        )
                        &&& final(self).metrics_view() == old(self).metrics_view().count_provide_attempt().count_provide_success()
                    },
                    Err(e) => {
                        &&& old(self).local_provider(target, key) is Some
                        &&& e.kind == ErrorKind::ProviderAlreadyRegistered
                        &&& e.message@ == provider_already_registered_named_text(service_name@, name@, scope_label_text(config.scope))
                        &&& final(self).next_id() == old(self).next_id()
                        &&& final(self).provider_table() == old(self).provider_table()
                        &&& final(self).metrics_view() == old(self).metrics_view().count_provide_attempt().count_provide_failure()
                    },
                }
            }),
            ({
                let home = if config.scope == Scope::Root { 0int } else { node as int };
                let key = (type_key, Some(name@));
                &&& r is Ok ==> final(self).provider_table() == old(self).provider_table().push(
                    ((home, key), info_of(config, r->Ok_0)),
                )
                &&& r is Ok ==> old(self).local_provider(home, key) is None
                &&& r is Err ==> old(self).local_provider(home, key) is Some
            }),
    {
        self.provide_binding(node, ServiceKey::named(type_key, name), config, service_name)
    }

    /// Appends a provider to the set of a type. Sets accept any number of
    /// providers, so this never fails.
    pub fn try_provide_into_set(&mut self, node: usize, type_key: u64, config: ProviderConfig) -> (r: Result<u64, Error>)
        requires
            old(self).wf(),
            node < old(self).node_count(),
            old(self).next_id() < u64::MAX,
        ensures
            final(self).wf(),
            final(self).parents() == old(self).parents(),
            final(self).provider_table() == old(self).provider_table(),
            final(self).instance_table() == old(self).instance_table(),
            final(self).set_instance_table() == old(self).set_instance_table(),
            final(self).in_flight_table() == old(self).in_flight_table(),
            r == Ok::<u64, Error>(old(self).next_id()),
            final(self).next_id() == old(self).next_id() + 1,
            final(self).set_table() == old(self).set_table().push(
                ((registration_target(config.scope, node as int), type_key), info_of(config, old(self).next_id())),
            ),
            final(self).metrics_view() == old(self).metrics_view().count_provide_attempt().count_provide_success(),
            final(self).set_table() == old(self).set_table().push(
                ((if config.scope == Scope::Root { 0int } else { node as int }, type_key), info_of(config, old(self).next_id())),
            ),
    {
        self.metrics.record_provide_attempt();
        let target = match config.scope {
            Scope::Root => self.root_injector(node),
            _ => node,
        };
        let id = self.next_provider_id;
        let info = ProviderInfo {
            provider_id: id,
            scope: config.scope,
            is_async: config.is_async,
            max_concurrent_creations: config.max_concurrent_creations,
        };
        self.sets.push(SetEntry { node: target, type_key, info });
        self.next_provider_id = id + 1;
        self.metrics.record_provide_success();
        proof {
            assert(self.set_table() =~= old(self).set_table().push(((target as int, type_key), info)));
        }
        Ok(id)
    }

    /// Removes every cached instance of `key` at `node` itself.
    fn clear_instance_cache(&mut self, node: usize, key: &ServiceKey)
        ensures
            final(self).instance_table() == old(self).instance_table().filter(other_keys((node as int, key@))),
            final(self).parents() == old(self).parents(),
            final(self).provider_table() == old(self).provider_table(),
            final(self).set_table() == old(self).set_table(),
            final(self).set_instance_table() == old(self).set_instance_table(),
            final(self).in_flight_table() == old(self).in_flight_table(),
            final(self).next_id() == old(self).next_id(),
            final(self).metrics_view() == old(self).metrics_view(),
    {
        let ghost t = self.instance_table();
        let ghost f = other_keys::<(int, KeyView), u64>((node as int, key@));
        let mut kept: Vec<InstanceEntry> = Vec::new();
        let mut i: usize = 0;
        while i < self.instances.len()
            invariant
                0 <= i <= self.instances@.len(),
                t == self.instance_table(),
                f == other_keys::<(int, KeyView), u64>((node as int, key@)),
                kept@.map_values(|e: InstanceEntry| instance_entry_view(e)) == t.take(i as int).filter(f),
            decreases self.instances@.len() - i,
        {
            let e = &self.instances[i];
            proof {
                assert(t[i as int] == instance_entry_view(self.instances@[i as int]));
                lemma_filter_take(t, f, i as int);
            }
            if !(e.node == node && e.key.same_as(key)) {
                let ghost before = kept@;
                kept.push(InstanceEntry { node: e.node, key: e.key.copy(), instance: e.instance });
                proof {
                    assert(kept@.map_values(|e: InstanceEntry| instance_entry_view(e)) =~= before.map_values(
                        |e: InstanceEntry| instance_entry_view(e),
                    ).push(t[i as int]));
                }
            }
            i = i + 1;
        }
        proof {
            assert(t.take(t.len() as int) =~= t);
        }
        self.instances = kept;
    }

    /// Replaces the provider bound for a type at the injector the scope
    /// selects, and drops the instance cached there for it. There must be a
    /// binding to replace.
    pub fn try_override_provider(&mut self, node: usize, type_key: u64, config: ProviderConfig, service_name: &str) -> (r: Result<u64, Error>)
        requires
            old(self).wf(),
            node < old(self).node_count(),
            old(self).next_id() < u64::MAX,
        ensures
            final(self).wf(),
            final(self).parents() == old(self).parents(),
            final(self).set_table() == old(self).set_table(),
            final(self).set_instance_table() == old(self).set_instance_table(),
            final(self).in_flight_table() == old(self).in_flight_table(),
            ({
                let target = registration_target(config.scope, node as int);
                let key = (type_key, None::<Seq<char>>);
                match r {
                    Ok(id) => {
                        &&& old(self).local_provider(target, key) is Some
                        &&& id == old(self).next_id()
                        &&& final(self).next_id() == old(self).next_id() + 1
                        &&& final(self).provider_table() == old(self).provider_table().push(
                            ((target, key), info_of(config, id)),
                        )
                        &&& final(self).instance_table() == old(self).instance_table().filter(
                            other_keys((target, key)),
                        )
                        &&& final(self).metrics_view() == old(self).metrics_view().count_provide_attempt().count_provide_success()
                    },
                    Err(e) => {
                        &&& old(self).local_provider(target, key) is None
                        &&& e.kind == ErrorKind::ServiceNotProvided
                        &&& e.message@ == service_not_provided_for_override_text(service_name@)
                        &&& final(self).next_id() == old(self).next_id()
                        &&& final(self).provider_table() == old(self).provider_table()
                        &&& final(self).instance_table() == old(self).instance_table()
                        &&& final(self).metrics_view() == old(self).metrics_view().count_provide_attempt().count_provide_failure()
                    },
                }
            }),
            ({
                let home = if config.scope == Scope::Root { 0int } else { node as int };
                let key = (type_key, None::<Seq<char>>);
                &&& r is Ok ==> final(self).provider_table() == old(self).provider_table().push(
                    ((home, key), info_of(config, r->Ok_0)),
                )
                &&& r is Ok ==> old(self).local_provider(home, key) is Some
                &&& r is Err ==> old(self).local_provider(home, key) is None
            }),
    {
        self.metrics.record_provide_attempt();
        let target = match config.scope {
            Scope::Root => self.root_injector(node),
            _ => node,
        };
        let key = ServiceKey::of_type(type_key);
        match self.find_local_provider(target, &key) {
            None => {
                let e = Error::service_not_provided_for_override(service_name);
                self.metrics.record_provide_failure();
                Err(e)
            },
            Some(_) => {
                let id = self.next_provider_id;
                let info = ProviderInfo {
                    provider_id: id,
                    scope: config.scope,
                    is_async: config.is_async,
                    max_concurrent_creations: config.max_concurrent_creations,
                };
                self.clear_instance_cache(target, &key);
                self.push_provider(target, key, info);
                self.next_provider_id = id + 1;
                self.metrics.record_provide_success();
                Ok(id)
            },
        }
    }
}


/// Detail text of a refused creation.
pub open spec fn limit_details(max: u64) -> Seq<char> {
    "max_concurrent_creations="@ + decimal(max as nat)
}

/// A count one higher, held at `u64::MAX`.
pub open spec fn one_more(c: u64) -> u64 {
    if c < u64::MAX { (c + 1) as u64 } else { c }
}

/// A count one lower, held at zero.
pub open spec fn one_less(c: u64) -> u64 {
    if c > 0 { (c - 1) as u64 } else { 0 }
}

/// An optional node as an optional integer.
pub open spec fn node_of(n: Option<usize>) -> Option<int> {
    match n {
        Some(t) => Some(t as int),
        None => None,
    }
}

impl Registry {
    /// Creations of the provider now in progress have reached its limit.
    pub open spec fn at_limit(&self, info: ProviderInfo) -> bool {
        match info.max_concurrent_creations {
            Some(max) => self.in_flight_of(info.provider_id) >= max,
            None => false,
        }
    }

    /// The in-flight counts are those of `other`.
    pub open spec fn same_in_flight(&self, other: &Registry) -> bool {
        forall|id: u64| #[trigger] self.in_flight_of(id) == other.in_flight_of(id)
    }

    /// The in-flight counts are those of `other` but for provider `id`, which is `c`.
    pub open spec fn in_flight_set(&self, other: &Registry, id: u64, c: u64) -> bool {
        forall|id2: u64| #[trigger] self.in_flight_of(id2) == if id2 == id { c } else { other.in_flight_of(id2) }
    }

    fn in_flight_count(&self, id: u64) -> (c: u64)
        ensures
            c == self.in_flight_of(id),
    {
        let ghost t = self.in_flight_table();
        let mut i = self.in_flight.len();
        while i > 0
            invariant
                i <= self.in_flight@.len(),
                t == self.in_flight_table(),
                forall|j: int| i <= j < t.len() ==> t[j].0 != id,
            decreases i,
        {
            if self.in_flight[i - 1].0 == id {
                proof {
                    lemma_latest_at(t, id, i - 1);
                }
                return self.in_flight[i - 1].1;
            }
            i = i - 1;
        }
        proof {
            lemma_latest_absent(t, id);
        }
        0
    }

    fn set_in_flight(&mut self, id: u64, c: u64)
        ensures
            final(self).in_flight_set(old(self), id, c),
            final(self).same_bindings(old(self)),
            final(self).metrics_view() == old(self).metrics_view(),
    {
        let ghost t = self.in_flight_table();
        let mut i = self.in_flight.len();
        while i > 0
            invariant
                i <= self.in_flight@.len(),
                t == self.in_flight_table(),
                self.in_flight@ == old(self).in_flight@,
                self.same_bindings(old(self)),
                self.metrics_view() == old(self).metrics_view(),
                forall|j: int| i <= j < t.len() ==> t[j].0 != id,
            decreases i,
        {
            if self.in_flight[i - 1].0 == id {
                self.in_flight.set(i - 1, (id, c));
                proof {
                    assert forall|id2: u64| #[trigger] self.in_flight_of(id2) == if id2 == id { c } else { old(self).in_flight_of(id2) } by {
                        lemma_latest_update(t, id, i - 1, c, id2);
                    }
                }
                return;
            }
            i = i - 1;
        }
        self.in_flight.push((id, c));
        proof {
            assert forall|id2: u64| #[trigger] self.in_flight_of(id2) == if id2 == id { c } else { old(self).in_flight_of(id2) } by {
                lemma_latest_push(t, (id, c), id2);
            }
        }
    }

    /// Returns a creation permit of a provider.
    fn release_permit(&mut self, id: u64)
        ensures
            final(self).in_flight_set(old(self), id, one_less(old(self).in_flight_of(id))),
            final(self).same_bindings(old(self)),
            final(self).metrics_view() == old(self).metrics_view(),
    {
        let c = self.in_flight_count(id);
        let next = if c > 0 { c - 1 } else { 0 };
        self.set_in_flight(id, next);
    }

    /// Runs the creation checks for a provider: counts the factory
    /// execution, takes a permit, and refuses an async factory to a
    /// synchronous resolve (returning the permit).
    fn begin_creation(&mut self, info: ProviderInfo, service_name: &str, mode: ResolveMode) -> (r: Result<(), Error>)
        ensures
            final(self).same_bindings(old(self)),
            final(self).metrics_view() == old(self).metrics_view().count_factory_execution(),
            match r {
                Ok(()) => {
                    &&& !old(self).at_limit(info)
                    &&& !(mode == ResolveMode::Sync && info.is_async)
                    &&& final(self).in_flight_set(old(self), info.provider_id, one_more(old(self).in_flight_of(info.provider_id)))
                },
                Err(e) => {
                    &&& final(self).same_in_flight(old(self))
                    &&& if old(self).at_limit(info) {
                        &&& e.kind == ErrorKind::ResourceLimitExceeded
                        &&& e.message@ == resource_limit_exceeded_text(service_name@, limit_details(info.max_concurrent_creations.unwrap()))
                    } else {
                        &&& mode == ResolveMode::Sync && info.is_async
                        &&& e.kind == ErrorKind::AsyncFactoryRequiresAsyncResolve
                        &&& e.message@ == async_factory_requires_async_resolve_text(service_name@)
                    }
                },
            },
    {
        self.metrics.record_factory_execution();
        let c = self.in_flight_count(info.provider_id);
        if let Some(max) = info.max_concurrent_creations {
            if c >= max {
                let mut details = String::new();
                details.append("max_concurrent_creations=");
                push_decimal(&mut details, max);
                return Err(Error::resource_limit_exceeded(service_name, details.as_str()));
            }
        }
        if mode == ResolveMode::Sync && info.is_async {
            return Err(Error::async_factory_requires_async_resolve(service_name));
        }
        let next = if c < u64::MAX { c + 1 } else { c };
        self.set_in_flight(info.provider_id, next);
        Ok(())
    }
}


impl Registry {
    /// Decides how a resolve of `key` at `node` proceeds: a cached instance
    /// from the nearest injector that holds one; otherwise the nearest
    /// provider's factory must run, after the creation checks pass, and its
    /// instance is cached where the provider's scope says.
    pub fn begin_resolve(&mut self, node: usize, key: &ServiceKey, service_name: &str, mode: ResolveMode) -> (r: Result<ResolveStep, Error>)
        requires
            old(self).wf(),
            node < old(self).node_count(),
        ensures
            final(self).wf(),
            final(self).same_bindings(old(self)),
            match old(self).instance_from(node as int, key@) {
                Some(h) => {
                    &&& r == Ok::<ResolveStep, Error>(ResolveStep::Cached { instance: h })
                    &&& final(self).metrics_view() == old(self).metrics_view().count_cache_hit()
                    &&& final(self).same_in_flight(old(self))
                },
                None => match old(self).provider_from(node as int, key@) {
                    None => {
                        &&& r is Err
                        &&& r->Err_0.kind == ErrorKind::ServiceNotProvided
                        &&& r->Err_0.message@ == missing_text(service_name@, key@)
                        &&& final(self).metrics_view() == old(self).metrics_view().count_cache_miss()
                        &&& final(self).same_in_flight(old(self))
                    },
                    Some((_, info)) => {
                        &&& final(self).metrics_view() == old(self).metrics_view().count_cache_miss().count_factory_execution()
                        &&& if old(self).at_limit(info) {
                            &&& r is Err
                            &&& r->Err_0.kind == ErrorKind::ResourceLimitExceeded
                            &&& r->Err_0.message@ == resource_limit_exceeded_text(service_name@, limit_details(info.max_concurrent_creations.unwrap()))
                            &&& final(self).same_in_flight(old(self))
                        } else if mode == ResolveMode::Sync && info.is_async {
                            &&& r is Err
                            &&& r->Err_0.kind == ErrorKind::AsyncFactoryRequiresAsyncResolve
                            &&& r->Err_0.message@ == async_factory_requires_async_resolve_text(service_name@)
                            &&& final(self).same_in_flight(old(self))
                        } else {
                            &&& r matches Ok(ResolveStep::Create { provider, cache_at })
                            &&& provider == info
                            &&& node_of(cache_at) == cache_target(info.scope, node as int)
                            &&& final(self).in_flight_set(old(self), info.provider_id, one_more(old(self).in_flight_of(info.provider_id)))
                        }
                    },
                },
            },
            old(self).instance_from(node as int, key@) is None && old(self).provider_from(node as int, key@) is Some ==> {
                let info = old(self).provider_from(node as int, key@)->Some_0.1;
                (r matches Err(e) && e.kind == ErrorKind::ResourceLimitExceeded) <==> (
                info.max_concurrent_creations matches Some(m) && old(self).in_flight_of(info.provider_id) >= m)
            },
    {
        let cached = self.find_instance(node, key);
        let found = self.find_provider(node, key);
        if let Some(h) = cached {
            self.metrics.record_resolve_cache_hit();
            return Ok(ResolveStep::Cached { instance: h });
        }
        self.metrics.record_resolve_cache_miss();
        match found {
            None => {
                let e = match &key.name {
                    None => Error::service_not_provided(service_name),
                    Some(name) => Error::service_not_provided_named(service_name, name.as_str()),
                };
                Err(e)
            },
            Some((_, info)) => {
                match self.begin_creation(info, service_name, mode) {
                    Ok(()) => {
                        let cache_at = cache_target_for_scope(info.scope, node);
                        Ok(ResolveStep::Create { provider: info, cache_at })
                    },
                    Err(e) => Err(e),
                }
            },
        }
    }

    /// Completes a creation planned by [`Registry::begin_resolve`]: returns
    /// the creation permit and caches the new instance where planned.
    pub fn finish_resolve(&mut self, key: &ServiceKey, step: ResolveStep, instance: u64)
        requires
            old(self).wf(),
            step matches ResolveStep::Create { cache_at, .. } ==> match cache_at {
                Some(t) => t < old(self).node_count(),
                None => true,
            },
        ensures
            final(self).wf(),
            final(self).parents() == old(self).parents(),
            final(self).provider_table() == old(self).provider_table(),
            final(self).set_table() == old(self).set_table(),
            final(self).set_instance_table() == old(self).set_instance_table(),
            final(self).next_id() == old(self).next_id(),
            final(self).metrics_view() == old(self).metrics_view(),
            match step {
                ResolveStep::Cached { .. } => {
                    &&& final(self).instance_table() == old(self).instance_table()
                    &&& final(self).same_in_flight(old(self))
                },
                ResolveStep::Create { provider, cache_at } => {
                    &&& final(self).in_flight_set(old(self), provider.provider_id, one_less(old(self).in_flight_of(provider.provider_id)))
                    &&& final(self).instance_table() == match cache_at {
                        Some(t) => old(self).instance_table().push(((t as int, key@), instance)),
                        None => old(self).instance_table(),
                    }
                },
            },
    {
        match step {
            ResolveStep::Cached { .. } => {
                proof {
                    assert forall|id: u64| #[trigger] self.in_flight_of(id) == old(self).in_flight_of(id) by {}
                }
            },
            ResolveStep::Create { provider, cache_at } => {
                self.release_permit(provider.provider_id);
                let ghost mid = *self;
                if let Some(t) = cache_at {
                    self.instances.push(InstanceEntry { node: t, key: key.copy(), instance });
                    proof {
                        assert(self.instance_table() =~= old(self).instance_table().push(((t as int, key@), instance)));
                    }
                }
                proof {
                    assert forall|id2: u64| #[trigger] self.in_flight_of(id2) == mid.in_flight_of(id2) by {}
                }
            },
        }
    }

    /// Appends the set providers registered at `node` itself.
    fn collect_local_sets(&self, node: usize, type_key: u64, out: &mut Vec<ProviderInfo>)
        ensures
            final(out)@ == old(out)@ + sets_at(self.set_table(), node as int, type_key),
    {
        let ghost t = self.set_table();
        let ghost start = out@;
        let mut i: usize = 0;
        while i < self.sets.len()
            invariant
                0 <= i <= self.sets@.len(),
                t == self.set_table(),
                out@ == start + sets_at(t.take(i as int), node as int, type_key),
            decreases self.sets@.len() - i,
        {
            let e = &self.sets[i];
            proof {
                assert(t[i as int] == set_entry_view(self.sets@[i as int]));
                assert(t.take(i + 1).drop_last() =~= t.take(i as int));
            }
            if e.node == node && e.type_key == type_key {
                out.push(e.info);
            }
            i = i + 1;
        }
        proof {
            assert(t.take(t.len() as int) =~= t);
        }
    }

    /// Appends the set providers visible from `node`, root first.
    fn collect_set_providers(&self, node: usize, type_key: u64, out: &mut Vec<ProviderInfo>)
        requires
            self.wf(),
            node < self.node_count(),
        ensures
            final(out)@ == old(out)@ + self.set_chain(node as int, type_key),
        decreases node,
    {
        match self.parents[node] {
            Some(p) => {
                proof {
                    if node == 0 {
                        assert(self.parents()[0] is None);
                    }
                    assert(self.parents()[node as int] == Some(p));
                }
                self.collect_set_providers(p, type_key, out);
                self.collect_local_sets(node, type_key, out);
                proof {
                    assert(self.set_chain(node as int, type_key) == self.set_chain(p as int, type_key) + sets_at(self.set_table(), node as int, type_key));
                }
            },
            None => {
                self.collect_local_sets(node, type_key, out);
            },
        }
    }

    /// The providers of the set of a type visible from `node` (those of the
    /// ancestors first, each in registration order); an error when there
    /// are none.
    pub fn resolve_set_providers(&self, node: usize, type_key: u64, service_name: &str) -> (r: Result<Vec<ProviderInfo>, Error>)
        requires
            self.wf(),
            node < self.node_count(),
        ensures
            match r {
                Ok(v) => v@ == self.set_chain(node as int, type_key) && v@.len() > 0,
                Err(e) => {
                    &&& self.set_chain(node as int, type_key).len() == 0
                    &&& e.kind == ErrorKind::ServiceNotProvided
                    &&& e.message@ == service_not_provided_text(service_name@)
                },
            },
            forall|i: int|
                0 <= i < self.set_table().len() && (#[trigger] self.set_table()[i]).0.1 == type_key
                    && self.on_path(node as int, self.set_table()[i].0.0) ==> (r matches Ok(v) && v@.contains(
                    self.set_table()[i].1,
                )),
    {
        let mut providers: Vec<ProviderInfo> = Vec::new();
        self.collect_set_providers(node, type_key, &mut providers);
        proof {
            assert(providers@ =~= self.set_chain(node as int, type_key));
            assert forall|i: int|
                0 <= i < self.set_table().len() && (#[trigger] self.set_table()[i]).0.1 == type_key
                    && self.on_path(node as int, self.set_table()[i].0.0) implies providers@.contains(self.set_table()[i].1) by {
                Self::lemma_set_chain_contains(self, node as int, type_key, i);
            }
        }
        if providers.len() == 0 {
            return Err(Error::service_not_provided(service_name));
        }
        Ok(providers)
    }

    /// Decides how one item of a set resolve proceeds: the item cached for
    /// its provider at the injector its scope selects, or a creation.
    pub fn begin_set_item(&mut self, node: usize, provider: ProviderInfo, service_name: &str, mode: ResolveMode) -> (r: Result<ResolveStep, Error>)
        requires
            old(self).wf(),
            node < old(self).node_count(),
        ensures
            final(self).wf(),
            final(self).same_bindings(old(self)),
            ({
                let target = cache_target(provider.scope, node as int);
                let cached = match target {
                    Some(t) => old(self).local_set_instance(t, provider.provider_id),
                    None => None,
                };
                let checked = match target {
                    Some(t) => old(self).metrics_view().count_cache_miss(),
                    None => old(self).metrics_view(),
                };
                match cached {
                    Some(h) => {
                        &&& r == Ok::<ResolveStep, Error>(ResolveStep::Cached { instance: h })
                        &&& final(self).metrics_view() == old(self).metrics_view().count_cache_hit()
                        &&& final(self).same_in_flight(old(self))
                    },
                    None => {
                        &&& final(self).metrics_view() == checked.count_factory_execution()
                        &&& if old(self).at_limit(provider) {
                            &&& r is Err
                            &&& r->Err_0.kind == ErrorKind::ResourceLimitExceeded
                            &&& r->Err_0.message@ == resource_limit_exceeded_text(service_name@, limit_details(provider.max_concurrent_creations.unwrap()))
                            &&& final(self).same_in_flight(old(self))
                        } else if mode == ResolveMode::Sync && provider.is_async {
                            &&& r is Err
                            &&& r->Err_0.kind == ErrorKind::AsyncFactoryRequiresAsyncResolve
                            &&& r->Err_0.message@ == async_factory_requires_async_resolve_text(service_name@)
                            &&& final(self).same_in_flight(old(self))
                        } else {
                            &&& r matches Ok(ResolveStep::Create { provider: p, cache_at })
                            &&& p == provider
                            &&& node_of(cache_at) == target
                            &&& final(self).in_flight_set(old(self), provider.provider_id, one_more(old(self).in_flight_of(provider.provider_id)))
                        }
                    },
                }
            }),
            ({
                let cached = match cache_target(provider.scope, node as int) {
                    Some(t) => old(self).local_set_instance(t, provider.provider_id),
                    None => None,
                };
                (r matches Err(e) && e.kind == ErrorKind::ResourceLimitExceeded) <==> (cached is None
                    && (provider.max_concurrent_creations matches Some(m) && old(self).in_flight_of(provider.provider_id) >= m))
            }),
    {
        let target = cache_target_for_scope(provider.scope, node);
        if let Some(t) = target {
            if let Some(h) = self.find_local_set_instance(t, provider.provider_id) {
                self.metrics.record_resolve_cache_hit();
                return Ok(ResolveStep::Cached { instance: h });
            }
            self.metrics.record_resolve_cache_miss();
        }
        match self.begin_creation(provider, service_name, mode) {
            Ok(()) => Ok(ResolveStep::Create { provider, cache_at: target }),
            Err(e) => Err(e),
        }
    }

    /// Completes a set item creation planned by [`Registry::begin_set_item`].
    pub fn finish_set_item(&mut self, step: ResolveStep, instance: u64)
        requires
            old(self).wf(),
        ensures
            final(self).wf(),
            final(self).parents() == old(self).parents(),
            final(self).provider_table() == old(self).provider_table(),
            final(self).set_table() == old(self).set_table(),
            final(self).instance_table() == old(self).instance_table(),
            final(self).next_id() == old(self).next_id(),
            final(self).metrics_view() == old(self).metrics_view(),
            match step {
                ResolveStep::Cached { .. } => {
                    &&& final(self).set_instance_table() == old(self).set_instance_table()
                    &&& final(self).same_in_flight(old(self))
                },
                ResolveStep::Create { provider, cache_at } => {
                    &&& final(self).in_flight_set(old(self), provider.provider_id, one_less(old(self).in_flight_of(provider.provider_id)))
                    &&& final(self).set_instance_table() == match cache_at {
                        Some(t) => old(self).set_instance_table().push(((t as int, provider.provider_id), instance)),
                        None => old(self).set_instance_table(),
                    }
                },
            },
    {
        match step {
            ResolveStep::Cached { .. } => {
                proof {
                    assert forall|id: u64| #[trigger] self.in_flight_of(id) == old(self).in_flight_of(id) by {}
                }
            },
            ResolveStep::Create { provider, cache_at } => {
                self.release_permit(provider.provider_id);
                let ghost mid = *self;
                if let Some(t) = cache_at {
                    self.set_instances.push(SetInstanceEntry { node: t, provider_id: provider.provider_id, instance });
                    proof {
                        assert(self.set_instance_table() =~= old(self).set_instance_table().push(((t as int, provider.provider_id), instance)));
                    }
                }
                proof {
                    assert forall|id2: u64| #[trigger] self.in_flight_of(id2) == mid.in_flight_of(id2) by {}
                }
            },
        }
    }

    /// Counts a resolve attempt.
    pub fn record_resolve_attempt(&mut self)
        ensures
            final(self).same_bindings(old(self)),
            final(self).same_in_flight(old(self)),
            final(self).in_flight_table() == old(self).in_flight_table(),
            final(self).metrics_view() == old(self).metrics_view().count_resolve_attempt(),
    {
        self.metrics.record_resolve_attempt();
    }

    /// Counts the outcome of a resolve and its duration.
    pub fn record_resolve_outcome(&mut self, success: bool, elapsed_nanos: u128)
        ensures
            final(self).same_bindings(old(self)),
            final(self).in_flight_table() == old(self).in_flight_table(),
            final(self).metrics_view() == if success {
                old(self).metrics_view().count_resolve_success(elapsed_nanos)
            } else {
                old(self).metrics_view().count_resolve_failure(elapsed_nanos)
            },
    {
        if success {
            self.metrics.record_resolve_success(elapsed_nanos);
        } else {
            self.metrics.record_resolve_failure(elapsed_nanos);
        }
    }

    /// A snapshot of the metric counters.
    pub fn metrics_snapshot(&self) -> (r: MetricsSnapshot)
        ensures
            r == self.metrics_view(),
    {
        self.metrics.snapshot()
    }

    /// The metric counters in Prometheus text exposition format, with
    /// `resolve_seconds` as the sample of the resolve duration in seconds.
    pub fn prometheus_metrics(&self, resolve_seconds: &str) -> (r: String)
        ensures
            r@ == prometheus_text(self.metrics_view(), resolve_seconds@),
    {
        self.metrics.to_prometheus(resolve_seconds)
    }
}


impl Registry {
    /// Reading back a registration: after a provider is bound at a node, a
    /// lookup from that node finds exactly that provider there.
    pub proof fn lemma_provided_is_found(old_reg: &Registry, new_reg: &Registry, target: int, key: KeyView, info: ProviderInfo)
        requires
            old_reg.wf(),
            0 <= target < old_reg.node_count(),
            new_reg.parents() == old_reg.parents(),
            new_reg.provider_table() == old_reg.provider_table().push(((target, key), info)),
        ensures
            new_reg.provider_from(target, key) == Some((target, info)),
    {
        lemma_latest_push(old_reg.provider_table(), ((target, key), info), (target, key));
    }

    /// Reading back a cache write: after an instance is cached at a node, a
    /// lookup from that node finds exactly that instance.
    pub proof fn lemma_cached_is_found(old_reg: &Registry, new_reg: &Registry, target: int, key: KeyView, instance: u64)
        requires
            old_reg.wf(),
            0 <= target < old_reg.node_count(),
            new_reg.parents() == old_reg.parents(),
            new_reg.instance_table() == old_reg.instance_table().push(((target, key), instance)),
        ensures
            new_reg.instance_from(target, key) == Some(instance),
    {
        lemma_latest_push(old_reg.instance_table(), ((target, key), instance), (target, key));
    }

    /// Reading back a resolve: when no instance is cached on the way from
    /// `node` to the root, caching one at `node` itself or at the root (the
    /// places a resolve caches at) makes every later lookup from `node`
    /// find it, so the next resolve hands out that instance.
    pub proof fn lemma_resolve_reads_back(
        old_reg: &Registry,
        new_reg: &Registry,
        node: int,
        key: KeyView,
        target: int,
        instance: u64,
    )
        requires
            old_reg.wf(),
            0 <= node < old_reg.node_count(),
            target == node || target == 0,
            old_reg.instance_from(node, key) is None,
            new_reg.parents() == old_reg.parents(),
            new_reg.instance_table() == old_reg.instance_table().push(((target, key), instance)),
        ensures
            new_reg.instance_from(node, key) == Some(instance),
        decreases node,
    {
        lemma_latest_push(old_reg.instance_table(), ((target, key), instance), (node, key));
        if node != target {
            let p = old_reg.parents()[node].unwrap() as int;
            assert(old_reg.parents()[node] is Some);
            Self::lemma_resolve_reads_back(old_reg, new_reg, p, key, target, instance);
        }
    }

    /// Node `c` lies on the way from `n` to the root (`n` itself included).
    pub open spec fn on_path(&self, n: int, c: int) -> bool
        decreases n,
    {
        if !(0 <= n < self.parents().len()) {
            false
        } else if n == c {
            true
        } else {
            match self.parents()[n] {
                Some(p) => if 0 <= p < n {
                    self.on_path(p as int, c)
                } else {
                    false
                },
                None => false,
            }
        }
    }

    /// Scopes are isolated: an instance cached at node `c` changes nothing
    /// that a node `n` finds unless `c` lies on the way from `n` to the
    /// root; sibling scopes never see each other's instances.
    pub proof fn lemma_cache_elsewhere_invisible(
        old_reg: &Registry,
        new_reg: &Registry,
        c: int,
        key: KeyView,
        instance: u64,
        n: int,
        k: KeyView,
    )
        requires
            old_reg.wf(),
            new_reg.parents() == old_reg.parents(),
            new_reg.instance_table() == old_reg.instance_table().push(((c, key), instance)),
            !old_reg.on_path(n, c),
        ensures
            new_reg.instance_from(n, k) == old_reg.instance_from(n, k),
        decreases n,
    {
        if 0 <= n < old_reg.node_count() {
            lemma_latest_push(old_reg.instance_table(), ((c, key), instance), (n, k));
            if n > 0 {
                let p = old_reg.parents()[n].unwrap() as int;
                assert(old_reg.parents()[n] is Some);
                Self::lemma_cache_elsewhere_invisible(old_reg, new_reg, c, key, instance, p, k);
            }
        }
    }

    /// Transient instances are never cached: finishing a creation planned
    /// for a transient provider leaves the instance cache as it was.
    pub proof fn lemma_transient_not_cached(
        old_reg: &Registry,
        new_reg: &Registry,
        node: int,
        key: KeyView,
        provider: ProviderInfo,
        cache_at: Option<usize>,
        instance: u64,
    )
        requires
            provider.scope == Scope::Transient,
            node_of(cache_at) == cache_target(provider.scope, node),
            new_reg.instance_table() == match cache_at {
                Some(t) => old_reg.instance_table().push(((t as int, key), instance)),
                None => old_reg.instance_table(),
            },
        ensures
            new_reg.instance_table() == old_reg.instance_table(),
    {
    }

    /// A creation gives its permit back: starting a creation of a provider
    /// and finishing it leaves every provider's count of creations in
    /// progress as it was, so a provider with a limit of `n` can always
    /// have `n` creations running.
    pub proof fn lemma_permit_returned(before: &Registry, started: &Registry, finished: &Registry, id: u64)
        requires
            before.in_flight_of(id) < u64::MAX,
            started.in_flight_set(before, id, one_more(before.in_flight_of(id))),
            finished.in_flight_set(started, id, one_less(started.in_flight_of(id))),
        ensures
            finished.same_in_flight(before),
    {
        assert forall|id2: u64| #[trigger] finished.in_flight_of(id2) == before.in_flight_of(id2) by {
            assert(started.in_flight_of(id2) == if id2 == id { one_more(before.in_flight_of(id)) } else { before.in_flight_of(id2) });
        }
    }

    /// The creation limit does not depend on the scope: a provider with a
    /// limit of `m` is at its limit exactly when `m` or more of its
    /// creations are in progress, and one without a limit never is.
    pub proof fn lemma_limit_ignores_scope(reg: &Registry, info: ProviderInfo)
        ensures
            reg.at_limit(info) <==> (info.max_concurrent_creations matches Some(m) && reg.in_flight_of(info.provider_id) >= m),
    {
    }

    /// A limit of one admits a single creation at a time: once a creation
    /// of the provider has started (its count went up by one from zero) and
    /// until it finishes, the provider is at its limit, whatever its scope.
    pub proof fn lemma_limit_one_blocks_second(before: &Registry, started: &Registry, info: ProviderInfo)
        requires
            info.max_concurrent_creations == Some(1u64),
            before.in_flight_of(info.provider_id) == 0,
            started.in_flight_set(before, info.provider_id, one_more(before.in_flight_of(info.provider_id))),
        ensures
            started.at_limit(info),
    {
        assert(started.in_flight_of(info.provider_id) == 1);
    }

    /// A set registration at node `c` reaches every node below it: its
    /// provider is in the set chain of every node that has `c` on its way to
    /// the root.
    pub proof fn lemma_set_chain_contains(reg: &Registry, n: int, t: u64, i: int)
        requires
            reg.wf(),
            0 <= i < reg.set_table().len(),
            reg.set_table()[i].0.1 == t,
            reg.on_path(n, reg.set_table()[i].0.0),
        ensures
            reg.set_chain(n, t).contains(reg.set_table()[i].1),
        decreases n,
    {
        let c = reg.set_table()[i].0.0;
        let own = sets_at(reg.set_table(), n, t);
        if n == c {
            lemma_sets_at_contains(reg.set_table(), n, t, i, reg.set_table().len() as int);
            assert(own.contains(reg.set_table()[i].1));
            if n > 0 {
                let p = reg.parents()[n].unwrap() as int;
                assert(reg.parents()[n] is Some);
                let whole = reg.set_chain(p, t) + own;
                let k = choose|k: int| 0 <= k < own.len() && own[k] == reg.set_table()[i].1;
                assert(whole[reg.set_chain(p, t).len() + k] == reg.set_table()[i].1);
            }
        } else {
            let p = reg.parents()[n].unwrap() as int;
            assert(reg.parents()[n] is Some);
            Self::lemma_set_chain_contains(reg, p, t, i);
            let before = reg.set_chain(p, t);
            let k = choose|k: int| 0 <= k < before.len() && before[k] == reg.set_table()[i].1;
            assert((before + own)[k] == reg.set_table()[i].1);
        }
    }

    /// A node's set extends its parent's: the providers of every ancestor,
    /// the root's first, then the node's own, in registration order.
    pub proof fn lemma_set_chain_extends_parent(reg: &Registry, n: int, t: u64)
        requires
            reg.wf(),
            1 <= n < reg.node_count(),
        ensures
            reg.set_chain(n, t) == reg.set_chain(reg.parents()[n].unwrap() as int, t) + sets_at(reg.set_table(), n, t),
            reg.set_chain(0, t) == sets_at(reg.set_table(), 0, t),
    {
        assert(reg.parents()[n] is Some);
        assert(reg.parents()[0] is None);
    }

    /// An override takes effect: the new provider is the one bound at the
    /// injector and the instance cached there for the old one is gone.
    pub proof fn lemma_override_replaces(old_reg: &Registry, new_reg: &Registry, target: int, key: KeyView, info: ProviderInfo)
        requires
            old_reg.wf(),
            0 <= target < old_reg.node_count(),
            new_reg.parents() == old_reg.parents(),
            new_reg.provider_table() == old_reg.provider_table().push(((target, key), info)),
            new_reg.instance_table() == old_reg.instance_table().filter(other_keys((target, key))),
        ensures
            new_reg.provider_from(target, key) == Some((target, info)),
            new_reg.local_instance(target, key) is None,
    {
        lemma_latest_push(old_reg.provider_table(), ((target, key), info), (target, key));
        lemma_latest_filter(old_reg.instance_table(), (target, key), (target, key));
    }

    /// Bindings flow down the tree only: a binding added at node `c` does
    /// not change what any node created before `c` (its ancestors among
    /// them) resolves.
    pub proof fn lemma_child_binding_invisible_above(
        old_reg: &Registry,
        new_reg: &Registry,
        c: int,
        key: KeyView,
        info: ProviderInfo,
        n: int,
        k: KeyView,
    )
        requires
            old_reg.wf(),
            new_reg.parents() == old_reg.parents(),
            new_reg.provider_table() == old_reg.provider_table().push(((c, key), info)),
            0 <= n < c,
        ensures
            new_reg.provider_from(n, k) == old_reg.provider_from(n, k),
        decreases n,
    {
        lemma_latest_push(old_reg.provider_table(), ((c, key), info), (n, k));
        if n < old_reg.node_count() && old_reg.local_provider(n, k) is None {
            if let Some(p) = old_reg.parents()[n] {
                if 0 <= p < n {
                    Registry::lemma_child_binding_invisible_above(old_reg, new_reg, c, key, info, p as int, k);
                }
            }
        }
    }

    /// A node without its own binding resolves to what its parent resolves.
    pub proof fn lemma_child_inherits(reg: &Registry, n: int, k: KeyView)
        requires
            reg.wf(),
            1 <= n < reg.node_count(),
            reg.local_provider(n, k) is None,
        ensures
            reg.provider_from(n, k) == reg.provider_from(reg.parents()[n].unwrap() as int, k),
    {
    }
}

} // verus!
