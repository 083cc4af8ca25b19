//! Module lifecycle decisions of an application.
//!
//! Bootstrap walks the module tree depth first: a module's imports are
//! loaded before the module itself is configured and started. Sequential
//! bootstrap configures and starts each module in that order; parallel
//! bootstrap configures all of them first and then starts them together.
//! When a start fails, the modules already started are stopped again in
//! reverse order. Shutdown stops the started modules in reverse order,
//! attempts every one of them, and reports all failures together.
//!
//! The machine here decides; its caller runs the module hooks and reports
//! back. Modules are numbered in the order they are discovered, the root
//! being 0.
use vstd::prelude::*;
use vstd::string::*;
use crate::error::{Error, ErrorKind, aggregate_message, messages, module_lifecycle_failed_text};

verus! {

/// Work still to do for one module during the depth-first walk.
#[derive(Clone, Copy, Debug, PartialEq, Eq, Structural)]
pub enum Frame {
    /// Create the module's injector under `parent_injector` and list its imports.
    Enter { module: usize, parent_injector: usize },
    /// All imports are loaded: configure and start the module.
    Exit { module: usize, injector: usize },
}

pub open spec fn frame_module(f: Frame) -> usize {
    match f {
        Frame::Enter { module, .. } => module,
        Frame::Exit { module, .. } => module,
    }
}

/// What the caller does next.
pub enum LifecycleAction {
    /// Create a child injector of `parent_injector` for the module and list its imports.
    DiscoverImports { module: usize, parent_injector: usize },
    /// Run the module's configure hook.
    Configure { module: usize, injector: usize },
    /// Run the module's start hook.
    Start { module: usize, injector: usize },
    /// Run the start hooks of all these modules concurrently.
    StartAll { modules: Vec<(usize, usize)> },
    /// Run the module's stop hook (its outcome is not used).
    Stop { module: usize, injector: usize },
    /// Bootstrap succeeded.
    Finished,
    /// Bootstrap failed with this error.
    Failed { error: Error },
}

/// What the caller reports after an action.
pub enum LifecycleEvent {
    /// The module's injector and the names of its imports, in order.
    ImportsFound { injector: usize, import_names: Vec<String> },
    /// The configure hook ran; the failure text when it failed.
    Configured { failure: Option<String> },
    /// The start hook ran; the failure text when it failed.
    Started { failure: Option<String> },
    /// The start hooks ran; one outcome per module of the `StartAll` action.
    AllStarted { failures: Vec<Option<String>> },
    /// The stop hook ran.
    Stopped,
}

#[derive(Clone, Copy, Debug, PartialEq, Eq, Structural)]
enum Awaiting {
    Imports { module: usize, parent_injector: usize },
    Configure { module: usize, injector: usize },
    Start { module: usize, injector: usize },
    StartAll,
    Stop,
    Nothing,
}

/// The action that the work of a frame asks for.
pub open spec fn frame_action(f: Frame) -> LifecycleAction {
    match f {
        Frame::Enter { module, parent_injector } => LifecycleAction::DiscoverImports { module, parent_injector },
        Frame::Exit { module, injector } => LifecycleAction::Configure { module, injector },
    }
}

/// The module ids of a list of (module, injector) pairs.
pub open spec fn mods(s: Seq<(usize, usize)>) -> Seq<usize> {
    s.map_values(|e: (usize, usize)| e.0)
}

/// Module `k` appears in `order` before position `i`.
pub open spec fn earlier(order: Seq<usize>, i: int, k: usize) -> bool {
    exists|j: int| 0 <= j < i && #[trigger] order[j] == k
}

/// Every module in `order` comes after all of its imports.
pub open spec fn imports_first(order: Seq<usize>, imports: Map<usize, Seq<usize>>) -> bool {
    forall|i: int, c: int|
        0 <= i < order.len() && 0 <= c < imports[order[i]].len() ==> #[trigger] earlier(
            order,
            i,
            imports[order[i]][c],
        )
}

/// No module appears twice.
pub open spec fn distinct(s: Seq<usize>) -> bool {
    forall|i: int, j: int| 0 <= i < j < s.len() ==> s[i] != s[j]
}

/// `e` is an answer to the action `a`, handed out by a bootstrap that
/// knows `count` modules: the report of the work `a` asks for. Nothing
/// answers `Finished` or `Failed`.
pub open spec fn answers(a: LifecycleAction, count: nat, e: LifecycleEvent) -> bool {
    match (a, e) {
        (LifecycleAction::DiscoverImports { .. }, LifecycleEvent::ImportsFound { import_names, .. }) => count
            + import_names@.len() <= usize::MAX,
        (LifecycleAction::Configure { .. }, LifecycleEvent::Configured { .. }) => true,
        (LifecycleAction::Start { .. }, LifecycleEvent::Started { .. }) => true,
        (LifecycleAction::StartAll { modules }, LifecycleEvent::AllStarted { failures }) => failures@.len()
            == modules@.len(),
        (LifecycleAction::Stop { .. }, LifecycleEvent::Stopped) => true,
        _ => false,
    }
}

/// `e` reports that the hook of `phase` of the module named `module_name`
/// failed with `details`.
pub open spec fn is_lifecycle_error(e: Error, module_name: Seq<char>, phase: Seq<char>, details: Seq<char>) -> bool {
    &&& e.kind == ErrorKind::ModuleLifecycleFailed
    &&& e.message@ == module_lifecycle_failed_text(module_name, phase, details)
}

/// The failure messages of the first `n` concurrent starts, in order;
/// `failures[i]` is the outcome of starting `pairs[i]`.
pub open spec fn start_failure_texts(
    names: Seq<Seq<char>>,
    pairs: Seq<(usize, usize)>,
    failures: Seq<Option<String>>,
    n: nat,
) -> Seq<Seq<char>>
    decreases n,
{
    if n == 0 {
        Seq::empty()
    } else {
        let rest = start_failure_texts(names, pairs, failures, (n - 1) as nat);
        match failures[n - 1] {
            Some(d) => rest.push(module_lifecycle_failed_text(names[pairs[n - 1].0 as int], "on_start"@, d@)),
            None => rest,
        }
    }
}

/// The pairs among the first `n` whose start succeeded, in order.
pub open spec fn start_successes(pairs: Seq<(usize, usize)>, failures: Seq<Option<String>>, n: nat) -> Seq<(usize, usize)>
    decreases n,
{
    if n == 0 {
        Seq::empty()
    } else {
        let rest = start_successes(pairs, failures, (n - 1) as nat);
        match failures[n - 1] {
            Some(_) => rest,
            None => rest.push(pairs[n - 1]),
        }
    }
}

/// Bootstrap of one application.
pub struct Bootstrap {
    parallel: bool,
    names: Vec<String>,
    stack: Vec<Frame>,
    loaded: Vec<(usize, usize)>,
    started: Vec<(usize, usize)>,
    failure: Option<Error>,
    awaiting: Awaiting,
    finished: bool,
    imports: Ghost<Map<usize, Seq<usize>>>,
    stop_log: Ghost<Seq<usize>>,
    rollback_from: Ghost<Seq<usize>>,
}


/// Module `m` has a frame on the stack above position `p`.
pub open spec fn frame_above(stack: Seq<Frame>, p: int, m: usize) -> bool {
    exists|q: int| p < q < stack.len() && #[trigger] frame_module(stack[q]) == m
}

/// Module `m` has a frame somewhere on the stack.
pub open spec fn on_stack(stack: Seq<Frame>, m: usize) -> bool {
    exists|q: int| 0 <= q < stack.len() && #[trigger] frame_module(stack[q]) == m
}

impl Bootstrap {
    /// Number of modules discovered so far.
    pub closed spec fn module_count(&self) -> nat {
        self.names@.len()
    }

    /// Names of the discovered modules, by id.
    pub closed spec fn names_view(&self) -> Seq<Seq<char>> {
        self.names@.map_values(|s: String| s@)
    }

    /// The imports of every module whose imports are known, by id.
    pub closed spec fn imports(&self) -> Map<usize, Seq<usize>> {
        self.imports@
    }

    /// Configured modules, in configuration order.
    pub closed spec fn configured(&self) -> Seq<(usize, usize)> {
        self.loaded@
    }

    /// Started modules, in start order.
    pub closed spec fn started(&self) -> Seq<(usize, usize)> {
        self.started@
    }

    /// Modules stopped during rollback, in stop order.
    pub closed spec fn stop_log(&self) -> Seq<usize> {
        self.stop_log@
    }

    /// The started modules at the moment a start failed.
    pub closed spec fn rollback_from(&self) -> Seq<usize> {
        self.rollback_from@
    }

    pub closed spec fn is_parallel(&self) -> bool {
        self.parallel
    }

    /// The module (and its injector) whose imports, configure hook or start
    /// hook the last action asked for.
    pub closed spec fn current(&self) -> (usize, usize) {
        match self.awaiting {
            Awaiting::Imports { module, parent_injector } => (module, parent_injector),
            Awaiting::Configure { module, injector } => (module, injector),
            Awaiting::Start { module, injector } => (module, injector),
            _ => (0, 0),
        }
    }

    /// The work still to do during the walk, the next frame last.
    pub closed spec fn pending(&self) -> Seq<Frame> {
        self.stack@
    }

    /// The error held back while started modules are stopped.
    pub closed spec fn held_error(&self) -> Option<Error> {
        self.failure
    }

    /// The error this bootstrap fails with once `a` is handed out: the one
    /// carried by `a`, or the one held back while `a` stops a module.
    pub open spec fn failing_error(&self, a: LifecycleAction) -> Option<Error> {
        match a {
            LifecycleAction::Failed { error } => Some(error),
            LifecycleAction::Stop { .. } => self.held_error(),
            _ => None,
        }
    }

    /// The module whose imports or configure hook are being run.
    spec fn in_progress(&self) -> Option<usize> {
        match self.awaiting {
            Awaiting::Imports { module, .. } => Some(module),
            Awaiting::Configure { module, .. } => Some(module),
            _ => None,
        }
    }

    /// Invariant of the depth-first walk.
    spec fn walk_inv(&self) -> bool {
        let stack = self.stack@;
        let conf = mods(self.loaded@);
        let count = self.names@.len();
        &&& forall|q: int| 0 <= q < stack.len() ==> (frame_module(#[trigger] stack[q]) as int) < count
        &&& forall|i: int| 0 <= i < conf.len() ==> (#[trigger] conf[i] as int) < count
        &&& forall|m: usize| #[trigger] self.imports@.contains_key(m) ==> (m as int) < count
        &&& forall|m: usize| #[trigger] self.imports@.contains_key(m) ==> forall|c: int|
            0 <= c < self.imports@[m].len() ==> (#[trigger] self.imports@[m][c] as int) < count
        &&& distinct(conf)
        &&& forall|p: int, q: int| 0 <= p < q < stack.len() ==> frame_module(#[trigger] stack[p]) != frame_module(#[trigger] stack[q])
        &&& forall|q: int| 0 <= q < stack.len() ==> !conf.contains(frame_module(#[trigger] stack[q]))
        &&& match self.in_progress() {
            Some(m) => !conf.contains(m) && !on_stack(stack, m) && (m as int) < count,
            None => true,
        }
        &&& forall|m: usize| (m as int) < count ==> #[trigger] conf.contains(m) || on_stack(stack, m) || self.in_progress() == Some(m)
        &&& forall|i: int| 0 <= i < conf.len() ==> self.imports@.contains_key(#[trigger] conf[i])
        &&& imports_first(conf, self.imports@)
        &&& forall|p: int|
            0 <= p < stack.len() && (#[trigger] stack[p]) is Exit ==> {
                let m = frame_module(stack[p]);
                &&& self.imports@.contains_key(m)
                &&& forall|c: int|
                    0 <= c < self.imports@[m].len() ==> {
                        let k = #[trigger] self.imports@[m][c];
                        conf.contains(k) || frame_above(stack, p, k) || self.in_progress() == Some(k)
                    }
            }
        &&& forall|q: int| 0 <= q < stack.len() && (#[trigger] stack[q]) is Enter ==> !self.imports@.contains_key(frame_module(stack[q]))
        &&& match self.awaiting {
            Awaiting::Imports { module, .. } => !self.imports@.contains_key(module),
            Awaiting::Configure { module, .. } => {
                &&& self.imports@.contains_key(module)
                &&& forall|c: int| 0 <= c < self.imports@[module].len() ==> conf.contains(#[trigger] self.imports@[module][c])
            },
            _ => true,
        }
    }
}


/// Copies a list of (module, injector) pairs.
fn copy_pairs(v: &Vec<(usize, usize)>) -> (r: Vec<(usize, usize)>)
    ensures
        r@ == v@,
{
    let mut r: Vec<(usize, usize)> = Vec::new();
    let mut i: usize = 0;
    while i < v.len()
        invariant
            0 <= i <= v@.len(),
            r@ == v@.take(i as int),
        decreases v@.len() - i,
    {
        r.push(v[i]);
        proof {
            assert(v@.take(i + 1) =~= v@.take(i as int).push(v@[i as int]));
        }
        i = i + 1;
    }
    proof {
        assert(v@.take(v@.len() as int) =~= v@);
    }
    r
}

impl Bootstrap {
    /// Whole-machine invariant.
    pub closed spec fn inv(&self) -> bool {
        &&& self.names@.len() >= 1
        &&& !self.finished && self.failure is None && self.awaiting != Awaiting::Stop ==> self.walk_inv()
        &&& !self.finished && self.failure is None && !self.parallel ==> match self.awaiting {
            Awaiting::Start { module, injector } => self.loaded@ == self.started@.push((module, injector)),
            _ => self.loaded@ == self.started@,
        }
        &&& !self.finished && self.failure is None && self.parallel ==> self.started@.len() == 0
        &&& self.awaiting == Awaiting::StartAll ==> self.parallel && self.stack@.len() == 0 && self.failure is None
        &&& self.awaiting == Awaiting::Stop ==> self.failure is Some
        &&& self.failure is Some ==> self.rollback_from@ == mods(self.started@) + self.stop_log@.reverse()
        &&& self.failure is None && !self.finished ==> self.stop_log@.len() == 0
        &&& self.finished ==> self.awaiting == Awaiting::Nothing
        &&& self.failure is None && !self.finished ==> self.rollback_from@.len() == 0
        &&& match self.awaiting {
            Awaiting::Imports { module, .. } => self.failure is None && (module as int) < self.names@.len(),
            Awaiting::Configure { module, .. } => self.failure is None && (module as int) < self.names@.len(),
            Awaiting::Start { module, .. } => self.failure is None && !self.parallel && (module as int) < self.names@.len(),
            Awaiting::StartAll => self.failure is None,
            _ => true,
        }
    }

    /// The machine waits for the answer to `a`.
    spec fn expects(&self, a: LifecycleAction) -> bool {
        match a {
            LifecycleAction::DiscoverImports { .. } => self.awaiting is Imports && !self.finished,
            LifecycleAction::Configure { .. } => self.awaiting is Configure && !self.finished,
            LifecycleAction::Start { .. } => self.awaiting is Start && !self.finished,
            LifecycleAction::StartAll { modules } => self.awaiting == Awaiting::StartAll && modules@ == self.loaded@
                && !self.finished,
            LifecycleAction::Stop { .. } => self.awaiting == Awaiting::Stop && !self.finished,
            LifecycleAction::Finished => self.finished,
            LifecycleAction::Failed { .. } => self.finished,
        }
    }

    /// What the machine accepts next is exactly an answer to `a`.
    proof fn lemma_expects_accepts(&self, a: LifecycleAction)
        requires
            self.expects(a),
        ensures
            forall|e: LifecycleEvent| #[trigger] self.accepts(e) == answers(a, self.module_count(), e),
    {
    }

    /// Whether `event` answers the action last handed out.
    pub closed spec fn accepts(&self, event: LifecycleEvent) -> bool {
        &&& !self.finished
        &&& match (self.awaiting, event) {
            (Awaiting::Imports { .. }, LifecycleEvent::ImportsFound { import_names, .. }) => self.names@.len() + import_names@.len() <= usize::MAX,
            (Awaiting::Configure { .. }, LifecycleEvent::Configured { .. }) => true,
            (Awaiting::Start { .. }, LifecycleEvent::Started { .. }) => true,
            (Awaiting::StartAll, LifecycleEvent::AllStarted { failures }) => failures@.len() == self.loaded@.len(),
            (Awaiting::Stop, LifecycleEvent::Stopped) => true,
            _ => false,
        }
    }

    /// Laws that hold of the machine after handing out `a`.
    pub open spec fn action_laws(&self, a: LifecycleAction) -> bool {
        &&& a matches LifecycleAction::Finished ==> {
            &&& mods(self.started()) == mods(self.configured())
            &&& distinct(mods(self.started()))
            &&& imports_first(mods(self.started()), self.imports())
            &&& forall|m: usize| (m as int) < self.module_count() ==> #[trigger] mods(self.started()).contains(m)
        }
        &&& a matches LifecycleAction::Failed { .. } ==> self.stop_log() == self.rollback_from().reverse()
        &&& a matches LifecycleAction::Stop { module, .. } ==> self.stop_log().len() > 0 && self.stop_log().last() == module
        &&& a matches LifecycleAction::StartAll { modules } ==> {
            &&& modules@ == self.configured()
            &&& self.is_parallel()
            &&& forall|m: usize| (m as int) < self.module_count() ==> #[trigger] mods(self.configured()).contains(m)
        }
        &&& a matches LifecycleAction::Configure { module, .. } ==> {
            &&& self.imports().contains_key(module)
            &&& forall|c: int| 0 <= c < self.imports()[module].len() ==> mods(self.configured()).contains(#[trigger] self.imports()[module][c])
        }
    }

    /// A bootstrap of the module tree rooted at a module named `root_name`,
    /// whose injector becomes a child of `root_injector`; and its first action.
    pub fn new(root_name: &str, root_injector: usize, parallel: bool) -> (r: (Self, LifecycleAction))
        ensures
            r.0.inv(),
            r.0.is_parallel() == parallel,
            r.0.module_count() == 1,
            r.0.names_view() == seq![root_name@],
            r.0.current() == (0usize, root_injector),
            r.0.pending() == Seq::<Frame>::empty(),
            r.0.configured() == Seq::<(usize, usize)>::empty(),
            r.0.started() == Seq::<(usize, usize)>::empty(),
            r.0.imports() == Map::<usize, Seq<usize>>::empty(),
            r.0.stop_log() == Seq::<usize>::empty(),
            r.1 == (LifecycleAction::DiscoverImports { module: 0, parent_injector: root_injector }),
            forall|e: LifecycleEvent| #[trigger] r.0.accepts(e) == answers(r.1, r.0.module_count(), e),
    {
        let mut names = Vec::new();
        let mut owned = String::new();
        owned.append(root_name);
        names.push(owned);
        let b = Bootstrap {
            parallel,
            names,
            stack: Vec::new(),
            loaded: Vec::new(),
            started: Vec::new(),
            failure: None,
            awaiting: Awaiting::Imports { module: 0, parent_injector: root_injector },
            finished: false,
            imports: Ghost(Map::empty()),
            stop_log: Ghost(Seq::empty()),
            rollback_from: Ghost(Seq::empty()),
        };
        proof {
            assert(b.names_view() =~= seq![root_name@]);
            assert forall|m: usize| (m as int) < b.names@.len() implies #[trigger] mods(b.loaded@).contains(m) || on_stack(b.stack@, m) || b.in_progress() == Some(m) by {}
            b.lemma_expects_accepts(LifecycleAction::DiscoverImports { module: 0, parent_injector: root_injector });
        }
        (b, LifecycleAction::DiscoverImports { module: 0, parent_injector: root_injector })
    }

    /// The started modules with their injectors, in start order.
    pub fn started_modules(&self) -> (r: Vec<(usize, usize)>)
        ensures
            r@ == self.started(),
    {
        copy_pairs(&self.started)
    }

    /// The name of a discovered module.
    pub fn module_name(&self, module: usize) -> (r: &str)
        requires
            (module as int) < self.module_count(),
        ensures
            r@ == self.names_view()[module as int],
    {
        self.names[module].as_str()
    }

    /// Number of modules discovered so far.
    pub fn discovered(&self) -> (r: usize)
        ensures
            r == self.module_count(),
    {
        self.names.len()
    }

    /// Whether `event` answers the action last handed out.
    pub fn accepts_event(&self, event: &LifecycleEvent) -> (r: bool)
        ensures
            r == self.accepts(*event),
    {
        if self.finished {
            return false;
        }
        match (self.awaiting, event) {
            (Awaiting::Imports { .. }, LifecycleEvent::ImportsFound { import_names, .. }) => import_names.len() <= usize::MAX - self.names.len(),
            (Awaiting::Configure { .. }, LifecycleEvent::Configured { .. }) => true,
            (Awaiting::Start { .. }, LifecycleEvent::Started { .. }) => true,
            (Awaiting::StartAll, LifecycleEvent::AllStarted { failures }) => failures.len() == self.loaded.len(),
            (Awaiting::Stop, LifecycleEvent::Stopped) => true,
            _ => false,
        }
    }
}


impl Bootstrap {
    /// Hands out the next action once the previous one is answered.
    fn advance(&mut self) -> (a: LifecycleAction)
        requires
            old(self).inv(),
            old(self).awaiting == Awaiting::Nothing,
            !old(self).finished,
        ensures
            final(self).inv(),
            final(self).action_laws(a),
            final(self).expects(a),
            final(self).names@ == old(self).names@,
            final(self).imports@ == old(self).imports@,
            final(self).parallel == old(self).parallel,
            final(self).rollback_from@ == old(self).rollback_from@,
            old(self).failure is Some ==> (a is Stop || a is Failed) && final(self).failing_error(a) == old(self).failure,
            old(self).failure is None ==> {
                &&& !(a is Stop) && !(a is Failed)
                &&& final(self).started@ == old(self).started@
                &&& final(self).loaded@ == old(self).loaded@
                &&& final(self).stop_log@ == old(self).stop_log@
                &&& if old(self).stack@.len() > 0 {
                    &&& a == frame_action(old(self).stack@.last())
                    &&& final(self).stack@ == old(self).stack@.drop_last()
                } else {
                    &&& final(self).stack@ == old(self).stack@
                    &&& if old(self).parallel { a is StartAll } else { a is Finished }
                }
            },
            old(self).failure is Some ==> rollback_step(old(self).started@, *final(self), a),
            old(self).failure is Some ==> {
                &&& final(self).stack@ == old(self).stack@
                &&& a matches LifecycleAction::Stop { module, .. } ==> final(self).stop_log@ == old(self).stop_log@.push(module)
                &&& a is Failed ==> final(self).stop_log@ == old(self).stop_log@
            },
    {
        if self.failure.is_some() {
            match self.started.pop() {
                Some((m, inj)) => {
                    proof {
                        let old_started = old(self).started@;
                        assert(mods(old_started) =~= mods(self.started@).push(m));
                        assert(self.stop_log@.push(m).reverse() =~= seq![m] + self.stop_log@.reverse());
                        assert(mods(self.started@).push(m) + self.stop_log@.reverse() =~= mods(self.started@) + self.stop_log@.push(m).reverse());
                        self.stop_log@ = self.stop_log@.push(m);
                    }
                    self.awaiting = Awaiting::Stop;
                    LifecycleAction::Stop { module: m, injector: inj }
                },
                None => {
                    let e = self.failure.take().unwrap();
                    self.finished = true;
                    proof {
                        assert(mods(self.started@) =~= Seq::<usize>::empty());
                        assert(self.rollback_from@ =~= self.stop_log@.reverse());
                        assert(self.stop_log@.reverse().reverse() =~= self.stop_log@);
                        // restore the rollback relation for the stored (now empty) failure
                    }
                    LifecycleAction::Failed { error: e }
                },
            }
        } else {
            let ghost old_stack = self.stack@;
            let ghost conf = mods(self.loaded@);
            let ghost t = old_stack.len() - 1;
            match self.stack.pop() {
                Some(Frame::Enter { module, parent_injector }) => {
                    self.awaiting = Awaiting::Imports { module, parent_injector };
                    proof {
                        assert(self.stack@ =~= old_stack.take(t));
                        assert(frame_module(old_stack[t]) == module);
                        self.lemma_pop_walk(old_stack, conf, module);
                    }
                    LifecycleAction::DiscoverImports { module, parent_injector }
                },
                Some(Frame::Exit { module, injector }) => {
                    self.awaiting = Awaiting::Configure { module, injector };
                    proof {
                        assert(self.stack@ =~= old_stack.take(t));
                        assert(frame_module(old_stack[t]) == module);
                        assert(old_stack[t] is Exit);
                        self.lemma_pop_walk(old_stack, conf, module);
                    }
                    LifecycleAction::Configure { module, injector }
                },
                None => {
                    if self.parallel {
                        self.awaiting = Awaiting::StartAll;
                        let modules = copy_pairs(&self.loaded);
                        proof {
                            assert forall|m: usize| (m as int) < self.module_count() implies #[trigger] mods(self.configured()).contains(m) by {
                                assert(mods(self.loaded@).contains(m) || on_stack(self.stack@, m) || self.in_progress() == Some(m));
                            }
                        }
                        LifecycleAction::StartAll { modules }
                    } else {
                        self.finished = true;
                        proof {
                            assert forall|m: usize| (m as int) < self.module_count() implies #[trigger] mods(self.started()).contains(m) by {
                                assert(mods(self.loaded@).contains(m) || on_stack(self.stack@, m) || self.in_progress() == Some(m));
                            }
                        }
                        LifecycleAction::Finished
                    }
                },
            }
        }
    }

    /// The walk invariant after the top frame (of module `m`) was taken off
    /// the stack and `m` became the module in progress.
    proof fn lemma_pop_walk(&self, old_stack: Seq<Frame>, conf: Seq<usize>, m: usize)
        requires
            old_stack.len() > 0,
            self.stack@ == old_stack.take(old_stack.len() - 1),
            frame_module(old_stack[old_stack.len() - 1]) == m,
            conf == mods(self.loaded@),
            self.in_progress() == Some(m),
            ({
                let stack = old_stack;
                let count = self.names@.len();
                &&& forall|q: int| 0 <= q < stack.len() ==> (frame_module(#[trigger] stack[q]) as int) < count
                &&& forall|i: int| 0 <= i < conf.len() ==> (#[trigger] conf[i] as int) < count
                &&& forall|mm: usize| #[trigger] self.imports@.contains_key(mm) ==> (mm as int) < count
                &&& forall|mm: usize| #[trigger] self.imports@.contains_key(mm) ==> forall|c: int|
                    0 <= c < self.imports@[mm].len() ==> (#[trigger] self.imports@[mm][c] as int) < count
                &&& distinct(conf)
                &&& forall|p: int, q: int| 0 <= p < q < stack.len() ==> frame_module(#[trigger] stack[p]) != frame_module(#[trigger] stack[q])
                &&& forall|q: int| 0 <= q < stack.len() ==> !conf.contains(frame_module(#[trigger] stack[q]))
                &&& forall|mm: usize| (mm as int) < count ==> #[trigger] conf.contains(mm) || on_stack(stack, mm)
                &&& forall|i: int| 0 <= i < conf.len() ==> self.imports@.contains_key(#[trigger] conf[i])
                &&& imports_first(conf, self.imports@)
                &&& forall|p: int|
                    0 <= p < stack.len() && (#[trigger] stack[p]) is Exit ==> {
                        let mm = frame_module(stack[p]);
                        &&& self.imports@.contains_key(mm)
                        &&& forall|c: int|
                            0 <= c < self.imports@[mm].len() ==> {
                                let k = #[trigger] self.imports@[mm][c];
                                conf.contains(k) || frame_above(stack, p, k)
                            }
                    }
                &&& forall|q: int| 0 <= q < stack.len() && (#[trigger] stack[q]) is Enter ==> !self.imports@.contains_key(frame_module(stack[q]))
            }),
            match self.awaiting {
                Awaiting::Imports { module, .. } => old_stack[old_stack.len() - 1] is Enter && module == m,
                Awaiting::Configure { module, .. } => old_stack[old_stack.len() - 1] is Exit && module == m,
                _ => false,
            },
        ensures
            self.walk_inv(),
    {
        let stack = self.stack@;
        let t = old_stack.len() - 1;
        assert forall|q: int| 0 <= q < stack.len() implies #[trigger] stack[q] == old_stack[q] by {}
        assert(!on_stack(stack, m)) by {
            if on_stack(stack, m) {
                let q = choose|q: int| 0 <= q < stack.len() && #[trigger] frame_module(stack[q]) == m;
                assert(frame_module(old_stack[q]) != frame_module(old_stack[t]));
            }
        }
        assert(!conf.contains(m)) by {
            assert(!conf.contains(frame_module(old_stack[t])));
        }
        assert forall|mm: usize| (mm as int) < self.names@.len() implies #[trigger] conf.contains(mm) || on_stack(stack, mm) || self.in_progress() == Some(mm) by {
            if !conf.contains(mm) && mm != m {
                assert(on_stack(old_stack, mm));
                let q = choose|q: int| 0 <= q < old_stack.len() && #[trigger] frame_module(old_stack[q]) == mm;
                assert(q != t);
                assert(frame_module(stack[q]) == mm);
            }
        }
        assert forall|p: int| 0 <= p < stack.len() && (#[trigger] stack[p]) is Exit implies {
            let mm = frame_module(stack[p]);
            &&& self.imports@.contains_key(mm)
            &&& forall|c: int|
                0 <= c < self.imports@[mm].len() ==> {
                    let k = #[trigger] self.imports@[mm][c];
                    conf.contains(k) || frame_above(stack, p, k) || self.in_progress() == Some(k)
                }
        } by {
            assert(old_stack[p] is Exit);
            let mm = frame_module(stack[p]);
            assert forall|c: int| 0 <= c < self.imports@[mm].len() implies {
                let k = #[trigger] self.imports@[mm][c];
                conf.contains(k) || frame_above(stack, p, k) || self.in_progress() == Some(k)
            } by {
                let k = self.imports@[mm][c];
                if !conf.contains(k) {
                    assert(frame_above(old_stack, p, k));
                    let q = choose|q: int| p < q < old_stack.len() && #[trigger] frame_module(old_stack[q]) == k;
                    if q < t {
                        assert(frame_module(stack[q]) == k);
                        assert(frame_above(stack, p, k));
                    }
                }
            }
        }
        match self.awaiting {
            Awaiting::Configure { module, .. } => {
                assert(old_stack[t] is Exit);
                assert forall|c: int| 0 <= c < self.imports@[module].len() implies conf.contains(#[trigger] self.imports@[module][c]) by {
                    let k = self.imports@[module][c];
                    if !conf.contains(k) {
                        assert(frame_above(old_stack, t, k));
                    }
                }
            },
            _ => {},
        }
    }
}


/// What one step does with the answer `event`, going from `pre` to `post`
/// and handing out `a`.
pub open spec fn step_laws(pre: Bootstrap, event: LifecycleEvent, post: Bootstrap, a: LifecycleAction) -> bool {
    let (module, injector) = pre.current();
    match event {
        LifecycleEvent::ImportsFound { injector: module_injector, import_names } => {
            let work = pre.pending().push(Frame::Exit { module, injector: module_injector })
                + enter_frames(pre.module_count() as int, import_names@.len() as int, module_injector);
            &&& next_work(work, post, a)
            &&& post.names_view() == pre.names_view() + import_names@.map_values(|s: String| s@)
            &&& post.imports() == pre.imports().insert(
                module,
                Seq::new(import_names@.len(), |c: int| (pre.module_count() + c) as usize),
            )
        },
        LifecycleEvent::Configured { failure: Some(details) } => {
            &&& a is Failed
            &&& is_lifecycle_error(a->error, pre.names_view()[module as int], "configure"@, details@)
        },
        LifecycleEvent::Configured { failure: None } => {
            &&& post.configured() == pre.configured().push((module, injector))
            &&& if pre.is_parallel() {
                next_work(pre.pending(), post, a)
            } else {
                a == (LifecycleAction::Start { module, injector }) && post.pending() == pre.pending()
            }
        },
        LifecycleEvent::Started { failure: Some(details) } => {
            &&& post.failing_error(a) is Some
            &&& is_lifecycle_error(post.failing_error(a)->0, pre.names_view()[module as int], "on_start"@, details@)
            &&& post.rollback_from() == mods(pre.started())
            &&& first_stop(post, a)
            &&& rollback_step(pre.started(), post, a)
        },
        LifecycleEvent::Started { failure: None } => {
            &&& post.started() == pre.started().push((module, injector))
            &&& next_work(pre.pending(), post, a)
        },
        LifecycleEvent::AllStarted { failures } => {
            let n = failures@.len();
            let texts = start_failure_texts(pre.names_view(), pre.configured(), failures@, n);
            if texts.len() == 0 {
                a is Finished && post.started() == pre.configured()
            } else {
                &&& post.failing_error(a) is Some
                &&& post.failing_error(a)->0.kind == ErrorKind::ModuleLifecycleFailed
                &&& post.failing_error(a)->0.message@ == aggregate_message("Bootstrap"@, texts)
                &&& post.rollback_from() == mods(start_successes(pre.configured(), failures@, n))
                &&& first_stop(post, a)
                &&& rollback_step(start_successes(pre.configured(), failures@, n), post, a)
            }
        },
        LifecycleEvent::Stopped => {
            &&& post.failing_error(a) == pre.held_error()
            &&& rollback_step(pre.started(), post, a)
            &&& a matches LifecycleAction::Stop { module, .. } ==> post.stop_log() == pre.stop_log().push(module)
            &&& a is Failed ==> post.stop_log() == pre.stop_log()
        },
    }
}

/// One step of a rollback from the started modules `started`: the last of
/// them is stopped with the injector it was started with, and leaves the
/// started list; when none is left, the bootstrap fails.
pub open spec fn rollback_step(started: Seq<(usize, usize)>, post: Bootstrap, a: LifecycleAction) -> bool {
    if started.len() > 0 {
        &&& a == (LifecycleAction::Stop { module: started.last().0, injector: started.last().1 })
        &&& post.started() == started.drop_last()
    } else {
        a is Failed
    }
}

/// Right after a failed start: the first module stopped is the only one
/// in the stop log, or nothing needs stopping.
pub open spec fn first_stop(post: Bootstrap, a: LifecycleAction) -> bool {
    &&& a matches LifecycleAction::Stop { module, .. } ==> post.stop_log() == seq![module]
    &&& a is Failed ==> post.stop_log().len() == 0
}

/// The walk goes on with the frames `work`: the last one is taken next;
/// when none is left, all modules are started together (parallel) or the
/// bootstrap is finished (sequential).
pub open spec fn next_work(work: Seq<Frame>, post: Bootstrap, a: LifecycleAction) -> bool {
    if work.len() > 0 {
        a == frame_action(work.last()) && post.pending() == work.drop_last()
    } else {
        post.pending() == work && if post.is_parallel() { a is StartAll } else { a is Finished }
    }
}

impl Bootstrap {
    /// Records the answer to the last action and hands out the next one.
    pub fn step(&mut self, event: LifecycleEvent) -> (a: LifecycleAction)
        requires
            old(self).inv(),
            old(self).accepts(event),
        ensures
            final(self).inv(),
            final(self).action_laws(a),
            forall|e: LifecycleEvent| #[trigger] final(self).accepts(e) == answers(a, final(self).module_count(), e),
            final(self).is_parallel() == old(self).is_parallel(),
            step_laws(*old(self), event, *final(self), a),
    {
        let a = match event {
            LifecycleEvent::ImportsFound { injector, import_names } => {
                let ghost pre_names = self.names@;
                let ghost added = import_names@;
                self.record_imports(injector, import_names);
                proof {
                    assert(self.names_view() =~= pre_names.map_values(|s: String| s@) + added.map_values(|s: String| s@));
                }
                self.advance()
            },
            LifecycleEvent::Configured { failure } => {
                let (module, injector) = match self.awaiting {
                    Awaiting::Configure { module, injector } => (module, injector),
                    _ => { proof { assert(false); } (0, 0) },
                };
                match failure {
                    Some(details) => {
                        let e = Error::module_lifecycle_failed(self.names[module].as_str(), "configure", details.as_str());
                        self.awaiting = Awaiting::Nothing;
                        self.finished = true;
                        proof {
                            assert(self.stop_log@ =~= self.rollback_from@.reverse());
                        }
                        LifecycleAction::Failed { error: e }
                    },
                    None => {
                        self.record_configured(module, injector);
                        if self.parallel {
                            self.awaiting = Awaiting::Nothing;
                            self.advance()
                        } else {
                            self.awaiting = Awaiting::Start { module, injector };
                            LifecycleAction::Start { module, injector }
                        }
                    },
                }
            },
            LifecycleEvent::Started { failure } => {
                let (module, injector) = match self.awaiting {
                    Awaiting::Start { module, injector } => (module, injector),
                    _ => { proof { assert(false); } (0, 0) },
                };
                match failure {
                    Some(details) => {
                        let e = Error::module_lifecycle_failed(self.names[module].as_str(), "on_start", details.as_str());
                        self.failure = Some(e);
                        self.awaiting = Awaiting::Nothing;
                        proof {
                            self.rollback_from@ = mods(self.started@);
                            assert(self.stop_log@.reverse() =~= Seq::<usize>::empty());
                            assert(self.rollback_from@ =~= mods(self.started@) + self.stop_log@.reverse());
                            assert(self.stop_log@ =~= Seq::<usize>::empty());
                        }
                        let a = self.advance();
                        proof {
                            if let LifecycleAction::Stop { module, .. } = a {
                                assert(self.stop_log@ =~= seq![module]);
                            }
                        }
                        a
                    },
                    None => {
                        self.started.push((module, injector));
                        self.awaiting = Awaiting::Nothing;
                        self.advance()
                    },
                }
            },
            LifecycleEvent::AllStarted { failures } => {
                self.finish_start_all(failures)
            },
            LifecycleEvent::Stopped => {
                self.awaiting = Awaiting::Nothing;
                self.advance()
            },
        };
        proof {
            self.lemma_expects_accepts(a);
        }
        a
    }
}


/// Enter frames for new modules `base..base + k`, pushed so that `base` is on top.
pub open spec fn enter_frames(base: int, k: int, injector: usize) -> Seq<Frame> {
    Seq::new(k as nat, |x: int| Frame::Enter { module: (base + k - 1 - x) as usize, parent_injector: injector })
}

impl Bootstrap {
    /// Records the imports of the module in progress: they become new
    /// modules, numbered after the ones already known, and are entered
    /// first-to-last before the module itself is configured.
    fn record_imports(&mut self, injector: usize, import_names: Vec<String>)
        requires
            old(self).inv(),
            !old(self).finished,
            old(self).awaiting is Imports,
            old(self).names@.len() + import_names@.len() <= usize::MAX,
        ensures
            final(self).inv(),
            !final(self).finished,
            final(self).failure is None,
            final(self).awaiting == Awaiting::Nothing,
            final(self).parallel == old(self).parallel,
            final(self).names@ == old(self).names@ + import_names@,
            final(self).loaded@ == old(self).loaded@,
            final(self).started@ == old(self).started@,
            final(self).imports@ == old(self).imports@.insert(
                old(self).awaiting->Imports_module,
                Seq::new(import_names@.len(), |c: int| (old(self).names@.len() + c) as usize),
            ),
            final(self).stack@ == old(self).stack@.push(Frame::Exit { module: old(self).awaiting->Imports_module, injector })
                + enter_frames(old(self).names@.len() as int, import_names@.len() as int, injector),
            final(self).stop_log@ == old(self).stop_log@,
    {
        let m = match self.awaiting {
            Awaiting::Imports { module, .. } => module,
            _ => { proof { assert(false); } 0 },
        };
        let ghost old_stack = self.stack@;
        let ghost conf = mods(self.loaded@);
        let ghost old_imports = self.imports@;
        let base = self.names.len();
        let k = import_names.len();
        let mut frames: Vec<Frame> = Vec::new();
        frames.push(Frame::Exit { module: m, injector });
        let mut j: usize = 0;
        while j < k
            invariant
                0 <= j <= k,
                base + k <= usize::MAX,
                frames@ == seq![Frame::Exit { module: m, injector }] + enter_frames(base as int, k as int, injector).take(j as int),
            decreases k - j,
        {
            frames.push(Frame::Enter { module: base + k - 1 - j, parent_injector: injector });
            proof {
                assert(enter_frames(base as int, k as int, injector).take(j + 1) =~= enter_frames(base as int, k as int, injector).take(j as int).push(Frame::Enter { module: (base + k - 1 - j) as usize, parent_injector: injector }));
            }
            j = j + 1;
        }
        let mut added = import_names;
        self.names.append(&mut added);
        self.stack.append(&mut frames);
        self.awaiting = Awaiting::Nothing;
        proof {
            let new_imports = Seq::new(k as nat, |c: int| (base + c) as usize);
            self.imports@ = old_imports.insert(m, new_imports);
            assert(enter_frames(base as int, k as int, injector).take(k as int) =~= enter_frames(base as int, k as int, injector));
            assert(self.stack@ =~= old_stack.push(Frame::Exit { module: m, injector }) + enter_frames(base as int, k as int, injector));
            self.lemma_imports_walk(old_stack, conf, old_imports, m, injector, base as int, k as int);
        }
    }

    /// The walk invariant after the module in progress, `m`, had its `k`
    /// imports recorded as modules `base..base + k`.
    proof fn lemma_imports_walk(
        &self,
        old_stack: Seq<Frame>,
        conf: Seq<usize>,
        old_imports: Map<usize, Seq<usize>>,
        m: usize,
        injector: usize,
        base: int,
        k: int,
    )
        requires
            0 <= k,
            0 <= base,
            base + k <= usize::MAX,
            (m as int) < base,
            self.names@.len() == base + k,
            self.stack@ == old_stack.push(Frame::Exit { module: m, injector }) + enter_frames(base, k, injector),
            conf == mods(self.loaded@),
            self.imports@ == old_imports.insert(m, Seq::new(k as nat, |c: int| (base + c) as usize)),
            self.awaiting == Awaiting::Nothing,
            !old_imports.contains_key(m),
            !conf.contains(m),
            !on_stack(old_stack, m),
            ({
                let stack = old_stack;
                let count = base;
                &&& forall|q: int| 0 <= q < stack.len() ==> (frame_module(#[trigger] stack[q]) as int) < count
                &&& forall|i: int| 0 <= i < conf.len() ==> (#[trigger] conf[i] as int) < count
                &&& forall|mm: usize| #[trigger] old_imports.contains_key(mm) ==> (mm as int) < count
                &&& forall|mm: usize| #[trigger] old_imports.contains_key(mm) ==> forall|c: int|
                    0 <= c < old_imports[mm].len() ==> (#[trigger] old_imports[mm][c] as int) < count
                &&& distinct(conf)
                &&& forall|p: int, q: int| 0 <= p < q < stack.len() ==> frame_module(#[trigger] stack[p]) != frame_module(#[trigger] stack[q])
                &&& forall|q: int| 0 <= q < stack.len() ==> !conf.contains(frame_module(#[trigger] stack[q]))
                &&& forall|mm: usize| (mm as int) < count ==> #[trigger] conf.contains(mm) || on_stack(stack, mm) || mm == m
                &&& forall|i: int| 0 <= i < conf.len() ==> old_imports.contains_key(#[trigger] conf[i])
                &&& imports_first(conf, old_imports)
                &&& forall|p: int|
                    0 <= p < stack.len() && (#[trigger] stack[p]) is Exit ==> {
                        let mm = frame_module(stack[p]);
                        &&& old_imports.contains_key(mm)
                        &&& forall|c: int|
                            0 <= c < old_imports[mm].len() ==> {
                                let kk = #[trigger] old_imports[mm][c];
                                conf.contains(kk) || frame_above(stack, p, kk) || kk == m
                            }
                    }
                &&& forall|q: int| 0 <= q < stack.len() && (#[trigger] stack[q]) is Enter ==> !old_imports.contains_key(frame_module(stack[q]))
            }),
        ensures
            self.walk_inv(),
    {
        let stack = self.stack@;
        let imports = self.imports@;
        let ll = old_stack.len() as int;
        let count = base + k;
        let frames = enter_frames(base, k, injector);
        assert(stack.len() == ll + 1 + k);
        assert forall|q: int| 0 <= q < ll implies #[trigger] stack[q] == old_stack[q] by {}
        assert(stack[ll] == Frame::Exit { module: m, injector });
        assert forall|q: int| ll < q < ll + 1 + k implies #[trigger] stack[q] == Frame::Enter {
            module: (base + k + ll - q) as usize,
            parent_injector: injector,
        } by {
            assert(stack[q] == frames[q - ll - 1]);
        }
        assert forall|q: int| ll < q < ll + 1 + k implies (frame_module(#[trigger] stack[q]) as int) == base + k + ll - q by {
            assert(stack[q] == Frame::Enter { module: (base + k + ll - q) as usize, parent_injector: injector });
        }
        assert forall|q: int| 0 <= q < ll implies (frame_module(#[trigger] stack[q]) as int) < base by {
            assert(stack[q] == old_stack[q]);
        }
        assert forall|q: int| 0 <= q < stack.len() implies (frame_module(#[trigger] stack[q]) as int) < count by {
            if q < ll {
                assert((frame_module(stack[q]) as int) < base);
            } else if q > ll {
                assert((frame_module(stack[q]) as int) == base + k + ll - q);
            }
        }
        assert forall|mm: usize| #[trigger] imports.contains_key(mm) implies (mm as int) < count by {
            if mm != m {
                assert(old_imports.contains_key(mm));
            }
        }
        assert forall|mm: usize| #[trigger] imports.contains_key(mm) implies forall|c: int|
            0 <= c < imports[mm].len() ==> (#[trigger] imports[mm][c] as int) < count by {
            if mm != m {
                assert(old_imports.contains_key(mm));
                assert(imports[mm] == old_imports[mm]);
            }
        }
        assert forall|p: int, q: int| 0 <= p < q < stack.len() implies frame_module(#[trigger] stack[p]) != frame_module(#[trigger] stack[q]) by {
            if q < ll {
                assert(stack[p] == old_stack[p] && stack[q] == old_stack[q]);
            } else if q == ll {
                assert(stack[p] == old_stack[p]);
                if frame_module(old_stack[p]) == m {
                    assert(on_stack(old_stack, m));
                }
            } else {
                assert((frame_module(stack[q]) as int) == base + k + ll - q);
                if p < ll {
                    assert((frame_module(stack[p]) as int) < base);
                } else if p > ll {
                    assert((frame_module(stack[p]) as int) == base + k + ll - p);
                }
            }
        }
        assert forall|q: int| 0 <= q < stack.len() implies !conf.contains(frame_module(#[trigger] stack[q])) by {
            if q < ll {
                assert(stack[q] == old_stack[q]);
            } else if q > ll {
                let mm = frame_module(stack[q]);
                assert((mm as int) == base + k + ll - q);
                if conf.contains(mm) {
                    let i = choose|i: int| 0 <= i < conf.len() && conf[i] == mm;
                    assert((conf[i] as int) < base);
                }
            }
        }
        assert forall|mm: usize| (mm as int) < count implies #[trigger] conf.contains(mm) || on_stack(stack, mm) || self.in_progress() == Some(mm) by {
            if (mm as int) < base {
                if mm == m {
                    assert(frame_module(stack[ll]) == m);
                } else if !conf.contains(mm) {
                    assert(on_stack(old_stack, mm));
                    let q = choose|q: int| 0 <= q < old_stack.len() && #[trigger] frame_module(old_stack[q]) == mm;
                    assert(frame_module(stack[q]) == mm);
                }
            } else {
                let q = base + k + ll - mm;
                assert((frame_module(stack[q]) as int) == mm);
            }
        }
        assert forall|i: int| 0 <= i < conf.len() implies imports.contains_key(#[trigger] conf[i]) by {}
        assert forall|i: int| 0 <= i < conf.len() implies #[trigger] imports[conf[i]] == old_imports[conf[i]] by {
            assert(conf[i] != m);
        }
        assert(imports_first(conf, imports)) by {
            assert forall|i: int, c: int| 0 <= i < conf.len() && 0 <= c < imports[conf[i]].len() implies #[trigger] earlier(conf, i, imports[conf[i]][c]) by {
                assert(imports[conf[i]] == old_imports[conf[i]]);
                assert(earlier(conf, i, old_imports[conf[i]][c]));
            }
        }
        assert forall|p: int| 0 <= p < stack.len() && (#[trigger] stack[p]) is Exit implies {
            let mm = frame_module(stack[p]);
            &&& imports.contains_key(mm)
            &&& forall|c: int|
                0 <= c < imports[mm].len() ==> {
                    let kk = #[trigger] imports[mm][c];
                    conf.contains(kk) || frame_above(stack, p, kk) || self.in_progress() == Some(kk)
                }
        } by {
            let mm = frame_module(stack[p]);
            if p < ll {
                assert(stack[p] == old_stack[p]);
                assert(mm != m) by {
                    if mm == m {
                        assert(on_stack(old_stack, m));
                    }
                }
                assert(imports[mm] == old_imports[mm]);
                assert forall|c: int| 0 <= c < imports[mm].len() implies {
                    let kk = #[trigger] imports[mm][c];
                    conf.contains(kk) || frame_above(stack, p, kk) || self.in_progress() == Some(kk)
                } by {
                    let kk = imports[mm][c];
                    assert(old_imports[mm][c] == kk);
                    if !conf.contains(kk) {
                        if kk == m {
                            assert(frame_module(stack[ll]) == m);
                        } else {
                            assert(frame_above(old_stack, p, kk));
                            let q = choose|q: int| p < q < old_stack.len() && #[trigger] frame_module(old_stack[q]) == kk;
                            assert(frame_module(stack[q]) == kk);
                        }
                    }
                }
            } else if p == ll {
                assert(mm == m);
                assert forall|c: int| 0 <= c < imports[mm].len() implies {
                    let kk = #[trigger] imports[mm][c];
                    conf.contains(kk) || frame_above(stack, p, kk) || self.in_progress() == Some(kk)
                } by {
                    let kk = imports[mm][c];
                    assert((kk as int) == base + c);
                    let q = k + ll - c;
                    assert((frame_module(stack[q]) as int) == base + c);
                }
            } else {
                assert(stack[p] == Frame::Enter { module: (base + k + ll - p) as usize, parent_injector: injector });
            }
        }
        assert forall|q: int| 0 <= q < stack.len() && (#[trigger] stack[q]) is Enter implies !imports.contains_key(frame_module(stack[q])) by {
            let mm = frame_module(stack[q]);
            if q < ll {
                assert(stack[q] == old_stack[q]);
                if mm == m {
                    assert(on_stack(old_stack, m));
                }
            } else if q > ll {
                assert((mm as int) == base + k + ll - q);
                if imports.contains_key(mm) && mm != m {
                    assert(old_imports.contains_key(mm));
                }
            }
        }
    }
}


impl Bootstrap {
    fn record_configured(&mut self, module: usize, injector: usize)
        requires
            old(self).inv(),
            !old(self).finished,
            old(self).failure is None,
            old(self).awaiting == (Awaiting::Configure { module, injector }),
        ensures
            final(self).inv(),
            !final(self).finished,
            final(self).failure is None,
            final(self).parallel == old(self).parallel,
            final(self).awaiting == if old(self).parallel { Awaiting::Nothing } else { Awaiting::Start { module, injector } },
            final(self).loaded@ == old(self).loaded@.push((module, injector)),
            final(self).started@ == old(self).started@,
            final(self).names@ == old(self).names@,
            final(self).stack@ == old(self).stack@,
            final(self).stop_log@ == old(self).stop_log@,
    {
        let ghost conf = mods(self.loaded@);
        self.loaded.push((module, injector));
        if self.parallel {
            self.awaiting = Awaiting::Nothing;
        } else {
            self.awaiting = Awaiting::Start { module, injector };
        }
        proof {
            let conf2 = mods(self.loaded@);
            assert(conf2 =~= conf.push(module));
            assert forall|i: int| 0 <= i < conf.len() implies #[trigger] conf2[i] == conf[i] by {}
            assert(conf2[conf.len() as int] == module);
            assert forall|x: usize| conf.contains(x) implies conf2.contains(x) by {
                let i = choose|i: int| 0 <= i < conf.len() && conf[i] == x;
                assert(conf2[i] == x);
            }
            assert(conf2.contains(module));
            assert(distinct(conf2)) by {
                assert forall|i: int, j: int| 0 <= i < j < conf2.len() implies conf2[i] != conf2[j] by {
                    if j == conf.len() {
                        assert(conf.contains(conf[i]));
                    }
                }
            }
            assert(imports_first(conf2, self.imports@)) by {
                assert forall|i: int, c: int| 0 <= i < conf2.len() && 0 <= c < self.imports@[conf2[i]].len() implies #[trigger] earlier(conf2, i, self.imports@[conf2[i]][c]) by {
                    if i < conf.len() {
                        assert(earlier(conf, i, self.imports@[conf[i]][c]));
                        let j = choose|j: int| 0 <= j < i && #[trigger] conf[j] == self.imports@[conf[i]][c];
                        assert(conf2[j] == conf[j]);
                    } else {
                        let kk = self.imports@[module][c];
                        assert(conf.contains(kk));
                        let j = choose|j: int| 0 <= j < conf.len() && conf[j] == kk;
                        assert(conf2[j] == kk);
                    }
                }
            }
            assert forall|mm: usize| (mm as int) < self.names@.len() implies #[trigger] conf2.contains(mm) || on_stack(self.stack@, mm) || self.in_progress() == Some(mm) by {
                if conf.contains(mm) {
                }
            }
            assert forall|p: int| 0 <= p < self.stack@.len() && (#[trigger] self.stack@[p]) is Exit implies {
                let mm = frame_module(self.stack@[p]);
                &&& self.imports@.contains_key(mm)
                &&& forall|c: int|
                    0 <= c < self.imports@[mm].len() ==> {
                        let k = #[trigger] self.imports@[mm][c];
                        conf2.contains(k) || frame_above(self.stack@, p, k) || self.in_progress() == Some(k)
                    }
            } by {
                let mm = frame_module(self.stack@[p]);
                assert forall|c: int| 0 <= c < self.imports@[mm].len() implies {
                    let k = #[trigger] self.imports@[mm][c];
                    conf2.contains(k) || frame_above(self.stack@, p, k) || self.in_progress() == Some(k)
                } by {
                    let k = self.imports@[mm][c];
                    if conf.contains(k) {
                        assert(conf2.contains(k));
                    }
                }
            }
            assert forall|q: int| 0 <= q < self.stack@.len() implies !conf2.contains(frame_module(#[trigger] self.stack@[q])) by {
                let fm = frame_module(self.stack@[q]);
                if conf2.contains(fm) {
                    let i = choose|i: int| 0 <= i < conf2.len() && conf2[i] == fm;
                    if i < conf.len() {
                        assert(conf.contains(fm));
                    } else {
                        assert(on_stack(self.stack@, module));
                    }
                }
            }
        }
    }

    /// Records the outcomes of the concurrent starts: success when all
    /// started, otherwise a rollback of the started ones and one error that
    /// reports every failed module.
    fn finish_start_all(&mut self, failures: Vec<Option<String>>) -> (a: LifecycleAction)
        requires
            old(self).inv(),
            !old(self).finished,
            old(self).awaiting == Awaiting::StartAll,
            failures@.len() == old(self).loaded@.len(),
        ensures
            final(self).inv(),
            final(self).action_laws(a),
            final(self).expects(a),
            final(self).parallel == old(self).parallel,
            ({
                let n = failures@.len();
                let texts = start_failure_texts(old(self).names_view(), old(self).configured(), failures@, n);
                if texts.len() == 0 {
                    a is Finished && final(self).started() == old(self).configured()
                } else {
                    &&& final(self).failing_error(a) is Some
                    &&& final(self).failing_error(a)->0.kind == ErrorKind::ModuleLifecycleFailed
                    &&& final(self).failing_error(a)->0.message@ == aggregate_message("Bootstrap"@, texts)
                    &&& final(self).rollback_from() == mods(start_successes(old(self).configured(), failures@, n))
                    &&& first_stop(*final(self), a)
                    &&& rollback_step(start_successes(old(self).configured(), failures@, n), *final(self), a)
                }
            }),
    {
        let ghost conf = mods(self.loaded@);
        let ghost names = self.names_view();
        let mut started_now: Vec<(usize, usize)> = Vec::new();
        let mut errors: Vec<Error> = Vec::new();
        let mut i: usize = 0;
        while i < failures.len()
            invariant
                0 <= i <= failures@.len(),
                failures@.len() == self.loaded@.len(),
                conf == mods(self.loaded@),
                names == self.names_view(),
                forall|j: int| 0 <= j < conf.len() ==> (#[trigger] conf[j] as int) < self.names@.len(),
                errors@.len() == 0 ==> started_now@ == self.loaded@.take(i as int),
                errors@.len() <= i,
                messages(errors@) == start_failure_texts(names, self.loaded@, failures@, i as nat),
                started_now@ == start_successes(self.loaded@, failures@, i as nat),
            decreases failures@.len() - i,
        {
            let (module, injector) = self.loaded[i];
            proof {
                assert(conf[i as int] == module);
            }
            match &failures[i] {
                None => {
                    started_now.push((module, injector));
                    proof {
                        assert(self.loaded@.take(i + 1) =~= self.loaded@.take(i as int).push(self.loaded@[i as int]));
                    }
                },
                Some(details) => {
                    let e = Error::module_lifecycle_failed(self.names[module].as_str(), "on_start", details.as_str());
                    let ghost before = errors@;
                    errors.push(e);
                    proof {
                        assert(messages(errors@) =~= messages(before).push(e.message@));
                    }
                },
            }
            i = i + 1;
        }
        self.awaiting = Awaiting::Nothing;
        if errors.len() == 0 {
            proof {
                assert(self.loaded@.take(self.loaded@.len() as int) =~= self.loaded@);
            }
            self.started = started_now;
            self.finished = true;
            proof {
                assert forall|m: usize| (m as int) < self.module_count() implies #[trigger] mods(self.started()).contains(m) by {
                    assert(conf.contains(m) || on_stack(self.stack@, m) || self.in_progress() == Some(m));
                }
            }
            LifecycleAction::Finished
        } else {
            let e = Error::bootstrap_aggregate(errors);
            self.started = started_now;
            self.failure = Some(e);
            proof {
                self.rollback_from@ = mods(self.started@);
                assert(self.stop_log@.reverse() =~= Seq::<usize>::empty());
                assert(self.rollback_from@ =~= mods(self.started@) + self.stop_log@.reverse());
                assert(self.stop_log@ =~= Seq::<usize>::empty());
            }
            let a = self.advance();
            proof {
                if let LifecycleAction::Stop { module, .. } = a {
                    assert(self.stop_log@ =~= seq![module]);
                }
            }
            a
        }
    }
}


/// The failure messages of the first `n` stop hooks, in order; `names[i]`
/// names the i-th module stopped and `failures[i]` is its outcome.
pub open spec fn stop_failure_texts(names: Seq<Seq<char>>, failures: Seq<Option<String>>, n: nat) -> Seq<Seq<char>>
    decreases n,
{
    if n == 0 {
        Seq::empty()
    } else {
        let rest = stop_failure_texts(names, failures, (n - 1) as nat);
        match failures[n - 1] {
            Some(d) => rest.push(module_lifecycle_failed_text(names[n - 1], "on_stop"@, d@)),
            None => rest,
        }
    }
}

/// The order in which started modules are stopped at shutdown: the reverse
/// of their start order.
pub fn shutdown_order(started: &Vec<(usize, usize)>) -> (r: Vec<(usize, usize)>)
    ensures
        r@ == started@.reverse(),
{
    let mut r: Vec<(usize, usize)> = Vec::new();
    let mut i: usize = started.len();
    while i > 0
        invariant
            i <= started@.len(),
            r@ == started@.subrange(i as int, started@.len() as int).reverse(),
        decreases i,
    {
        i = i - 1;
        r.push(started[i]);
        proof {
            assert(started@.subrange(i as int, started@.len() as int).reverse() =~= started@.subrange(
                i + 1,
                started@.len() as int,
            ).reverse().push(started@[i as int]));
        }
    }
    proof {
        assert(started@.subrange(0, started@.len() as int) =~= started@);
    }
    r
}

/// The outcome of a shutdown that stopped the modules named `names`, in
/// that order, with `failures[i]` the failure of the i-th stop hook: every
/// failure is reported in one error, and the shutdown succeeds when there
/// is none.
pub fn shutdown_result(names: &Vec<String>, failures: &Vec<Option<String>>) -> (r: Result<(), Error>)
    requires
        names@.len() == failures@.len(),
    ensures
        ({
            let texts = stop_failure_texts(names@.map_values(|s: String| s@), failures@, failures@.len());
            &&& r is Ok <==> texts.len() == 0
            &&& r is Err ==> r->Err_0.kind == ErrorKind::ModuleLifecycleFailed
                && r->Err_0.message@ == aggregate_message("Shutdown"@, texts)
        }),
{
    let ghost views = names@.map_values(|s: String| s@);
    let mut errors: Vec<Error> = Vec::new();
    let mut i: usize = 0;
    while i < failures.len()
        invariant
            0 <= i <= failures@.len(),
            names@.len() == failures@.len(),
            views == names@.map_values(|s: String| s@),
            errors@.len() <= i,
            messages(errors@) == stop_failure_texts(views, failures@, i as nat),
        decreases failures@.len() - i,
    {
        match &failures[i] {
            None => {},
            Some(details) => {
                let e = Error::module_lifecycle_failed(names[i].as_str(), "on_stop", details.as_str());
                let ghost before = errors@;
                errors.push(e);
                proof {
                    assert(messages(errors@) =~= messages(before).push(e.message@));
                }
            },
        }
        i = i + 1;
    }
    if errors.len() == 0 {
        Ok(())
    } else {
        Err(Error::shutdown_aggregate(errors))
    }
}

/// The error of a bootstrap that did not finish within `limit` (as text).
pub fn bootstrap_timed_out(limit: &str) -> (e: Error)
    ensures
        e.kind == ErrorKind::ModuleLifecycleFailed,
        e.message@ == "bootstrap timed out after "@ + limit@,
{
    let mut m = String::new();
    m.append("bootstrap timed out after ");
    m.append(limit);
    Error::new(ErrorKind::ModuleLifecycleFailed, m)
}

/// The failure details of a stop hook that did not finish within the
/// shutdown limit `limit` (as text).
pub fn stop_timed_out_details(limit: &str) -> (d: String)
    ensures
        d@ == "timed out during shutdown (limit: "@ + limit@ + ")"@,
{
    let mut d = String::new();
    d.append("timed out during shutdown (limit: ");
    d.append(limit);
    d.append(")");
    d
}

/// A rollback stops only modules that were started, each with the
/// injector it was started with, the last started first.
pub proof fn lemma_rollback_stops_started(started: Seq<(usize, usize)>, post: Bootstrap, a: LifecycleAction)
    requires
        rollback_step(started, post, a),
        a is Stop,
    ensures
        started.len() > 0,
        started.contains((a->Stop_module, a->Stop_injector)),
        (a->Stop_module, a->Stop_injector) == started.last(),
        post.started() == started.drop_last(),
{
    assert(started[started.len() - 1] == started.last());
}

} // verus!
