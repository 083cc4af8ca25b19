//! Detection of circular dependencies during resolution: the chain of
//! services being resolved on one thread, which refuses to enter a service
//! that is already on it.
use vstd::prelude::*;
use crate::error::{Error, ErrorKind, circular_dependency_text};

verus! {

/// The services currently being resolved, outermost first.
pub struct ResolveStack {
    keys: Vec<u64>,
    names: Vec<String>,
}

/// The first position of `k` in `keys`.
pub open spec fn first_position(keys: Seq<u64>, k: u64, i: int) -> bool {
    &&& 0 <= i < keys.len()
    &&& keys[i] == k
    &&& forall|j: int| 0 <= j < i ==> keys[j] != k
}

impl ResolveStack {
    /// The type keys on the chain, outermost first.
    pub closed spec fn keys(&self) -> Seq<u64> {
        self.keys@
    }

    /// The service names on the chain, outermost first.
    pub closed spec fn names(&self) -> Seq<Seq<char>> {
        self.names@.map_values(|s: String| s@)
    }

    pub open spec fn wf(&self) -> bool {
        self.keys().len() == self.names().len()
    }

    /// An empty chain.
    pub fn new() -> (r: Self)
        ensures
            r.wf(),
            r.keys() == Seq::<u64>::empty(),
    {
        ResolveStack { keys: Vec::new(), names: Vec::new() }
    }

    /// Number of services on the chain.
    pub fn depth(&self) -> (r: usize)
        ensures
            r == self.keys().len(),
    {
        self.keys.len()
    }

    /// Enters a service. When it is already on the chain the chain is left
    /// unchanged and the error lists the services from its first entry to
    /// this one: `A -> B -> A`.
    pub fn push(&mut self, type_key: u64, service_name: &str) -> (r: Result<(), Error>)
        requires
            old(self).wf(),
        ensures
            final(self).wf(),
            match r {
                Ok(()) => {
                    &&& !old(self).keys().contains(type_key)
                    &&& final(self).keys() == old(self).keys().push(type_key)
                    &&& final(self).names() == old(self).names().push(service_name@)
                },
                Err(e) => {
                    &&& final(self).keys() == old(self).keys()
                    &&& final(self).names() == old(self).names()
                    &&& e.kind == ErrorKind::CircularDependency
                    &&& exists|i: int|
                        first_position(old(self).keys(), type_key, i) && e.message@
                            == circular_dependency_text(
                            old(self).names().subrange(i, old(self).names().len() as int).push(
                                service_name@,
                            ),
                        )
                },
            },
    {
        let mut i: usize = 0;
        while i < self.keys.len()
            invariant
                0 <= i <= self.keys@.len(),
                self.keys@ == old(self).keys@,
                self.names@ == old(self).names@,
                self.wf(),
                forall|j: int| 0 <= j < i ==> self.keys@[j] != type_key,
            decreases self.keys@.len() - i,
        {
            if self.keys[i] == type_key {
                let mut chain: Vec<&str> = Vec::new();
                let mut t: usize = i;
                while t < self.names.len()
                    invariant
                        i <= t <= self.names@.len(),
                        self.wf(),
                        chain@.map_values(|s: &str| s@) =~= self.names().subrange(i as int, t as int),
                    decreases self.names@.len() - t,
                {
                    let piece = self.names[t].as_str();
                    let ghost before = chain@;
                    chain.push(piece);
                    proof {
                        assert(self.names()[t as int] == self.names@[t as int]@);
                        assert(piece@ == self.names()[t as int]);
                        assert(chain@.map_values(|s: &str| s@) =~= before.map_values(|s: &str| s@).push(piece@));
                        assert(self.names().subrange(i as int, t + 1) =~= self.names().subrange(i as int, t as int).push(self.names()[t as int]));
                    }
                    t = t + 1;
                }
                chain.push(service_name);
                let e = Error::circular_dependency(chain.as_slice());
                proof {
                    assert(first_position(self.keys(), type_key, i as int));
                    assert(chain@.map_values(|s: &str| s@) =~= self.names().subrange(
                        i as int,
                        self.names().len() as int,
                    ).push(service_name@));
                }
                return Err(e);
            }
            i = i + 1;
        }
        proof {
            assert(!self.keys@.contains(type_key)) by {
                if self.keys@.contains(type_key) {
                    let j = choose|j: int| 0 <= j < self.keys@.len() && self.keys@[j] == type_key;
                }
            }
        }
        self.keys.push(type_key);
        let mut owned = String::new();
        owned.append(service_name);
        self.names.push(owned);
        proof {
            assert(self.names() =~= old(self).names().push(service_name@));
        }
        Ok(())
    }

    /// Leaves the innermost service.
    pub fn pop(&mut self)
        requires
            old(self).wf(),
            old(self).keys().len() > 0,
        ensures
            final(self).wf(),
            final(self).keys() == old(self).keys().drop_last(),
            final(self).names() == old(self).names().drop_last(),
    {
        self.keys.pop();
        self.names.pop();
        proof {
            assert(self.names() =~= old(self).names().drop_last());
        }
    }
}

/// Entering a service and leaving it again restores the chain as it was,
/// so the chain always lists exactly the services still being resolved.
pub proof fn lemma_push_pop_restores(before: ResolveStack, entered: ResolveStack, left: ResolveStack, type_key: u64, name: Seq<char>)
    requires
        entered.keys() == before.keys().push(type_key),
        entered.names() == before.names().push(name),
        left.keys() == entered.keys().drop_last(),
        left.names() == entered.names().drop_last(),
    ensures
        left.keys() == before.keys(),
        left.names() == before.names(),
{
    assert(before.keys().push(type_key).drop_last() =~= before.keys());
    assert(before.names().push(name).drop_last() =~= before.names());
}

} // verus!
