//! A resolved dependency: a thin wrapper around a shared handle to a value.
use vstd::prelude::*;
use crate::Shared;

verus! {

/// Clones a shared handle: the clone refers to the same value.
#[verifier::external_body]
fn clone_shared<T: ?Sized>(value: &Shared<T>) -> (r: Shared<T>)
    ensures
        r == *value,
{
    value.clone()
}

/// A resolved dependency. It holds a shared handle to its value, which is
/// read through [`Instance::get`] or handed out again through [`Instance::value`].
#[derive(Debug)]
pub struct Instance<T: ?Sized + 'static> {
    value: Shared<T>,
}

impl<T: ?Sized + 'static> Instance<T> {
    /// The shared handle that this instance wraps.
    pub closed spec fn shared(&self) -> Shared<T> {
        self.value
    }

    /// Wraps a shared handle.
    pub fn new(value: Shared<T>) -> (r: Self)
        ensures
            r.shared() == value,
    {
        Instance { value }
    }

    /// A reference to the wrapped value.
    pub fn get(&self) -> (r: &T)
        ensures
            r == &*self.shared(),
    {
        &*self.value
    }

    /// Another shared handle to the wrapped value.
    pub fn value(&self) -> (r: Shared<T>)
        ensures
            r == self.shared(),
    {
        clone_shared(&self.value)
    }
}

impl<T: ?Sized + 'static> Clone for Instance<T> {
    fn clone(&self) -> (r: Self)
        ensures
            r.shared() == self.shared(),
    {
        Instance { value: clone_shared(&self.value) }
    }
}

} // verus!
