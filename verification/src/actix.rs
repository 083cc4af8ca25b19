//! The value an actix-web handler receives when a service is resolved for it.
use vstd::prelude::*;
use crate::Shared;

verus! {

/// A service resolved for a request handler.
pub struct Resolved<T: ?Sized + Send + Sync + 'static>(pub Shared<T>);

impl<T: ?Sized + Send + Sync + 'static> Resolved<T> {
    /// The shared handle to the resolved service.
    pub fn into_shared(self) -> (r: Shared<T>)
        ensures
            r == self.0,
    {
        self.0
    }
}

} // verus!
