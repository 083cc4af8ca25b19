//! The value an HTTP handler receives when a service is resolved for it.
//!
//! The request extractor itself lives with the web framework; what it
//! decides is here: a synchronous resolve that is refused because the
//! provider is async is retried asynchronously, any other failure rejects
//! the request.
use vstd::prelude::*;
use crate::Shared;
use crate::error::{Error, ErrorKind};

verus! {

/// A service resolved for a request handler.
pub struct Resolved<T: ?Sized + Send + Sync + 'static>(pub Shared<T>);

impl<T: ?Sized + Send + Sync + 'static> Resolved<T> {
    /// The shared handle to the resolved service.
    pub fn into_shared(self) -> (r: Shared<T>)
        ensures
            r == self.0,
    {
        self.0
    }
}

/// Whether a failed synchronous resolve is retried asynchronously: exactly
/// when the provider is async.
pub fn retry_async(error: &Error) -> (r: bool)
    ensures
        r == (error.kind == ErrorKind::AsyncFactoryRequiresAsyncResolve),
{
    match error.kind {
        ErrorKind::AsyncFactoryRequiresAsyncResolve => true,
        _ => false,
    }
}

} // verus!
