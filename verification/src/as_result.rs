use vstd::prelude::*;
use crate::errors::CscError;

verus! {

/// Uniform reading of an action's outcome as a `Result`, so a driver can
/// treat plain actions and fallible ones alike.
pub trait AsResult: Sized {
    type OkType;

    type ErrorType;

    fn as_result(self) -> Result<Self::OkType, Self::ErrorType>;
}

impl AsResult for () {
    type OkType = ();

    type ErrorType = CscError;

    /// A bare unit outcome always counts as success.
    fn as_result(self) -> (r: Result<(), CscError>)
        ensures
            r is Ok,
    {
        Ok(self)
    }
}

impl<E> AsResult for Result<(), E> {
    type OkType = ();

    type ErrorType = E;

    /// A result already is its own outcome.
    fn as_result(self) -> (r: Result<(), E>)
        ensures
            r == self,
    {
        self
    }
}

} // verus!
