//! The errors and the two job interfaces of the map-reduce framework, in
//! which a manager hands jobs to workers and folds what they return.

use crate::sonic;
use vstd::prelude::*;
use vstd::std_specs::convert::FromSpecImpl;

verus! {

/// Why a map-reduce run failed. These are failures of a batch job, so they
/// reach the caller.
#[derive(Clone, Copy, Debug, PartialEq, Eq, Structural, Hash)]
pub enum Error {
    /// A call to a worker failed in the transport.
    Sonic(sonic::Error),
    /// No worker could take the job.
    NoAvailableWorker,
    /// A worker took the job and returned nothing.
    NoResponse,
}

impl From<sonic::Error> for Error {
    fn from(error: sonic::Error) -> (wrapped: Error) {
        Error::Sonic(error)
    }
}

impl FromSpecImpl<sonic::Error> for Error {
    open spec fn obeys_from_spec() -> bool {
        true
    }

    open spec fn from_spec(error: sonic::Error) -> Error {
        Error::Sonic(error)
    }
}

impl Error {
    /// The text that describes the error.
    pub fn message(&self) -> (text: String)
        ensures
            text@ == match *self {
                Error::Sonic(_) => "network error"@,
                Error::NoAvailableWorker => "could not get a working worker"@,
                Error::NoResponse => "did not get a reponse"@,
            },
    {
        match self {
            Error::Sonic(_) => "network error".to_owned(),
            Error::NoAvailableWorker => "could not get a working worker".to_owned(),
            Error::NoResponse => "did not get a reponse".to_owned(),
        }
    }
}

/// A job that a worker of type `W` turns into a result of type `T`.
pub trait Mapper<W, T> {
    /// Runs the job on `worker`.
    fn map(&self, worker: &W) -> T;
}

/// A value that folds the results of the jobs into itself, one at a time.
pub trait Reduce<T> {
    /// The value with `element` folded in.
    #[must_use]
    fn reduce(self, element: T) -> Self;
}

} // verus!
