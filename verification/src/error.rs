//! The errors of the library.

use vstd::prelude::*;

verus! {

/// Why the services to start could not be put in order.
#[derive(Debug)]
pub enum DependencyError {
    /// service '{0}' not in list
    UnknownDependency(String),
    /// one or more dependencies are masked
    MaskedDepedencies,
    /// dependencies are cyclic
    CyclicDepedencies,
}

/// The mathematical value of a [`DependencyError`].
pub enum ResolveFailure {
    Unknown(Seq<char>),
    Masked,
    Cyclic,
}

impl View for DependencyError {
    type V = ResolveFailure;

    open spec fn view(&self) -> ResolveFailure {
        match self {
            DependencyError::UnknownDependency(s) => ResolveFailure::Unknown(s@),
            DependencyError::MaskedDepedencies => ResolveFailure::Masked,
            DependencyError::CyclicDepedencies => ResolveFailure::Cyclic,
        }
    }
}

#[verifier::external_type_specification]
#[verifier::external_body]
pub struct ExIoError(std::io::Error);

/// Why a process could not be prepared, started or kept.
#[derive(Debug)]
pub enum ProcessError {
    IOError(std::io::Error),
    /// required process is gone
    RequiredProcessGone,
    /// manually stopped such as by keyboard interrupt
    ManuallyStopped,
    /// all services stopped
    AllServicesStopped,
    /// command for {0} couldn't be parsed
    CommandParse(String),
}

/// Why the worker stopped.
#[derive(Debug)]
pub enum WorkerError {
    IOError(std::io::Error),
    /// required process is gone
    RequiredProcessGone,
    /// manually stopped such as by keyboard interrupt
    ManuallyStopped,
    /// all services stopped
    AllServicesStopped,
    /// command for {0} couldn't be parsed
    CommandParse(String),
    /// Message queue disconnected
    Disconnected,
    /// the services to start could not be put in order
    Dependency(DependencyError),
}

impl From<ProcessError> for WorkerError {
    fn from(value: ProcessError) -> (r: Self) {
        match value {
            ProcessError::IOError(error) => WorkerError::IOError(error),
            ProcessError::RequiredProcessGone => WorkerError::RequiredProcessGone,
            ProcessError::ManuallyStopped => WorkerError::ManuallyStopped,
            ProcessError::AllServicesStopped => WorkerError::AllServicesStopped,
            ProcessError::CommandParse(s) => WorkerError::CommandParse(s),
        }
    }
}

impl vstd::std_specs::convert::FromSpecImpl<ProcessError> for WorkerError {
    open spec fn obeys_from_spec() -> bool {
        true
    }

    open spec fn from_spec(value: ProcessError) -> WorkerError {
        match value {
            ProcessError::IOError(error) => WorkerError::IOError(error),
            ProcessError::RequiredProcessGone => WorkerError::RequiredProcessGone,
            ProcessError::ManuallyStopped => WorkerError::ManuallyStopped,
            ProcessError::AllServicesStopped => WorkerError::AllServicesStopped,
            ProcessError::CommandParse(s) => WorkerError::CommandParse(s),
        }
    }
}

} // verus!
