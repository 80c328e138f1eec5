//! Errors of index operations.

use vstd::prelude::*;
use std::sync::atomic::AtomicBool;

verus! {

/// Why an index operation failed.
#[derive(Debug, PartialEq, Eq)]
pub enum OperationError {
    /// The service cannot carry the operation out.
    ServiceError { description: String },
    /// The request is not one that the index supports.
    ValidationError { description: String },
    /// The operation was asked to stop.
    Cancelled,
}

/// Result of an index operation.
pub type OperationResult<T> = Result<T, OperationError>;

impl OperationError {
    /// A service error with the given description.
    pub fn service_error(description: &str) -> (error: OperationError)
        ensures
            error matches OperationError::ServiceError { description: text } && text@
                == description@,
    {
        OperationError::ServiceError { description: description.to_owned() }
    }

    /// A validation error with the given description.
    pub fn validation_error(description: &str) -> (error: OperationError)
        ensures
            error matches OperationError::ValidationError { description: text } && text@
                == description@,
    {
        OperationError::ValidationError { description: description.to_owned() }
    }

    /// Whether this is a service error that says `text`.
    pub open spec fn is_service(self, text: Seq<char>) -> bool {
        self matches OperationError::ServiceError { description } && description@ == text
    }

    /// Whether this is a validation error that says `text`.
    pub open spec fn is_validation(self, text: Seq<char>) -> bool {
        self matches OperationError::ValidationError { description } && description@ == text
    }
}

/// Something that a long operation asks, now and then, whether it should stop.
pub trait StopSignal {
    /// Whether the signal may answer `stopped` when it is asked.
    open spec fn may_answer(&self, stopped: bool) -> bool {
        true
    }

    /// Whether the operation should stop now.
    fn is_stopped(&self) -> (stopped: bool)
        ensures
            self.may_answer(stopped),
    ;
}

/// A flag that another thread may raise at any time.
impl StopSignal for AtomicBool {
    /// The answer is what a relaxed load of the flag gives.
    open spec fn may_answer(&self, stopped: bool) -> bool {
        call_ensures(AtomicBool::load, (self, std::sync::atomic::Ordering::Relaxed), stopped)
    }

    fn is_stopped(&self) -> (stopped: bool) {
        self.load(std::sync::atomic::Ordering::Relaxed)
    }
}

/// The signal of an operation that always runs to its end.
pub struct NeverStopped;

impl StopSignal for NeverStopped {
    open spec fn may_answer(&self, stopped: bool) -> bool {
        !stopped
    }

    fn is_stopped(&self) -> (stopped: bool) {
        false
    }
}

/// What an operation that was asked whether it is stopped goes on with.
pub fn stop_result(stopped: bool) -> (result: OperationResult<()>)
    ensures
        result == if stopped {
            Err::<(), OperationError>(OperationError::Cancelled)
        } else {
            Ok(())
        },
{
    if stopped {
        Err(OperationError::Cancelled)
    } else {
        Ok(())
    }
}

/// Asks the signal once, and fails with [`OperationError::Cancelled`] exactly when the
/// answer is to stop.
pub fn check_process_stopped<Stop: StopSignal>(stopped: &Stop) -> (result: OperationResult<()>)
    ensures
        stopped.may_answer(result is Err),
        result matches Err(error) ==> error == OperationError::Cancelled,
{
    stop_result(stopped.is_stopped())
}

} // verus!
