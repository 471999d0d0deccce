//! The outcome of polling a Python callback for a mailbox call.

use vstd::prelude::*;
use vstd::string::StringExecFns;

verus! {

/// A mailbox address on a 64-bit host.
pub type MBPtrT = u64;

/// Whether a polled call has produced its result.
#[derive(Clone, Copy, Debug, PartialEq, Eq, Structural)]
pub enum MBCallStatus {
    Ready,
    Pending,
}

/// The message of a call to a method that no callback provides.
pub open spec fn missing_method_message(method: Seq<char>) -> Seq<char> {
    method + " does not exist!"@
}

/// What the poll of `method` answers, given what the callback reported:
/// whether the method exists, whether the call has finished, and its
/// return value. A missing method is an error; an unfinished call is
/// pending with the value 0; a finished one is ready with its value.
pub fn poll_outcome(method: &str, exists: bool, finished: bool, ret: MBPtrT) -> (r: Result<(MBCallStatus, MBPtrT), String>)
    ensures
        match r {
            Ok((status, value)) => exists && if finished {
                status == MBCallStatus::Ready && value == ret
            } else {
                status == MBCallStatus::Pending && value == 0
            },
            Err(message) => !exists && message@ == missing_method_message(method@),
        },
{
    if !exists {
        let message = String::from_str(method).concat(" does not exist!");
        return Err(message);
    }
    if finished {
        Ok((MBCallStatus::Ready, ret))
    } else {
        Ok((MBCallStatus::Pending, 0))
    }
}

} // verus!
