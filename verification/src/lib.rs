//! Verification-host support library: the static memory store that
//! collects byte writes per HDL memory instance and exports them, the
//! decisions of the localhost socket helpers, and the outcome of a polled
//! Python callback.

pub mod mem;
pub mod rpcs;
pub mod sockets;
