//! The decisions of the localhost socket helpers: which client a caller's
//! id names, when a fixed-size read may go ahead, when a string read ends,
//! and the status code handed back over the C interface.

use vstd::prelude::*;

verus! {

/// Position of the client that `id` names among `clients` connected
/// clients (ids count from one): `None` when there is no such client.
pub fn client_index(id: usize, clients: usize) -> (r: Option<usize>)
    requires
        id > 0,
    ensures
        r == if id <= clients {
            Some((id - 1) as usize)
        } else {
            None::<usize>
        },
{
    if id > clients {
        None
    } else {
        Some(id - 1)
    }
}

/// What a fixed-size read does after one peek.
#[derive(Debug, PartialEq, Eq, Structural)]
pub enum PeekStep {
    /// Peek again; this many bytes have been seen so far.
    Again(usize),
    /// Enough bytes are waiting: read them.
    Read,
    /// Stop and hand back this status.
    Stop(i32),
}

/// The decision of a fixed-size read of `size` bytes after a peek that
/// found `peeked` bytes (`None`: the peek failed), `seen` bytes having been
/// counted before: a failed peek stops with -1, an empty one with 0;
/// otherwise the count grows, and the read goes ahead once it reaches
/// `size`.
pub fn peek_step(seen: usize, size: usize, peeked: Option<usize>) -> (step: PeekStep)
    requires
        seen < size,
        peeked matches Some(n) ==> n <= size,
        size <= usize::MAX / 2,
    ensures
        step == match peeked {
            None => PeekStep::Stop(-1i32),
            Some(n) => if n == 0 {
                PeekStep::Stop(0i32)
            } else if seen + n >= size {
                PeekStep::Read
            } else {
                PeekStep::Again((seen + n) as usize)
            },
        },
{
    match peeked {
        None => PeekStep::Stop(-1),
        Some(n) => {
            if n == 0 {
                PeekStep::Stop(0)
            } else if seen + n >= size {
                PeekStep::Read
            } else {
                PeekStep::Again(seen + n)
            }
        },
    }
}

/// What a string read does after reading one byte.
#[derive(Debug, PartialEq, Eq, Structural)]
pub enum ReadStringStep {
    /// Read the next byte.
    Again,
    /// The string has ended.
    Ended,
    /// The read failed.
    Failed,
}

/// The decision of a string read after one read of a single byte:
/// `read` is `None` when the read failed, else the count read and the
/// byte. The string ends at end of input (a count of zero) or at a zero
/// byte.
pub fn read_string_step(read: Option<(usize, u8)>) -> (step: ReadStringStep)
    ensures
        step == match read {
            None => ReadStringStep::Failed,
            Some((n, byte)) => if n == 0 || byte == 0 {
                ReadStringStep::Ended
            } else {
                ReadStringStep::Again
            },
        },
{
    match read {
        None => ReadStringStep::Failed,
        Some((n, byte)) => {
            if n == 0 || byte == 0 {
                ReadStringStep::Ended
            } else {
                ReadStringStep::Again
            }
        },
    }
}

/// The status code of a socket operation over the C interface: the count
/// it reports, as an `i32`, or -1 when it failed.
pub fn io_status(count: Option<usize>) -> (status: i32)
    ensures
        status == match count {
            Some(n) => n as i32,
            None => -1i32,
        },
{
    match count {
        Some(n) => n as i32,
        None => -1,
    }
}

} // verus!
