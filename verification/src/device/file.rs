//! What a device on top of a file decides: which requests lie in bounds, and how a
//! transfer goes on that the operating system carries out in parts.
use vstd::prelude::*;

use crate::device::block::{in_bounds, DeviceError};

verus! {

/// Checks that a request lies within the capacity.
pub fn bounds(offset: u64, len: usize, capacity: u64) -> (r: Result<(), DeviceError>)
    ensures
        r == if in_bounds(offset, len as nat, capacity as nat) {
            Ok(())
        } else {
            Err(DeviceError::OutOfBounds { offset, len, capacity })
        },
{
    match offset.checked_add(len as u64) {
        Some(end) => {
            if end > capacity {
                Err(DeviceError::OutOfBounds { offset, len, capacity })
            } else {
                Ok(())
            }
        },
        None => Err(DeviceError::OutOfBounds { offset, len, capacity }),
    }
}

/// How a transfer stands.
#[derive(Clone, Copy, Debug, PartialEq, Eq, Structural)]
pub enum Transfer {
    /// Every byte was moved.
    Complete,
    /// The bytes from `done` on are still to be moved, to or from `offset`.
    Remaining { done: usize, offset: u64 },
    /// No byte was moved where one should have been.
    Stalled,
}

/// How a transfer of `len` bytes at `offset` stands after `done` of them.
pub open spec fn standing(offset: u64, len: usize, done: int) -> Transfer {
    if done >= len {
        Transfer::Complete
    } else {
        Transfer::Remaining { done: done as usize, offset: (offset + done) as u64 }
    }
}

/// How a transfer begins: one of no bytes is complete at once.
pub fn begin_transfer(offset: u64, len: usize) -> (transfer: Transfer)
    ensures
        transfer == standing(offset, len, 0),
{
    if len == 0 {
        Transfer::Complete
    } else {
        Transfer::Remaining { done: 0, offset }
    }
}

/// How a transfer stands after the operating system moved some bytes of it.
pub fn continue_transfer(offset: u64, len: usize, done: usize, moved: usize) -> (transfer: Transfer)
    requires
        offset + len <= u64::MAX,
        done <= len,
    ensures
        transfer == if moved == 0 {
            Transfer::Stalled
        } else {
            standing(offset, len, done + moved)
        },
{
    if moved == 0 {
        Transfer::Stalled
    } else if moved >= len - done {
        Transfer::Complete
    } else {
        Transfer::Remaining { done: done + moved, offset: offset + (done + moved) as u64 }
    }
}

/// A transfer that goes on gets closer to its end with every step, and never leaves the
/// range that was asked for.
pub proof fn law_transfer_progresses(offset: u64, len: usize, done: usize, moved: usize)
    requires
        offset + len <= u64::MAX,
        done < len,
        moved > 0,
    ensures
        match standing(offset, len, done + moved) {
            Transfer::Remaining { done: after, offset: at } => done < after < len && at == offset
                + after,
            Transfer::Complete => done + moved >= len,
            Transfer::Stalled => false,
        },
{
}

} // verus!
