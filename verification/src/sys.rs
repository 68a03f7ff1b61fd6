//! What a platform guarantees, stated as values that a protocol can decide on.

use vstd::prelude::*;

verus! {

/// What a rename over an open destination guarantees once it returns.
#[derive(Clone, Copy, Debug, PartialEq, Eq, Structural)]
pub enum ReplaceOpenDurability {
    /// One step to every observer, durable once the directory is synchronized. A crash leaves the
    /// old name or the new one.
    Atomic,
    /// No barrier makes the replacement durable. A crash may leave old, new or neither, so a
    /// protocol must hold a durable anchor across the step.
    Lagged,
}

/// The guarantee of a platform. Windows is the one whose operations do not make such a
/// replacement durable.
pub fn replace_open_durability(windows: bool) -> (r: ReplaceOpenDurability)
    ensures
        r == if windows {
            ReplaceOpenDurability::Lagged
        } else {
            ReplaceOpenDurability::Atomic
        },
{
    if windows {
        ReplaceOpenDurability::Lagged
    } else {
        ReplaceOpenDurability::Atomic
    }
}

/// Bytes in filesystem blocks; none where the product does not fit.
pub fn checked_filesystem_bytes(blocks: u64, block_size: u64) -> (r: Option<u64>)
    ensures
        match r {
            Some(n) => n == blocks * block_size,
            None => blocks * block_size > u64::MAX,
        },
{
    blocks.checked_mul(block_size)
}

/// Why a range cannot be deallocated.
#[derive(Clone, Copy, Debug, PartialEq, Eq, Structural)]
pub enum PunchRangeError {
    Overflow,
    /// It ends past the offsets the platform can name.
    PastOffsets,
}

/// The end of a range to be deallocated, where the platform counts offsets in 63 bits.
pub fn punch_end(off: u64, len: u64) -> (r: Result<u64, PunchRangeError>)
    ensures
        r == if off + len > u64::MAX {
            Err::<u64, PunchRangeError>(PunchRangeError::Overflow)
        } else if off + len > i64::MAX {
            Err::<u64, PunchRangeError>(PunchRangeError::PastOffsets)
        } else {
            Ok::<u64, PunchRangeError>((off + len) as u64)
        },
{
    match off.checked_add(len) {
        None => Err(PunchRangeError::Overflow),
        Some(end) => if end > i64::MAX as u64 {
            Err(PunchRangeError::PastOffsets)
        } else {
            Ok(end)
        },
    }
}

// ---------------------------------------------------------------------------------------------
// Positioned transfers.
// ---------------------------------------------------------------------------------------------
/// What one positioned read or write came back with.
#[derive(Clone, Copy, Debug, PartialEq, Eq, Structural)]
pub enum TransferEvent {
    /// So many bytes went.
    Moved { n: usize },
    /// The call was interrupted before anything went.
    Interrupted,
}

/// What a transfer does next.
#[derive(Clone, Copy, Debug, PartialEq, Eq, Structural)]
pub enum TransferStep {
    /// Call again for the rest.
    Call { at: usize, off: u64, rest: usize },
    Done,
    /// No bytes went although some were wanted: the end of the file, or a write that makes no
    /// progress.
    Stalled,
}

/// A transfer of a buffer at an offset, part by part. A short transfer means to call again.
#[derive(Clone, Copy, Debug, PartialEq, Eq, Structural)]
pub struct Transfer {
    pub off: u64,
    pub len: usize,
    pub done: usize,
}

impl Transfer {
    pub open spec fn wf(&self) -> bool {
        self.done <= self.len && self.off + self.len <= u64::MAX
    }

    /// Begin a transfer; none where it would end past the offsets there are.
    pub fn new(off: u64, len: usize) -> (r: Option<Transfer>)
        ensures
            match r {
                Some(t) => t == (Transfer { off, len, done: 0 }) && t.wf(),
                None => off + len > u64::MAX,
            },
    {
        match off.checked_add(len as u64) {
            Some(_) => Some(Transfer { off, len, done: 0 }),
            None => None,
        }
    }

    /// The call that is due.
    pub fn step(&self) -> (r: TransferStep)
        requires
            self.wf(),
        ensures
            r == if self.done == self.len {
                TransferStep::Done
            } else {
                TransferStep::Call {
                    at: self.done,
                    off: (self.off + self.done) as u64,
                    rest: (self.len - self.done) as usize,
                }
            },
            r is Done <==> self.done == self.len,
            r matches TransferStep::Call { at, off, rest } ==> at + rest == self.len && rest > 0
                && off == self.off + at,
    {
        if self.done == self.len {
            TransferStep::Done
        } else {
            TransferStep::Call {
                at: self.done,
                off: self.off + self.done as u64,
                rest: self.len - self.done,
            }
        }
    }

    /// Take in what a call came back with. More than was asked for counts as all of it.
    pub fn advance(&mut self, event: TransferEvent) -> (r: TransferStep)
        requires
            old(self).wf(),
            old(self).done < old(self).len,
        ensures
            final(self).wf(),
            final(self).off == old(self).off,
            final(self).len == old(self).len,
            match event {
                TransferEvent::Interrupted => {
                    &&& final(self).done == old(self).done
                    &&& r == (TransferStep::Call {
                        at: final(self).done,
                        off: (final(self).off + final(self).done) as u64,
                        rest: (final(self).len - final(self).done) as usize,
                    })
                },
                TransferEvent::Moved { n } => {
                    let rest = old(self).len - old(self).done;
                    &&& final(self).done == old(self).done + if n <= rest {
                        n as int
                    } else {
                        rest
                    }
                    &&& r == if n == 0 {
                        TransferStep::Stalled
                    } else if n >= rest {
                        TransferStep::Done
                    } else {
                        TransferStep::Call {
                            at: final(self).done,
                            off: (final(self).off + final(self).done) as u64,
                            rest: (final(self).len - final(self).done) as usize,
                        }
                    }
                },
            },
    {
        match event {
            TransferEvent::Interrupted => self.step(),
            TransferEvent::Moved { n } => {
                if n == 0 {
                    return TransferStep::Stalled;
                }
                let rest: usize = self.len - self.done;
                if n >= rest {
                    self.done = self.len;
                } else {
                    self.done = self.done + n;
                }
                self.step()
            },
        }
    }
}

} // verus!
