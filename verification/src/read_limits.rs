//! Ceilings on what one read may allocate or enumerate.
//!
//! Each ceiling is inclusive, and each is checked before the allocation it governs.

use vstd::prelude::*;

verus! {

/// Atomic persisted-frame and object-count admission.
#[derive(Clone, Copy, Debug, PartialEq, Eq, Structural)]
pub struct ReadLimits {
    pub max_stored_frame_bytes: u64,
    pub max_decoded_frame_bytes: u64,
    pub max_directory_entries: u64,
    pub max_wal_frames: u64,
    pub max_fold_blocks: u64,
}

/// A ceiling that would be crossed.
#[derive(Clone, Copy, Debug, PartialEq, Eq, Structural)]
pub enum ReadAdmissionError {
    StoredFrameTooLarge { actual: u64, allowed: u64 },
    DecodedFrameTooLarge { actual: u64, allowed: u64 },
    TooManyDirectoryEntries { actual: u64, allowed: u64 },
    TooManyWalFrames { actual: u64, allowed: u64 },
    TooManyFoldBlocks { actual: u64, allowed: u64 },
}

/// The verdict on one frame: its stored size is judged before its decoded size.
pub open spec fn frame_refusal(limits: ReadLimits, stored: u64, decoded: u64) -> Option<
    ReadAdmissionError,
> {
    if stored > limits.max_stored_frame_bytes {
        Some(
            ReadAdmissionError::StoredFrameTooLarge {
                actual: stored,
                allowed: limits.max_stored_frame_bytes,
            },
        )
    } else if decoded > limits.max_decoded_frame_bytes {
        Some(
            ReadAdmissionError::DecodedFrameTooLarge {
                actual: decoded,
                allowed: limits.max_decoded_frame_bytes,
            },
        )
    } else {
        None
    }
}

impl Default for ReadLimits {
    fn default() -> (r: ReadLimits)
        ensures
            r.max_stored_frame_bytes == 512 * 1024 * 1024,
            r.max_decoded_frame_bytes == 512 * 1024 * 1024,
            r.max_directory_entries == 100_000,
            r.max_wal_frames == 100_000,
            r.max_fold_blocks == 1_000_000,
    {
        ReadLimits {
            max_stored_frame_bytes: 512 * 1024 * 1024,
            max_decoded_frame_bytes: 512 * 1024 * 1024,
            max_directory_entries: 100_000,
            max_wal_frames: 100_000,
            max_fold_blocks: 1_000_000,
        }
    }
}

impl ReadLimits {
    /// Admit one frame by its stored and decoded sizes.
    pub fn admit_frame(&self, stored: u64, decoded: u64) -> (r: Result<(), ReadAdmissionError>)
        ensures
            match r {
                Ok(()) => frame_refusal(*self, stored, decoded) is None,
                Err(e) => frame_refusal(*self, stored, decoded) == Some(e),
            },
    {
        if stored > self.max_stored_frame_bytes {
            return Err(
                ReadAdmissionError::StoredFrameTooLarge {
                    actual: stored,
                    allowed: self.max_stored_frame_bytes,
                },
            );
        }
        if decoded > self.max_decoded_frame_bytes {
            return Err(
                ReadAdmissionError::DecodedFrameTooLarge {
                    actual: decoded,
                    allowed: self.max_decoded_frame_bytes,
                },
            );
        }
        Ok(())
    }

    /// Admit one frame by its stored size alone.
    pub fn admit_stored(&self, stored: u64) -> (r: Result<(), ReadAdmissionError>)
        ensures
            match r {
                Ok(()) => stored <= self.max_stored_frame_bytes,
                Err(e) => stored > self.max_stored_frame_bytes && e
                    == (ReadAdmissionError::StoredFrameTooLarge {
                    actual: stored,
                    allowed: self.max_stored_frame_bytes,
                }),
            },
    {
        if stored > self.max_stored_frame_bytes {
            return Err(
                ReadAdmissionError::StoredFrameTooLarge {
                    actual: stored,
                    allowed: self.max_stored_frame_bytes,
                },
            );
        }
        Ok(())
    }

    /// Admit a number of directory entries.
    pub fn admit_directory_entries(&self, count: u64) -> (r: Result<(), ReadAdmissionError>)
        ensures
            match r {
                Ok(()) => count <= self.max_directory_entries,
                Err(e) => count > self.max_directory_entries && e
                    == (ReadAdmissionError::TooManyDirectoryEntries {
                    actual: count,
                    allowed: self.max_directory_entries,
                }),
            },
    {
        if count > self.max_directory_entries {
            return Err(
                ReadAdmissionError::TooManyDirectoryEntries {
                    actual: count,
                    allowed: self.max_directory_entries,
                },
            );
        }
        Ok(())
    }

    /// Admit a number of write-ahead log frames.
    pub fn admit_wal_frames(&self, count: u64) -> (r: Result<(), ReadAdmissionError>)
        ensures
            match r {
                Ok(()) => count <= self.max_wal_frames,
                Err(e) => count > self.max_wal_frames && e
                    == (ReadAdmissionError::TooManyWalFrames {
                    actual: count,
                    allowed: self.max_wal_frames,
                }),
            },
    {
        if count > self.max_wal_frames {
            return Err(
                ReadAdmissionError::TooManyWalFrames {
                    actual: count,
                    allowed: self.max_wal_frames,
                },
            );
        }
        Ok(())
    }
}

} // verus!
