//! Decisions around files: refused symlinks, removals of what may be missing,
//! and reads at a position.

use super::evidence::IoErrorKind;
use crate::error::StoreError;
use vstd::prelude::*;

verus! {

/// Refuses to write to a path whose last component is a symlink. A path that
/// could not be looked at is not refused.
pub fn reject_symlink_leaf(is_symlink: bool, path: &str, purpose: &str) -> (r: Result<
    (),
    StoreError,
>)
    ensures
        r is Ok <==> !is_symlink,
        r matches Err(e) ==> (e matches StoreError::Io { kind, message } && kind
            == IoErrorKind::InvalidInput && message@ == "refusing to write "@ + purpose@
            + " through symlink "@ + path@),
{
    if !is_symlink {
        return Ok(());
    }
    let mut message = "refusing to write ".to_owned();
    message.append(purpose);
    message.append(" through symlink ");
    message.append(path);
    Err(StoreError::Io { kind: IoErrorKind::InvalidInput, message })
}

/// Refuses to write a cache through a symlink, as a failure of the cache.
pub fn reject_cache_symlink_leaf(is_symlink: bool, path: &str) -> (r: Result<(), StoreError>)
    ensures
        r is Ok <==> !is_symlink,
        r matches Err(e) ==> (e matches StoreError::CacheFailed { message } && message@
            == "refusing to write "@ + "cache path"@ + " through symlink "@ + path@),
{
    match reject_symlink_leaf(is_symlink, path, "cache path") {
        Ok(()) => Ok(()),
        Err(StoreError::Io { kind: _, message }) => Err(StoreError::CacheFailed { message }),
        Err(e) => Err(e),
    }
}

/// Whether a removal removed anything: a target that is missing counts as
/// nothing to remove.
pub fn removed_if_present(removal: Result<(), IoErrorKind>) -> (r: Result<bool, IoErrorKind>)
    ensures
        r == match removal {
            Ok(()) => Ok::<bool, IoErrorKind>(true),
            Err(kind) => if kind == IoErrorKind::NotFound {
                Ok(false)
            } else {
                Err(kind)
            },
        },
{
    match removal {
        Ok(()) => Ok(true),
        Err(kind) => if kind == IoErrorKind::NotFound {
            Ok(false)
        } else {
            Err(kind)
        },
    }
}

/// Why a read at a position did not fill its buffer.
#[derive(Clone, Copy, Debug, PartialEq, Eq, Structural)]
pub enum PositionedReadError {
    /// Reading failed.
    Io(IoErrorKind),
    /// The file ended.
    ShortRead {
        /// Bytes that were read.
        bytes_read: usize,
    },
}

/// What to do next in a read at a position.
#[derive(Clone, Copy, Debug, PartialEq, Eq, Structural)]
pub enum ReadStep {
    /// The buffer is full.
    Done,
    /// Read into the rest of the buffer.
    ReadAt {
        /// Position in the file.
        offset: u64,
        /// Where the rest of the buffer starts.
        start: usize,
    },
}

/// A read at a position that goes on until its buffer is full.
pub struct PositionedRead {
    offset: u64,
    wanted: usize,
    total_read: usize,
}

impl PositionedRead {
    /// Position in the file.
    pub closed spec fn offset(&self) -> int {
        self.offset as int
    }

    /// Length of the buffer.
    pub closed spec fn wanted(&self) -> int {
        self.wanted as int
    }

    /// Bytes that were read.
    pub closed spec fn total_read(&self) -> int {
        self.total_read as int
    }

    /// The buffer's end has a position, and no more was read than it holds.
    pub closed spec fn wf(&self) -> bool {
        self.total_read <= self.wanted && self.offset + self.wanted <= u64::MAX
    }

    /// Starts to read `wanted` bytes at `offset`.
    pub fn begin(offset: u64, wanted: usize) -> (r: PositionedRead)
        requires
            offset + wanted <= u64::MAX,
        ensures
            r.wf(),
            r.offset() == offset,
            r.wanted() == wanted,
            r.total_read() == 0,
    {
        PositionedRead { offset, wanted, total_read: 0 }
    }

    /// What to do next.
    pub fn step(&self) -> (r: ReadStep)
        requires
            self.wf(),
        ensures
            match r {
                ReadStep::Done => self.total_read() == self.wanted(),
                ReadStep::ReadAt { offset, start } => self.total_read() < self.wanted() && offset
                    == self.offset() + self.total_read() && start == self.total_read(),
            },
    {
        if self.total_read < self.wanted {
            ReadStep::ReadAt { offset: self.offset + self.total_read as u64, start: self.total_read }
        } else {
            ReadStep::Done
        }
    }

    /// Takes note of a read into the rest of the buffer.
    pub fn took(&mut self, read: Result<usize, IoErrorKind>) -> (r: Result<
        (),
        PositionedReadError,
    >)
        requires
            old(self).wf(),
            read matches Ok(n) ==> n <= old(self).wanted() - old(self).total_read(),
        ensures
            final(self).wf(),
            final(self).offset() == old(self).offset(),
            final(self).wanted() == old(self).wanted(),
            match read {
                Err(kind) => r == Err::<(), PositionedReadError>(PositionedReadError::Io(kind))
                    && final(self).total_read() == old(self).total_read(),
                Ok(n) => if n == 0 {
                    &&& r matches Err(PositionedReadError::ShortRead { bytes_read })
                        && bytes_read == old(self).total_read()
                    &&& final(self).total_read() == old(self).total_read()
                } else {
                    r is Ok && final(self).total_read() == old(self).total_read() + n
                },
            },
    {
        match read {
            Err(kind) => Err(PositionedReadError::Io(kind)),
            Ok(n) => {
                if n == 0 {
                    return Err(
                        PositionedReadError::ShortRead { bytes_read: self.total_read },
                    );
                }
                self.total_read = self.total_read + n;
                Ok(())
            },
        }
    }
}

} // verus!
