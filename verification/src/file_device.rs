//! What a file-backed device decides: what it may read, write and resize, and what it reports.
//! The file itself is read and written by the caller.
use crate::error::Error;
use vstd::prelude::*;

verus! {

/// What kind of file a device stands on.
#[derive(Debug, Clone, Copy, PartialEq, Eq, Structural)]
pub enum FileKind {
    /// A regular file, whose metadata has its length.
    Regular,
    /// A device node, whose metadata says zero and which has to be measured.
    Node,
}

/// The size to report for a file: the length in the metadata of a regular file, zero too, and
/// what was measured of a device node. A node that could not be measured has none, and does not
/// open.
pub fn reported_size(kind: FileKind, metadata_len: u64, measured: Option<u64>) -> (r: Option<u64>)
    ensures
        r == match kind {
            FileKind::Regular => Some(metadata_len),
            FileKind::Node => measured,
        },
{
    match kind {
        FileKind::Regular => Some(metadata_len),
        FileKind::Node => measured,
    }
}

/// What to do next about a read.
pub enum ReadNext {
    /// The buffer is full.
    Done,
    /// Read at this offset, into the buffer from this position on.
    Ask { at: u64, from: usize },
    /// The read has failed.
    Fail(Error),
}

/// A read that is put together from what the file gives: each time it gives something, the rest
/// is asked for; where it gives nothing, the read is short by what is missing.
pub struct ReadProgress {
    offset: u64,
    want: usize,
    total: usize,
}

/// A read of `want` bytes at `offset`, of which `total` have come.
pub struct ProgressView {
    pub offset: u64,
    pub want: usize,
    pub total: usize,
}

/// What to do next when `total` bytes have come.
pub open spec fn next_of(p: ProgressView) -> ReadNext {
    if p.total >= p.want {
        ReadNext::Done
    } else if p.offset + p.total > u64::MAX {
        ReadNext::Fail(Error::ShortRead { offset: p.offset, want: p.want, got: p.total })
    } else {
        ReadNext::Ask { at: (p.offset + p.total) as u64, from: p.total }
    }
}

impl View for ReadProgress {
    type V = ProgressView;

    closed spec fn view(&self) -> ProgressView {
        ProgressView { offset: self.offset, want: self.want, total: self.total }
    }
}

impl ReadProgress {
    /// A read that has not begun.
    pub fn new(offset: u64, want: usize) -> (r: Self)
        ensures
            r@ == (ProgressView { offset, want, total: 0 }),
    {
        ReadProgress { offset, want, total: 0 }
    }

    /// What to do next.
    pub fn next(&self) -> (r: ReadNext)
        ensures
            r == next_of(self@),
    {
        if self.total >= self.want {
            return ReadNext::Done;
        }
        match self.offset.checked_add(self.total as u64) {
            Some(at) => ReadNext::Ask { at, from: self.total },
            None => ReadNext::Fail(
                Error::ShortRead { offset: self.offset, want: self.want, got: self.total },
            ),
        }
    }

    /// The file gave `n` bytes. Nothing is the end of it: the read has failed, naming what was
    /// asked for and what arrived.
    pub fn got(&mut self, n: usize) -> (r: ReadNext)
        requires
            old(self)@.total + n <= old(self)@.want,
        ensures
            final(self)@ == (ProgressView {
                total: (old(self)@.total + n) as usize,
                ..old(self)@
            }),
            n == 0 && old(self)@.total < old(self)@.want ==> r == ReadNext::Fail(
                Error::ShortRead {
                    offset: old(self)@.offset,
                    want: old(self)@.want,
                    got: old(self)@.total,
                },
            ),
            n > 0 || old(self)@.total == old(self)@.want ==> r == next_of(final(self)@),
    {
        if n == 0 && self.total < self.want {
            return ReadNext::Fail(
                Error::ShortRead { offset: self.offset, want: self.want, got: self.total },
            );
        }
        self.total = self.total + n;
        self.next()
    }
}

/// The state of a file-backed device.
pub struct FileView {
    pub size: u64,
    pub writable: bool,
    pub kind: FileKind,
}

/// What a file-backed device knows of its file.
pub struct FileState {
    size: u64,
    writable: bool,
    kind: FileKind,
}

impl View for FileState {
    type V = FileView;

    closed spec fn view(&self) -> FileView {
        FileView { size: self.size, writable: self.writable, kind: self.kind }
    }
}

/// Whether the length of the file can be set: a regular file that is open for writing.
pub open spec fn can_be_resized(s: FileView) -> bool {
    s.writable && s.kind == FileKind::Regular
}

/// The smaller of two lengths.
pub open spec fn narrower(a: u64, b: u64) -> u64 {
    if a < b {
        a
    } else {
        b
    }
}

impl FileState {
    /// A file that was opened with this size.
    pub fn new(size: u64, writable: bool, kind: FileKind) -> (r: Self)
        ensures
            r@ == (FileView { size, writable, kind }),
    {
        FileState { size, writable, kind }
    }

    /// The size to report: that of the opening, until the length is set.
    pub fn size_bytes(&self) -> (r: u64)
        ensures
            r == self@.size,
    {
        self.size
    }

    /// Whether the file is open for writing.
    pub fn is_writable(&self) -> (r: bool)
        ensures
            r == self@.writable,
    {
        self.writable
    }

    /// Whether the length can be set.
    pub fn can_grow(&self) -> (r: bool)
        ensures
            r == can_be_resized(self@),
    {
        self.writable && self.kind == FileKind::Regular
    }

    /// Whether a flush has anything to do.
    pub fn needs_flush(&self) -> (r: bool)
        ensures
            r == self@.writable,
    {
        self.writable
    }

    /// Whether `len` bytes may be written at `offset`. A write past the end is refused, not an
    /// extension.
    pub fn check_write(&self, offset: u64, len: usize) -> (r: Result<(), Error>)
        ensures
            !self@.writable ==> r == Err::<(), Error>(Error::ReadOnly),
            self@.writable && offset + len > self@.size ==> r == Err::<(), Error>(
                Error::OutOfBounds { offset, len: len as u64, size: self@.size },
            ),
            self@.writable && offset + len <= self@.size ==> r is Ok,
    {
        if !self.writable {
            return Err(Error::ReadOnly);
        }
        let refusal = Error::OutOfBounds { offset, len: len as u64, size: self.size };
        match offset.checked_add(len as u64) {
            None => Err(refusal),
            Some(end) => {
                if end > self.size {
                    Err(refusal)
                } else {
                    Ok(())
                }
            },
        }
    }

    /// Before the length of the file is set: the narrower of the two lengths is reported from
    /// now on, so that the size never exceeds the file. Hands back the size to restore if the
    /// file refuses. A file that cannot be resized is refused before it is touched.
    pub fn begin_set_len(&mut self, new_len: u64) -> (r: Result<u64, Error>)
        ensures
            !can_be_resized(old(self)@) ==> r == Err::<u64, Error>(Error::ReadOnly) && final(self)@
                == old(self)@,
            can_be_resized(old(self)@) ==> r == Ok::<u64, Error>(old(self)@.size) && final(self)@
                == (FileView { size: narrower(old(self)@.size, new_len), ..old(self)@ }),
    {
        if !self.can_grow() {
            return Err(Error::ReadOnly);
        }
        let was: u64 = self.size;
        if new_len < self.size {
            self.size = new_len;
        }
        Ok(was)
    }

    /// After the file has been asked: its new length is reported if it took it, the old one if
    /// it did not.
    pub fn finish_set_len(&mut self, was: u64, new_len: u64, taken: bool)
        ensures
            final(self)@ == (FileView {
                size: if taken {
                    new_len
                } else {
                    was
                },
                ..old(self)@
            }),
    {
        self.size = if taken {
            new_len
        } else {
            was
        };
    }
}

/// While the length is being set, the reported size exceeds neither the old nor the new length
/// of the file; when it has been set, it is the new one, and a write is bounded by it.
pub proof fn size_never_exceeds_the_file(old_len: u64, new_len: u64)
    ensures
        narrower(old_len, new_len) <= old_len,
        narrower(old_len, new_len) <= new_len,
        narrower(old_len, new_len) == old_len || narrower(old_len, new_len) == new_len,
{
}

/// A read that is under way asks for exactly what has not come, at its place in the file and in
/// the buffer; it is done exactly when all of it has come, and fails only where that place is no
/// number.
pub proof fn reads_ask_for_the_rest(p: ProgressView)
    requires
        p.total <= p.want,
    ensures
        next_of(p) is Done <==> p.total == p.want,
        next_of(p) matches ReadNext::Ask { at, from } ==> from == p.total && at == p.offset
            + p.total,
        next_of(p) is Fail <==> p.total < p.want && p.offset + p.total > u64::MAX,
        next_of(p) matches ReadNext::Fail(e) ==> e == (Error::ShortRead {
            offset: p.offset,
            want: p.want,
            got: p.total,
        }),
{
}

/// The length can be set of a regular file that is open for writing, and of no other.
pub proof fn only_written_regular_files_are_resized(s: FileView)
    ensures
        !s.writable ==> !can_be_resized(s),
        s.kind == FileKind::Node ==> !can_be_resized(s),
        s.writable && s.kind == FileKind::Regular ==> can_be_resized(s),
{
}

} // verus!
