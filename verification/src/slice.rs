//! Windows on a parent device.
use crate::block::{BlockDevice, BlockRead};
use crate::error::Error;
use vstd::prelude::*;

verus! {

/// How much of a window of `length` bytes at `start` the parent has; `None` where it begins at
/// or past the parent's end.
pub open spec fn window(parent_size: u64, start: u64, length: u64) -> Option<u64> {
    if start >= parent_size {
        None
    } else if length < parent_size - start {
        Some(length)
    } else {
        Some((parent_size - start) as u64)
    }
}

/// How much of a window of `length` bytes at `start` a parent of `parent_size` bytes has: the
/// length is clamped to what is there, and a start at or past the end is refused.
pub fn window_on_parent(parent_size: u64, start: u64, length: u64) -> (r: Option<u64>)
    ensures
        r == window(parent_size, start, length),
        r is None <==> start >= parent_size,
        r matches Some(there) ==> start + there <= parent_size && there <= length && (there
            == length || start + there == parent_size),
{
    if start >= parent_size {
        return None;
    }
    let there: u64 = parent_size - start;
    if length < there {
        Some(length)
    } else {
        Some(there)
    }
}

/// Where a window stands on its parent.
#[derive(Clone, Copy)]
pub struct SliceGeometry {
    pub start: u64,
    pub length: u64,
}

/// The geometry of a window of `length` bytes at `start`: empty where none of it is there.
pub open spec fn clamped(parent_size: u64, start: u64, length: u64) -> SliceGeometry {
    SliceGeometry {
        start,
        length: match window(parent_size, start, length) {
            Some(there) => there,
            None => 0,
        },
    }
}

/// Where `len` bytes at `offset` of the window stand on the parent, if they are in the window.
pub open spec fn rebased(geom: SliceGeometry, offset: u64, len: nat) -> Option<u64> {
    if offset + len <= geom.length && geom.start + offset <= u64::MAX {
        Some((geom.start + offset) as u64)
    } else {
        None
    }
}

/// The window has no byte that the parent does not have.
pub open spec fn inside(geom: SliceGeometry, parent_size: u64) -> bool {
    geom.length > 0 ==> geom.start + geom.length <= parent_size
}

impl SliceGeometry {
    fn new(parent_size: u64, start: u64, length: u64) -> (r: Self)
        ensures
            r == clamped(parent_size, start, length),
            inside(r, parent_size),
    {
        let length: u64 = match window_on_parent(parent_size, start, length) {
            Some(there) => there,
            None => 0,
        };
        SliceGeometry { start, length }
    }

    fn rebase(&self, offset: u64, len: u64) -> (r: Option<u64>)
        ensures
            r == rebased(*self, offset, len as nat),
    {
        let end: u64 = match offset.checked_add(len) {
            Some(end) => end,
            None => {
                return None;
            },
        };
        if end > self.length {
            return None;
        }
        self.start.checked_add(offset)
    }

    fn rebase_read(&self, offset: u64, len: usize) -> (r: Result<u64, Error>)
        ensures
            r == match rebased(*self, offset, len as nat) {
                Some(at) => Ok::<u64, Error>(at),
                None => Err(Error::ShortRead { offset, want: len, got: 0 }),
            },
    {
        match self.rebase(offset, len as u64) {
            Some(at) => Ok(at),
            None => Err(Error::ShortRead { offset, want: len, got: 0 }),
        }
    }

    fn rebase_write(&self, offset: u64, len: usize) -> (r: Result<u64, Error>)
        ensures
            r == match rebased(*self, offset, len as nat) {
                Some(at) => Ok::<u64, Error>(at),
                None => Err(Error::OutOfBounds { offset, len: len as u64, size: self.length }),
            },
    {
        match self.rebase(offset, len as u64) {
            Some(at) => Ok(at),
            None => Err(Error::OutOfBounds { offset, len: len as u64, size: self.length }),
        }
    }
}

/// A window and its parent.
pub struct SliceView<P> {
    pub parent: P,
    pub geom: SliceGeometry,
}

/// A read of a window: the parent's, at `start + offset`, or a short read that got nothing and
/// left the buffer and the parent alone.
pub open spec fn slice_read_step<P: BlockRead>(
    pre: SliceView<P>,
    offset: u64,
    buf: Seq<u8>,
    r: Result<(), Error>,
    out: Seq<u8>,
    post: SliceView<P>,
) -> bool {
    match rebased(pre.geom, offset, buf.len()) {
        Some(at) => {
            &&& P::read_step(&pre.parent, at, buf, r, out, &post.parent)
            &&& post == SliceView { parent: post.parent, ..pre }
        },
        None => {
            &&& r == Err::<(), Error>(
                Error::ShortRead { offset, want: buf.len() as usize, got: 0 },
            )
            &&& out == buf
            &&& post == pre
        },
    }
}

/// A write to a window: the parent's, at `start + offset`, where it is in the window and the
/// parent takes writes. The range is looked at first.
pub open spec fn slice_write_step<P: BlockDevice>(
    pre: SliceView<P>,
    offset: u64,
    data: Seq<u8>,
    r: Result<(), Error>,
    post: SliceView<P>,
) -> bool {
    match rebased(pre.geom, offset, data.len()) {
        Some(at) => if pre.parent.writable() {
            &&& P::write_step(&pre.parent, at, data, r, &post.parent)
            &&& post == SliceView { parent: post.parent, ..pre }
        } else {
            r == Err::<(), Error>(Error::ReadOnly) && post == pre
        },
        None => {
            &&& r == Err::<(), Error>(
                Error::OutOfBounds { offset, len: data.len() as u64, size: pre.geom.length },
            )
            &&& post == pre
        },
    }
}

/// A read-only window on a borrowed parent.
pub struct SliceReader<'a, P: BlockRead> {
    parent: &'a mut P,
    geom: SliceGeometry,
}

impl<'a, P: BlockRead> View for SliceReader<'a, P> {
    type V = SliceView<P>;

    closed spec fn view(&self) -> SliceView<P> {
        SliceView { parent: *self.parent, geom: self.geom }
    }
}

impl<'a, P: BlockRead> SliceReader<'a, P> {
    /// The borrow of the parent. What it ends with is what the parent is left as.
    pub closed spec fn borrowed(self) -> &'a mut P {
        self.parent
    }

    pub fn new(parent: &'a mut P, start: u64, length: u64) -> (r: Self)
        requires
            (*old(parent)).wf(),
        ensures
            r.wf(),
            r@ == (SliceView {
                parent: *old(parent),
                geom: clamped((*old(parent)).size(), start, length),
            }),
            *final(r.borrowed()) == *final(parent),
    {
        let geom = SliceGeometry::new((*parent).size_bytes(), start, length);
        SliceReader { parent, geom }
    }

    /// Where the window starts on its parent.
    pub fn start(&self) -> (r: u64)
        ensures
            r == self@.geom.start,
    {
        self.geom.start
    }

    /// How long the window is.
    pub fn length(&self) -> (r: u64)
        ensures
            r == self@.geom.length,
    {
        self.geom.length
    }

    /// Give the parent back, as the reads have left it.
    pub fn close(self)
        ensures
            *final(self.borrowed()) == self@.parent,
    {
    }
}

impl<'a, P: BlockRead> BlockRead for SliceReader<'a, P> {
    open spec fn wf(&self) -> bool {
        self@.parent.wf() && inside(self@.geom, self@.parent.size())
    }

    open spec fn size(&self) -> u64 {
        self@.geom.length
    }

    open spec fn read_step(
        pre: &Self,
        offset: u64,
        buf: Seq<u8>,
        r: Result<(), Error>,
        out: Seq<u8>,
        post: &Self,
    ) -> bool {
        slice_read_step(pre@, offset, buf, r, out, post@)
    }

    fn read_at(&mut self, offset: u64, buf: &mut [u8]) -> (r: Result<(), Error>)
        ensures
            *final((*final(self)).borrowed()) == *final((*old(self)).borrowed()),
    {
        let at: u64 = match self.geom.rebase_read(offset, buf.len()) {
            Ok(at) => at,
            Err(e) => {
                return Err(e);
            },
        };
        (*self.parent).read_at(at, buf)
    }

    fn size_bytes(&self) -> (r: u64) {
        self.geom.length
    }
}

impl<'a, P: BlockRead> BlockDevice for SliceReader<'a, P> {
    open spec fn writable(&self) -> bool {
        false
    }

    open spec fn growable(&self) -> bool {
        false
    }

    open spec fn write_step(
        pre: &Self,
        offset: u64,
        data: Seq<u8>,
        r: Result<(), Error>,
        post: &Self,
    ) -> bool {
        r == Err::<(), Error>(Error::ReadOnly) && post@ == pre@
    }

    open spec fn flush_step(pre: &Self, r: Result<(), Error>, post: &Self) -> bool {
        r is Ok && post@ == pre@
    }

    open spec fn set_len_step(pre: &Self, new_len: u64, r: Result<(), Error>, post: &Self) -> bool {
        r == Err::<(), Error>(Error::ReadOnly) && post@ == pre@
    }

    open spec fn same_store(pre: &Self, post: &Self) -> bool {
        post@ == pre@
    }

    fn write_at(&mut self, _offset: u64, _buf: &[u8]) -> (r: Result<(), Error>)
        ensures
            *final((*final(self)).borrowed()) == *final((*old(self)).borrowed()),
    {
        Err(Error::ReadOnly)
    }

    fn flush(&mut self) -> (r: Result<(), Error>)
        ensures
            *final((*final(self)).borrowed()) == *final((*old(self)).borrowed()),
    {
        Ok(())
    }

    fn is_writable(&self) -> (r: bool) {
        false
    }

    fn set_len(&mut self, _new_len: u64) -> (r: Result<(), Error>)
        ensures
            *final((*final(self)).borrowed()) == *final((*old(self)).borrowed()),
    {
        Err(Error::ReadOnly)
    }

    fn can_grow(&self) -> (r: bool) {
        false
    }
}

/// A read-only window on a parent of its own.
#[derive(Clone)]
pub struct OwnedSlice<P> {
    parent: P,
    geom: SliceGeometry,
}

impl<P> View for OwnedSlice<P> {
    type V = SliceView<P>;

    closed spec fn view(&self) -> SliceView<P> {
        SliceView { parent: self.parent, geom: self.geom }
    }
}

impl<P: BlockRead> OwnedSlice<P> {
    pub fn new(parent: P, start: u64, length: u64) -> (r: Self)
        requires
            parent.wf(),
        ensures
            r.wf(),
            r@ == (SliceView { parent, geom: clamped(parent.size(), start, length) }),
    {
        let geom = SliceGeometry::new(parent.size_bytes(), start, length);
        OwnedSlice { parent, geom }
    }

    /// Where the window starts on its parent.
    pub fn start(&self) -> (r: u64)
        ensures
            r == self@.geom.start,
    {
        self.geom.start
    }

    /// How long the window is.
    pub fn length(&self) -> (r: u64)
        ensures
            r == self@.geom.length,
    {
        self.geom.length
    }

    /// Borrow the parent.
    pub fn parent(&self) -> (r: &P)
        ensures
            *r == self@.parent,
    {
        &self.parent
    }

    /// Take the parent back.
    pub fn into_parent(self) -> (r: P)
        ensures
            r == self@.parent,
    {
        self.parent
    }
}

impl<P: BlockRead> BlockRead for OwnedSlice<P> {
    open spec fn wf(&self) -> bool {
        self@.parent.wf() && inside(self@.geom, self@.parent.size())
    }

    open spec fn size(&self) -> u64 {
        self@.geom.length
    }

    open spec fn read_step(
        pre: &Self,
        offset: u64,
        buf: Seq<u8>,
        r: Result<(), Error>,
        out: Seq<u8>,
        post: &Self,
    ) -> bool {
        slice_read_step(pre@, offset, buf, r, out, post@)
    }

    fn read_at(&mut self, offset: u64, buf: &mut [u8]) -> (r: Result<(), Error>) {
        let at: u64 = match self.geom.rebase_read(offset, buf.len()) {
            Ok(at) => at,
            Err(e) => {
                return Err(e);
            },
        };
        self.parent.read_at(at, buf)
    }

    fn size_bytes(&self) -> (r: u64) {
        self.geom.length
    }
}

impl<P: BlockRead> BlockDevice for OwnedSlice<P> {
    open spec fn writable(&self) -> bool {
        false
    }

    open spec fn growable(&self) -> bool {
        false
    }

    open spec fn write_step(
        pre: &Self,
        offset: u64,
        data: Seq<u8>,
        r: Result<(), Error>,
        post: &Self,
    ) -> bool {
        r == Err::<(), Error>(Error::ReadOnly) && post@ == pre@
    }

    open spec fn flush_step(pre: &Self, r: Result<(), Error>, post: &Self) -> bool {
        r is Ok && post@ == pre@
    }

    open spec fn set_len_step(pre: &Self, new_len: u64, r: Result<(), Error>, post: &Self) -> bool {
        r == Err::<(), Error>(Error::ReadOnly) && post@ == pre@
    }

    open spec fn same_store(pre: &Self, post: &Self) -> bool {
        post@ == pre@
    }

    fn write_at(&mut self, _offset: u64, _buf: &[u8]) -> (r: Result<(), Error>) {
        Err(Error::ReadOnly)
    }

    fn flush(&mut self) -> (r: Result<(), Error>) {
        Ok(())
    }

    fn is_writable(&self) -> (r: bool) {
        false
    }

    fn set_len(&mut self, _new_len: u64) -> (r: Result<(), Error>) {
        Err(Error::ReadOnly)
    }

    fn can_grow(&self) -> (r: bool) {
        false
    }
}

/// A window on a parent of its own, written through it where the parent takes writes. Its length
/// is fixed, whatever the parent's is.
#[derive(Clone)]
pub struct OwnedRwSlice<P> {
    parent: P,
    geom: SliceGeometry,
}

impl<P> View for OwnedRwSlice<P> {
    type V = SliceView<P>;

    closed spec fn view(&self) -> SliceView<P> {
        SliceView { parent: self.parent, geom: self.geom }
    }
}

impl<P: BlockDevice> OwnedRwSlice<P> {
    pub fn new(parent: P, start: u64, length: u64) -> (r: Self)
        requires
            parent.wf(),
        ensures
            r.wf(),
            r@ == (SliceView { parent, geom: clamped(parent.size(), start, length) }),
    {
        let geom = SliceGeometry::new(parent.size_bytes(), start, length);
        OwnedRwSlice { parent, geom }
    }

    /// Where the window starts on its parent.
    pub fn start(&self) -> (r: u64)
        ensures
            r == self@.geom.start,
    {
        self.geom.start
    }

    /// How long the window is.
    pub fn length(&self) -> (r: u64)
        ensures
            r == self@.geom.length,
    {
        self.geom.length
    }

    /// Borrow the parent.
    pub fn parent(&self) -> (r: &P)
        ensures
            *r == self@.parent,
    {
        &self.parent
    }

    /// Take the parent back.
    pub fn into_parent(self) -> (r: P)
        ensures
            r == self@.parent,
    {
        self.parent
    }
}

impl<P: BlockDevice> BlockRead for OwnedRwSlice<P> {
    open spec fn wf(&self) -> bool {
        self@.parent.wf() && inside(self@.geom, self@.parent.size())
    }

    open spec fn size(&self) -> u64 {
        self@.geom.length
    }

    open spec fn read_step(
        pre: &Self,
        offset: u64,
        buf: Seq<u8>,
        r: Result<(), Error>,
        out: Seq<u8>,
        post: &Self,
    ) -> bool {
        slice_read_step(pre@, offset, buf, r, out, post@)
    }

    fn read_at(&mut self, offset: u64, buf: &mut [u8]) -> (r: Result<(), Error>) {
        let at: u64 = match self.geom.rebase_read(offset, buf.len()) {
            Ok(at) => at,
            Err(e) => {
                return Err(e);
            },
        };
        self.parent.read_at(at, buf)
    }

    fn size_bytes(&self) -> (r: u64) {
        self.geom.length
    }
}

impl<P: BlockDevice> BlockDevice for OwnedRwSlice<P> {
    open spec fn writable(&self) -> bool {
        self@.parent.writable()
    }

    open spec fn growable(&self) -> bool {
        false
    }

    open spec fn write_step(
        pre: &Self,
        offset: u64,
        data: Seq<u8>,
        r: Result<(), Error>,
        post: &Self,
    ) -> bool {
        slice_write_step(pre@, offset, data, r, post@)
    }

    open spec fn flush_step(pre: &Self, r: Result<(), Error>, post: &Self) -> bool {
        &&& P::flush_step(&pre@.parent, r, &post@.parent)
        &&& post@ == SliceView { parent: post@.parent, ..pre@ }
    }

    open spec fn set_len_step(pre: &Self, new_len: u64, r: Result<(), Error>, post: &Self) -> bool {
        r == Err::<(), Error>(Error::ReadOnly) && post@ == pre@
    }

    open spec fn same_store(pre: &Self, post: &Self) -> bool {
        post@ == pre@
    }

    fn write_at(&mut self, offset: u64, buf: &[u8]) -> (r: Result<(), Error>) {
        let at: u64 = match self.geom.rebase_write(offset, buf.len()) {
            Ok(at) => at,
            Err(e) => {
                return Err(e);
            },
        };
        if !self.parent.is_writable() {
            return Err(Error::ReadOnly);
        }
        self.parent.write_at(at, buf)
    }

    fn flush(&mut self) -> (r: Result<(), Error>) {
        self.parent.flush()
    }

    fn is_writable(&self) -> (r: bool) {
        self.parent.is_writable()
    }

    fn set_len(&mut self, _new_len: u64) -> (r: Result<(), Error>) {
        Err(Error::ReadOnly)
    }

    fn can_grow(&self) -> (r: bool) {
        false
    }
}

} // verus!
