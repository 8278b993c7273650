//! Block-device traits.
//!
//! - [`BlockRead`] is the minimum: positioned reads and a size.
//! - [`BlockDevice`] adds `write_at`, `flush`, `is_writable`, `set_len` and `can_grow`.
//!
//! A device is described by relations: `read_step(pre, offset, buf, r, out, post)` says that the
//! device in state `pre`, asked for `buf.len()` bytes at `offset`, may answer `r`, turn the
//! buffer `buf` into `out` and be left in state `post`. What a wrapper does is stated over the
//! relations of the device that it wraps, so it holds over any device.
use crate::error::Error;
use vstd::prelude::*;

verus! {

/// Read-only random-access block device.
pub trait BlockRead: Send + Sync {
    /// The device's own invariant.
    open spec fn wf(&self) -> bool {
        true
    }

    /// The size that the device reports.
    open spec fn size(&self) -> u64 {
        arbitrary()
    }

    /// What one read may do: anything, of a device that does not say.
    open spec fn read_step(
        pre: &Self,
        offset: u64,
        buf: Seq<u8>,
        r: Result<(), Error>,
        out: Seq<u8>,
        post: &Self,
    ) -> bool {
        true
    }

    /// Read exactly `buf.len()` bytes starting at `offset` (bytes from the start of the device).
    fn read_at(&mut self, offset: u64, buf: &mut [u8]) -> (r: Result<(), Error>)
        requires
            (*old(self)).wf(),
        ensures
            (*final(self)).wf(),
            (*final(self)).size() == (*old(self)).size(),
            final(buf)@.len() == old(buf)@.len(),
            Self::read_step(&*old(self), offset, old(buf)@, r, final(buf)@, &*final(self)),
    ;

    /// Total device size in bytes. It does not change but through [`BlockDevice::set_len`].
    fn size_bytes(&self) -> (r: u64)
        requires
            self.wf(),
        ensures
            r == self.size(),
    ;
}

/// Read-write random-access block device. A device that is only read implements [`BlockRead`]
/// alone; [`crate::ReadOnlyDevice`] makes it one of these that refuses every change.
pub trait BlockDevice: BlockRead {
    /// Whether the device reports that it takes writes.
    open spec fn writable(&self) -> bool {
        arbitrary()
    }

    /// Whether the device reports that its length can be set.
    open spec fn growable(&self) -> bool {
        arbitrary()
    }

    /// What one write may do: anything, of a device that does not say.
    open spec fn write_step(
        pre: &Self,
        offset: u64,
        data: Seq<u8>,
        r: Result<(), Error>,
        post: &Self,
    ) -> bool {
        true
    }

    /// What one flush may do: anything, of a device that does not say.
    open spec fn flush_step(pre: &Self, r: Result<(), Error>, post: &Self) -> bool {
        true
    }

    /// What setting the length may do: anything, of a device that does not say.
    open spec fn set_len_step(pre: &Self, new_len: u64, r: Result<(), Error>, post: &Self) -> bool {
        true
    }

    /// Whether the store behind the device is the same: nothing has reached it.
    open spec fn same_store(pre: &Self, post: &Self) -> bool {
        true
    }

    /// Write exactly `buf.len()` bytes at `offset`.
    fn write_at(&mut self, offset: u64, buf: &[u8]) -> (r: Result<(), Error>)
        requires
            (*old(self)).wf(),
        ensures
            (*final(self)).wf(),
            (*final(self)).size() == (*old(self)).size(),
            Self::write_step(&*old(self), offset, buf@, r, &*final(self)),
    ;

    /// Flush pending writes to stable storage.
    fn flush(&mut self) -> (r: Result<(), Error>)
        requires
            (*old(self)).wf(),
        ensures
            (*final(self)).wf(),
            (*final(self)).size() == (*old(self)).size(),
            Self::flush_step(&*old(self), r, &*final(self)),
    ;

    /// Whether `write_at` is likely to succeed.
    fn is_writable(&self) -> (r: bool)
        requires
            self.wf(),
        ensures
            r == self.writable(),
    ;

    /// Set the device's length: growing adds bytes, shrinking discards those past the new end.
    fn set_len(&mut self, new_len: u64) -> (r: Result<(), Error>)
        requires
            (*old(self)).wf(),
        ensures
            (*final(self)).wf(),
            r is Ok ==> (*final(self)).size() == new_len,
            !(*old(self)).growable() ==> {
                &&& r == Err::<(), Error>(Error::ReadOnly)
                &&& (*final(self)).size() == (*old(self)).size()
                &&& Self::same_store(&*old(self), &*final(self))
            },
            Self::set_len_step(&*old(self), new_len, r, &*final(self)),
    ;

    /// Whether [`BlockDevice::set_len`] is likely to succeed. `false` is a promise that it
    /// refuses, as [`Error::ReadOnly`], and that nothing reaches the store.
    fn can_grow(&self) -> (r: bool)
        requires
            self.wf(),
        ensures
            r == self.growable(),
    ;
}

impl<T: BlockRead + ?Sized> BlockRead for Box<T> {
    open spec fn wf(&self) -> bool {
        (**self).wf()
    }

    open spec fn size(&self) -> u64 {
        (**self).size()
    }

    open spec fn read_step(
        pre: &Self,
        offset: u64,
        buf: Seq<u8>,
        r: Result<(), Error>,
        out: Seq<u8>,
        post: &Self,
    ) -> bool {
        T::read_step(&**pre, offset, buf, r, out, &**post)
    }

    fn read_at(&mut self, offset: u64, buf: &mut [u8]) -> (r: Result<(), Error>) {
        (**self).read_at(offset, buf)
    }

    fn size_bytes(&self) -> (r: u64) {
        (**self).size_bytes()
    }
}

impl<T: BlockDevice + ?Sized> BlockDevice for Box<T> {
    open spec fn writable(&self) -> bool {
        (**self).writable()
    }

    open spec fn growable(&self) -> bool {
        (**self).growable()
    }

    open spec fn write_step(
        pre: &Self,
        offset: u64,
        data: Seq<u8>,
        r: Result<(), Error>,
        post: &Self,
    ) -> bool {
        T::write_step(&**pre, offset, data, r, &**post)
    }

    open spec fn flush_step(pre: &Self, r: Result<(), Error>, post: &Self) -> bool {
        T::flush_step(&**pre, r, &**post)
    }

    open spec fn set_len_step(pre: &Self, new_len: u64, r: Result<(), Error>, post: &Self) -> bool {
        T::set_len_step(&**pre, new_len, r, &**post)
    }

    open spec fn same_store(pre: &Self, post: &Self) -> bool {
        T::same_store(&**pre, &**post)
    }

    fn write_at(&mut self, offset: u64, buf: &[u8]) -> (r: Result<(), Error>) {
        (**self).write_at(offset, buf)
    }

    fn flush(&mut self) -> (r: Result<(), Error>) {
        (**self).flush()
    }

    fn is_writable(&self) -> (r: bool) {
        (**self).is_writable()
    }

    fn set_len(&mut self, new_len: u64) -> (r: Result<(), Error>) {
        (**self).set_len(new_len)
    }

    fn can_grow(&self) -> (r: bool) {
        (**self).can_grow()
    }
}

impl<T: BlockRead> BlockRead for &mut T {
    open spec fn wf(&self) -> bool {
        (**self).wf()
    }

    open spec fn size(&self) -> u64 {
        (**self).size()
    }

    open spec fn read_step(
        pre: &Self,
        offset: u64,
        buf: Seq<u8>,
        r: Result<(), Error>,
        out: Seq<u8>,
        post: &Self,
    ) -> bool {
        T::read_step(&**pre, offset, buf, r, out, &**post)
    }

    fn read_at(&mut self, offset: u64, buf: &mut [u8]) -> (r: Result<(), Error>)
        ensures
            *final(*final(self)) == *final(*old(self)),
    {
        (**self).read_at(offset, buf)
    }

    fn size_bytes(&self) -> (r: u64) {
        (**self).size_bytes()
    }
}

impl<T: BlockDevice> BlockDevice for &mut T {
    open spec fn writable(&self) -> bool {
        (**self).writable()
    }

    open spec fn growable(&self) -> bool {
        (**self).growable()
    }

    open spec fn write_step(
        pre: &Self,
        offset: u64,
        data: Seq<u8>,
        r: Result<(), Error>,
        post: &Self,
    ) -> bool {
        T::write_step(&**pre, offset, data, r, &**post)
    }

    open spec fn flush_step(pre: &Self, r: Result<(), Error>, post: &Self) -> bool {
        T::flush_step(&**pre, r, &**post)
    }

    open spec fn set_len_step(pre: &Self, new_len: u64, r: Result<(), Error>, post: &Self) -> bool {
        T::set_len_step(&**pre, new_len, r, &**post)
    }

    open spec fn same_store(pre: &Self, post: &Self) -> bool {
        T::same_store(&**pre, &**post)
    }

    fn write_at(&mut self, offset: u64, buf: &[u8]) -> (r: Result<(), Error>)
        ensures
            *final(*final(self)) == *final(*old(self)),
    {
        (**self).write_at(offset, buf)
    }

    fn flush(&mut self) -> (r: Result<(), Error>)
        ensures
            *final(*final(self)) == *final(*old(self)),
    {
        (**self).flush()
    }

    fn is_writable(&self) -> (r: bool) {
        (**self).is_writable()
    }

    fn set_len(&mut self, new_len: u64) -> (r: Result<(), Error>)
        ensures
            *final(*final(self)) == *final(*old(self)),
    {
        (**self).set_len(new_len)
    }

    fn can_grow(&self) -> (r: bool) {
        (**self).can_grow()
    }
}

/// A boxed device does and says what the device in the box does and says, of every request.
pub proof fn boxes_are_their_device<T: BlockDevice>(
    pre: Box<T>,
    offset: u64,
    buf: Seq<u8>,
    r: Result<(), Error>,
    out: Seq<u8>,
    post: Box<T>,
)
    ensures
        pre.wf() == (*pre).wf() && pre.size() == (*pre).size(),
        pre.writable() == (*pre).writable() && pre.growable() == (*pre).growable(),
        Box::<T>::read_step(&pre, offset, buf, r, out, &post) == T::read_step(
            &*pre,
            offset,
            buf,
            r,
            out,
            &*post,
        ),
        Box::<T>::write_step(&pre, offset, buf, r, &post) == T::write_step(
            &*pre,
            offset,
            buf,
            r,
            &*post,
        ),
        Box::<T>::flush_step(&pre, r, &post) == T::flush_step(&*pre, r, &*post),
        Box::<T>::set_len_step(&pre, offset, r, &post) == T::set_len_step(&*pre, offset, r, &*post),
        Box::<T>::same_store(&pre, &post) == T::same_store(&*pre, &*post),
{
}

/// A borrowed device does and says what the device does and says, of every request.
pub proof fn borrows_are_their_device<'a, T: BlockDevice>(
    offset: u64,
    buf: Seq<u8>,
    r: Result<(), Error>,
    out: Seq<u8>,
)
    ensures
        forall|pre: &'a mut T| #[trigger] <&'a mut T as BlockRead>::size(&pre) == (*pre).size(),
        forall|pre: &'a mut T| #[trigger]
            <&'a mut T as BlockDevice>::writable(&pre) == (*pre).writable(),
        forall|pre: &'a mut T| #[trigger]
            <&'a mut T as BlockDevice>::growable(&pre) == (*pre).growable(),
        forall|pre: &'a mut T, post: &'a mut T| #[trigger]
            <&'a mut T as BlockRead>::read_step(&pre, offset, buf, r, out, &post) == T::read_step(
                &*pre,
                offset,
                buf,
                r,
                out,
                &*post,
            ),
        forall|pre: &'a mut T, post: &'a mut T| #[trigger]
            <&'a mut T as BlockDevice>::write_step(&pre, offset, buf, r, &post) == T::write_step(
                &*pre,
                offset,
                buf,
                r,
                &*post,
            ),
        forall|pre: &'a mut T, post: &'a mut T| #[trigger]
            <&'a mut T as BlockDevice>::flush_step(&pre, r, &post) == T::flush_step(
                &*pre,
                r,
                &*post,
            ),
        forall|pre: &'a mut T, post: &'a mut T| #[trigger]
            <&'a mut T as BlockDevice>::set_len_step(&pre, offset, r, &post) == T::set_len_step(
                &*pre,
                offset,
                r,
                &*post,
            ),
{
}

} // verus!
