//! A device that is only read, as a [`BlockDevice`].
use crate::block::{BlockDevice, BlockRead};
use crate::content::reads_back;
use crate::error::Error;
use vstd::prelude::*;

verus! {

/// Refuses every change, whatever the wrapped device can do, and forwards the reads.
pub struct ReadOnlyDevice<T> {
    inner: T,
}

impl<T> ReadOnlyDevice<T> {
    /// The wrapped device.
    pub closed spec fn device(self) -> T {
        self.inner
    }

    pub fn new(inner: T) -> (r: Self)
        ensures
            r.device() == inner,
    {
        ReadOnlyDevice { inner }
    }

    /// Borrow the wrapped device.
    pub fn inner(&self) -> (r: &T)
        ensures
            *r == self.device(),
    {
        &self.inner
    }

    /// Take the wrapped device back.
    pub fn into_inner(self) -> (r: T)
        ensures
            r == self.device(),
    {
        self.inner
    }
}

impl<T: BlockRead> BlockRead for ReadOnlyDevice<T> {
    open spec fn wf(&self) -> bool {
        self.device().wf()
    }

    open spec fn size(&self) -> u64 {
        self.device().size()
    }

    open spec fn read_step(
        pre: &Self,
        offset: u64,
        buf: Seq<u8>,
        r: Result<(), Error>,
        out: Seq<u8>,
        post: &Self,
    ) -> bool {
        T::read_step(&pre.device(), offset, buf, r, out, &post.device())
    }

    fn read_at(&mut self, offset: u64, buf: &mut [u8]) -> (r: Result<(), Error>) {
        self.inner.read_at(offset, buf)
    }

    fn size_bytes(&self) -> (r: u64) {
        self.inner.size_bytes()
    }
}

impl<T: BlockRead> BlockDevice for ReadOnlyDevice<T> {
    open spec fn writable(&self) -> bool {
        false
    }

    open spec fn growable(&self) -> bool {
        false
    }

    open spec fn write_step(
        pre: &Self,
        offset: u64,
        data: Seq<u8>,
        r: Result<(), Error>,
        post: &Self,
    ) -> bool {
        r == Err::<(), Error>(Error::ReadOnly) && *post == *pre
    }

    open spec fn flush_step(pre: &Self, r: Result<(), Error>, post: &Self) -> bool {
        r == Ok::<(), Error>(()) && *post == *pre
    }

    open spec fn set_len_step(pre: &Self, new_len: u64, r: Result<(), Error>, post: &Self) -> bool {
        r == Err::<(), Error>(Error::ReadOnly) && *post == *pre
    }

    open spec fn same_store(pre: &Self, post: &Self) -> bool {
        *post == *pre
    }

    fn write_at(&mut self, _offset: u64, _buf: &[u8]) -> (r: Result<(), Error>) {
        Err(Error::ReadOnly)
    }

    fn flush(&mut self) -> (r: Result<(), Error>) {
        Ok(())
    }

    fn is_writable(&self) -> (r: bool) {
        false
    }

    fn set_len(&mut self, _new_len: u64) -> (r: Result<(), Error>) {
        Err(Error::ReadOnly)
    }

    fn can_grow(&self) -> (r: bool) {
        false
    }
}

/// A model of the wrapped device, as a model of the wrapper.
pub open spec fn readonly_model<T>(model: spec_fn(T, Seq<u8>) -> bool) -> spec_fn(
    ReadOnlyDevice<T>,
    Seq<u8>,
) -> bool {
    |d: ReadOnlyDevice<T>, bytes: Seq<u8>| model(d.device(), bytes)
}

/// A read through the wrapper gives what the wrapped device holds.
pub proof fn readonly_is_transparent<T: BlockRead>(model: spec_fn(T, Seq<u8>) -> bool)
    requires
        reads_back(model),
    ensures
        reads_back(readonly_model(model)),
{
    assert forall|
        d: ReadOnlyDevice<T>,
        bytes: Seq<u8>,
        offset: u64,
        buf: Seq<u8>,
        r: Result<(), Error>,
        out: Seq<u8>,
        post: ReadOnlyDevice<T>,
    |
        #![trigger readonly_model(model)(d, bytes), ReadOnlyDevice::<T>::read_step(&d, offset, buf, r, out, &post)]
        {
            &&& readonly_model(model)(d, bytes)
            &&& ReadOnlyDevice::<T>::read_step(&d, offset, buf, r, out, &post)
            &&& out.len() == buf.len()
            &&& post.wf()
        } implies {
        &&& readonly_model(model)(post, bytes)
        &&& offset + buf.len() <= bytes.len() ==> r is Ok && out == bytes.subrange(
            offset as int,
            offset + buf.len(),
        )
        &&& buf.len() > 0 && offset + buf.len() > bytes.len() ==> r is Err
    } by {
        assert(model(d.device(), bytes));
        assert(T::read_step(&d.device(), offset, buf, r, out, &post.device()));
    }
}

/// A read-only device answers reads as the device does and changes nothing: it takes no write and
/// no length, whatever the device takes, and has nothing to flush.
pub proof fn read_only_devices_take_nothing<T: BlockRead>(
    pre: ReadOnlyDevice<T>,
    offset: u64,
    data: Seq<u8>,
    r: Result<(), Error>,
    out: Seq<u8>,
    post: ReadOnlyDevice<T>,
)
    ensures
        !pre.writable() && !pre.growable(),
        pre.size() == pre.device().size(),
        ReadOnlyDevice::<T>::read_step(&pre, offset, data, r, out, &post) ==> T::read_step(
            &pre.device(),
            offset,
            data,
            r,
            out,
            &post.device(),
        ),
        ReadOnlyDevice::<T>::write_step(&pre, offset, data, r, &post) ==> r == Err::<(), Error>(
            Error::ReadOnly,
        ) && post.device() == pre.device(),
        ReadOnlyDevice::<T>::set_len_step(&pre, offset, r, &post) ==> r == Err::<(), Error>(
            Error::ReadOnly,
        ) && post.device() == pre.device(),
        ReadOnlyDevice::<T>::flush_step(&pre, r, &post) ==> r is Ok && post.device()
            == pre.device(),
{
}

} // verus!
