//! A device that counts what is asked of it.
use crate::block::BlockRead;
use crate::content::reads_back;
use crate::error::Error;
use vstd::prelude::*;

verus! {

/// A device, and what has been asked of it.
pub struct CountView<D> {
    pub device: D,
    /// How many reads.
    pub reads: u64,
    /// How many bytes, over all of them.
    pub bytes: u64,
}

/// `n` more, starting over after the largest number.
pub open spec fn counted(count: u64, n: nat) -> u64 {
    ((count + n) % 0x1_0000_0000_0000_0000) as u64
}

/// Counts the reads that reach a device, and the bytes they ask for: what was asked, whether or
/// not the device could answer.
pub struct CountingDevice<D> {
    inner: D,
    reads: u64,
    bytes: u64,
}

impl<D> View for CountingDevice<D> {
    type V = CountView<D>;

    closed spec fn view(&self) -> CountView<D> {
        CountView { device: self.inner, reads: self.reads, bytes: self.bytes }
    }
}

impl<D: BlockRead> CountingDevice<D> {
    pub fn new(inner: D) -> (r: Self)
        requires
            inner.wf(),
        ensures
            r.wf(),
            r@ == (CountView { device: inner, reads: 0, bytes: 0 }),
    {
        CountingDevice { inner, reads: 0, bytes: 0 }
    }

    /// How many reads have been asked for.
    pub fn reads(&self) -> (r: u64)
        ensures
            r == self@.reads,
    {
        self.reads
    }

    /// How many bytes have been asked for.
    pub fn bytes(&self) -> (r: u64)
        ensures
            r == self@.bytes,
    {
        self.bytes
    }

    /// Start counting anew.
    pub fn reset(&mut self)
        ensures
            final(self)@ == (CountView { reads: 0, bytes: 0, ..old(self)@ }),
    {
        self.reads = 0;
        self.bytes = 0;
    }

    /// Borrow the device.
    pub fn inner(&self) -> (r: &D)
        ensures
            *r == self@.device,
    {
        &self.inner
    }
}

impl<D: BlockRead> BlockRead for CountingDevice<D> {
    open spec fn wf(&self) -> bool {
        self@.device.wf()
    }

    open spec fn size(&self) -> u64 {
        self@.device.size()
    }

    open spec fn read_step(
        pre: &Self,
        offset: u64,
        buf: Seq<u8>,
        r: Result<(), Error>,
        out: Seq<u8>,
        post: &Self,
    ) -> bool {
        &&& D::read_step(&pre@.device, offset, buf, r, out, &post@.device)
        &&& post@ == CountView {
            device: post@.device,
            reads: counted(pre@.reads, 1),
            bytes: counted(pre@.bytes, buf.len()),
        }
    }

    fn read_at(&mut self, offset: u64, buf: &mut [u8]) -> (r: Result<(), Error>) {
        self.reads = self.reads.wrapping_add(1);
        self.bytes = self.bytes.wrapping_add(buf.len() as u64);
        self.inner.read_at(offset, buf)
    }

    fn size_bytes(&self) -> (r: u64) {
        self.inner.size_bytes()
    }
}

/// A model of a device, as a model of a counting device over it.
pub open spec fn counting_model<D: BlockRead>(model: spec_fn(D, Seq<u8>) -> bool) -> spec_fn(
    CountingDevice<D>,
    Seq<u8>,
) -> bool {
    |d: CountingDevice<D>, bytes: Seq<u8>| model(d@.device, bytes)
}

/// Counting changes nothing of what is read.
pub proof fn counting_is_transparent<D: BlockRead>(model: spec_fn(D, Seq<u8>) -> bool)
    requires
        reads_back(model),
    ensures
        reads_back(counting_model(model)),
{
    assert forall|
        d: CountingDevice<D>,
        bytes: Seq<u8>,
        offset: u64,
        buf: Seq<u8>,
        r: Result<(), Error>,
        out: Seq<u8>,
        post: CountingDevice<D>,
    |
        #![trigger counting_model(model)(d, bytes), CountingDevice::<D>::read_step(&d, offset, buf, r, out, &post)]
        {
            &&& counting_model(model)(d, bytes)
            &&& CountingDevice::<D>::read_step(&d, offset, buf, r, out, &post)
            &&& out.len() == buf.len()
            &&& post.wf()
        } implies {
        &&& counting_model(model)(post, bytes)
        &&& offset + buf.len() <= bytes.len() ==> r is Ok && out == bytes.subrange(
            offset as int,
            offset + buf.len(),
        )
        &&& buf.len() > 0 && offset + buf.len() > bytes.len() ==> r is Err
    } by {
        assert(model(d@.device, bytes));
        assert(D::read_step(&d@.device, offset, buf, r, out, &post@.device));
    }
}

/// Every read counts once, by what it asks for, whether or not the device can answer it; the device
/// is asked for exactly that read.
pub proof fn every_read_counts_once<D: BlockRead>(
    pre: CountingDevice<D>,
    offset: u64,
    buf: Seq<u8>,
    r: Result<(), Error>,
    out: Seq<u8>,
    post: CountingDevice<D>,
)
    requires
        CountingDevice::<D>::read_step(&pre, offset, buf, r, out, &post),
    ensures
        D::read_step(&pre@.device, offset, buf, r, out, &post@.device),
        pre@.reads < u64::MAX ==> post@.reads == pre@.reads + 1,
        pre@.bytes + buf.len() <= u64::MAX ==> post@.bytes == pre@.bytes + buf.len(),
        pre.size() == pre@.device.size(),
{
}

} // verus!
