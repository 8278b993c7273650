//! Devices over bytes in memory.
use crate::block::{BlockDevice, BlockRead};
use crate::content::{reads_back, spliced, writes_through};
use crate::error::Error;
use vstd::prelude::*;

verus! {

/// The refusal of a request that does not fit into the bytes.
pub open spec fn refused(offset: u64, want: nat) -> Error {
    Error::ShortRead { offset, want: want as usize, got: 0 }
}

/// A read of bytes in memory: all of it, or nothing.
pub open spec fn bytes_read_step(
    bytes: Seq<u8>,
    offset: u64,
    buf: Seq<u8>,
    r: Result<(), Error>,
    out: Seq<u8>,
) -> bool {
    if offset + buf.len() <= bytes.len() {
        r is Ok && out == bytes.subrange(offset as int, offset + buf.len())
    } else {
        r == Err::<(), Error>(refused(offset, buf.len())) && out == buf
    }
}

/// Where `want` bytes at `offset` stand among `len`, or a short read that got nothing.
pub fn range_within(len: usize, offset: u64, want: usize) -> (r: Result<(usize, usize), Error>)
    ensures
        offset + want <= len ==> r == Ok::<(usize, usize), Error>(
            (offset as usize, (offset + want) as usize),
        ),
        offset + want > len ==> r == Err::<(usize, usize), Error>(refused(offset, want as nat)),
{
    let end: u64 = match offset.checked_add(want as u64) {
        Some(end) => end,
        None => {
            return Err(Error::ShortRead { offset, want, got: 0 });
        },
    };
    if end > len as u64 {
        return Err(Error::ShortRead { offset, want, got: 0 });
    }
    Ok((offset as usize, end as usize))
}

/// Fill a buffer with the bytes at `offset`, or leave it alone.
pub fn read_into(bytes: &[u8], offset: u64, buf: &mut [u8]) -> (r: Result<(), Error>)
    ensures
        bytes_read_step(bytes@, offset, old(buf)@, r, final(buf)@),
        final(buf)@.len() == old(buf)@.len(),
{
    let (start, _): (usize, usize) = match range_within(bytes.len(), offset, buf.len()) {
        Ok(range) => range,
        Err(e) => {
            return Err(e);
        },
    };
    let n: usize = buf.len();
    let mut i: usize = 0;
    while i < n
        invariant
            0 <= i <= n,
            n == buf@.len(),
            start + n <= bytes@.len(),
            start + n <= usize::MAX,
            forall|j: int| 0 <= j < i ==> buf@[j] == bytes@[start + j],
        decreases n - i,
    {
        buf[i] = bytes[start + i];
        i = i + 1;
    }
    assert(buf@ =~= bytes@.subrange(start as int, start + n));
    Ok(())
}

/// Bytes that can only be read.
pub struct Bytes(pub Vec<u8>);

impl Bytes {
    pub fn new(bytes: Vec<u8>) -> (r: Self)
        ensures
            r.0 == bytes,
    {
        Bytes(bytes)
    }
}

impl BlockRead for Bytes {
    open spec fn wf(&self) -> bool {
        true
    }

    open spec fn size(&self) -> u64 {
        self.0@.len() as u64
    }

    open spec fn read_step(
        pre: &Self,
        offset: u64,
        buf: Seq<u8>,
        r: Result<(), Error>,
        out: Seq<u8>,
        post: &Self,
    ) -> bool {
        bytes_read_step(pre.0@, offset, buf, r, out) && *post == *pre
    }

    fn read_at(&mut self, offset: u64, buf: &mut [u8]) -> (r: Result<(), Error>) {
        read_into(self.0.as_slice(), offset, buf)
    }

    fn size_bytes(&self) -> (r: u64) {
        self.0.len() as u64
    }
}

/// Bytes that can be read and written, but neither added nor taken away.
pub struct RwBytes(pub Vec<u8>);

impl RwBytes {
    pub fn new(bytes: Vec<u8>) -> (r: Self)
        ensures
            r.0 == bytes,
    {
        RwBytes(bytes)
    }
}

impl BlockRead for RwBytes {
    open spec fn wf(&self) -> bool {
        true
    }

    open spec fn size(&self) -> u64 {
        self.0@.len() as u64
    }

    open spec fn read_step(
        pre: &Self,
        offset: u64,
        buf: Seq<u8>,
        r: Result<(), Error>,
        out: Seq<u8>,
        post: &Self,
    ) -> bool {
        bytes_read_step(pre.0@, offset, buf, r, out) && *post == *pre
    }

    fn read_at(&mut self, offset: u64, buf: &mut [u8]) -> (r: Result<(), Error>) {
        read_into(self.0.as_slice(), offset, buf)
    }

    fn size_bytes(&self) -> (r: u64) {
        self.0.len() as u64
    }
}

impl BlockDevice for RwBytes {
    open spec fn writable(&self) -> bool {
        true
    }

    open spec fn growable(&self) -> bool {
        false
    }

    open spec fn write_step(
        pre: &Self,
        offset: u64,
        data: Seq<u8>,
        r: Result<(), Error>,
        post: &Self,
    ) -> bool {
        if offset + data.len() <= pre.0@.len() {
            r is Ok && post.0@ == spliced(pre.0@, offset as int, data)
        } else {
            r == Err::<(), Error>(refused(offset, data.len())) && *post == *pre
        }
    }

    open spec fn flush_step(pre: &Self, r: Result<(), Error>, post: &Self) -> bool {
        r is Ok && *post == *pre
    }

    open spec fn set_len_step(pre: &Self, new_len: u64, r: Result<(), Error>, post: &Self) -> bool {
        r == Err::<(), Error>(Error::ReadOnly) && *post == *pre
    }

    open spec fn same_store(pre: &Self, post: &Self) -> bool {
        *post == *pre
    }

    fn write_at(&mut self, offset: u64, buf: &[u8]) -> (r: Result<(), Error>) {
        let ghost was = self.0@;
        let (start, _): (usize, usize) = match range_within(self.0.len(), offset, buf.len()) {
            Ok(range) => range,
            Err(e) => {
                return Err(e);
            },
        };
        let n: usize = buf.len();
        let mut i: usize = 0;
        assert(self.0@ =~= spliced(was, start as int, buf@.take(0)));
        while i < n
            invariant
                0 <= i <= n,
                n == buf@.len(),
                self.0@.len() == was.len(),
                start + n <= was.len(),
                start + n <= usize::MAX,
                self.0@ == spliced(was, start as int, buf@.take(i as int)),
            decreases n - i,
        {
            self.0[start + i] = buf[i];
            i = i + 1;
            assert(self.0@ =~= spliced(was, start as int, buf@.take(i as int)));
        }
        assert(buf@.take(n as int) =~= buf@);
        Ok(())
    }

    fn flush(&mut self) -> (r: Result<(), Error>) {
        Ok(())
    }

    fn is_writable(&self) -> (r: bool) {
        true
    }

    fn set_len(&mut self, _new_len: u64) -> (r: Result<(), Error>) {
        Err(Error::ReadOnly)
    }

    fn can_grow(&self) -> (r: bool) {
        false
    }
}

/// The bytes that a [`Bytes`] holds.
pub open spec fn bytes_model() -> spec_fn(Bytes, Seq<u8>) -> bool {
    |d: Bytes, bytes: Seq<u8>| d.0@ == bytes && bytes.len() <= u64::MAX
}

/// The bytes that an [`RwBytes`] holds.
pub open spec fn rw_bytes_model() -> spec_fn(RwBytes, Seq<u8>) -> bool {
    |d: RwBytes, bytes: Seq<u8>| d.0@ == bytes && bytes.len() <= u64::MAX
}

/// Bytes in memory are read back as they are, and what is written to them replaces them.
pub proof fn memory_keeps_its_bytes()
    ensures
        reads_back(bytes_model()),
        reads_back(rw_bytes_model()),
        writes_through(rw_bytes_model()),
{
}

/// A request to bytes in memory that does not fit into them is a short read that got nothing, a
/// write too, and changes nothing; one that fits succeeds, and a write then replaces the bytes of
/// its range, each with its own, and no other. Their number never changes.
pub proof fn memory_takes_what_fits(
    pre: RwBytes,
    offset: u64,
    data: Seq<u8>,
    r: Result<(), Error>,
    out: Seq<u8>,
    post: RwBytes,
    i: int,
)
    requires
        pre.0@.len() <= u64::MAX,
        data.len() <= usize::MAX,
    ensures
        pre.size() == pre.0@.len() && pre.writable() && !pre.growable(),
        RwBytes::read_step(&pre, offset, data, r, out, &post) ==> post == pre && if offset
            + data.len() <= pre.0@.len() {
            r is Ok && (0 <= i < data.len() ==> out[i] == pre.0@[offset + i])
        } else {
            r == Err::<(), Error>(
                Error::ShortRead { offset, want: data.len() as usize, got: 0 },
            ) && out == data
        },
        RwBytes::write_step(&pre, offset, data, r, &post) ==> post.0@.len() == pre.0@.len() && if (
        offset + data.len() <= pre.0@.len()) {
            &&& r is Ok
            &&& 0 <= i < data.len() ==> post.0@[offset + i] == data[i]
            &&& 0 <= i < pre.0@.len() && (i < offset || i >= offset + data.len()) ==> post.0@[i]
                == pre.0@[i]
        } else {
            r == Err::<(), Error>(
                Error::ShortRead { offset, want: data.len() as usize, got: 0 },
            ) && post == pre
        },
        RwBytes::set_len_step(&pre, offset, r, &post) ==> r == Err::<(), Error>(Error::ReadOnly)
            && post == pre,
        RwBytes::flush_step(&pre, r, &post) ==> r is Ok && post == pre,
{
}

/// Bytes that can only be read are read as those that can be written too.
pub proof fn both_memories_read_alike(
    a: Bytes,
    b: RwBytes,
    offset: u64,
    buf: Seq<u8>,
    r: Result<(), Error>,
    out: Seq<u8>,
)
    requires
        a.0 == b.0,
    ensures
        Bytes::read_step(&a, offset, buf, r, out, &a) == RwBytes::read_step(
            &b,
            offset,
            buf,
            r,
            out,
            &b,
        ),
        a.size() == b.size(),
{
}

} // verus!
