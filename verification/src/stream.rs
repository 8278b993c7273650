//! A device as a stream: reads at a cursor, and seeks.
use crate::block::BlockRead;
use crate::content::reads_back;
use crate::error::{
    out_of_bounds_message, out_of_bounds_text, short_read_message, short_read_text, Error,
};
use vstd::prelude::*;
use vstd::string::*;

verus! {

/// The kinds of I/O failure that a stream makes up itself.
#[derive(Debug, Clone, Copy, PartialEq, Eq, Structural)]
pub enum FailureKind {
    UnexpectedEof,
    PermissionDenied,
    InvalidInput,
    Other,
}

/// Why a stream could not do what it was asked.
#[derive(Debug)]
pub enum IoFailure {
    /// The device's own I/O failure.
    Inner(std::io::Error),
    /// A failure of this kind, with this message.
    New { kind: FailureKind, message: String },
}

/// The failure has this kind and this message.
pub open spec fn is_new(f: IoFailure, kind: FailureKind, message: Seq<char>) -> bool {
    f matches IoFailure::New { kind: k, message: m } && k == kind && m@ == message
}

/// `f` is what a stream makes of the device's error `e`: an I/O failure as it is, an end that
/// came too early, a refusal as a permission denied.
pub open spec fn becomes(e: Error, f: IoFailure) -> bool {
    match e {
        Error::Io(io) => f == IoFailure::Inner(io),
        Error::ShortRead { offset, want, got } => is_new(
            f,
            FailureKind::UnexpectedEof,
            short_read_text(offset, want, got),
        ),
        Error::OutOfBounds { offset, len, size } => is_new(
            f,
            FailureKind::UnexpectedEof,
            out_of_bounds_text(offset, len, size),
        ),
        Error::ReadOnly => is_new(f, FailureKind::PermissionDenied, "device is read-only"@),
        Error::Custom(text) => is_new(f, FailureKind::Other, text@),
    }
}

/// What a stream makes of the device's error.
pub fn fs_core_error_to_io(e: Error) -> (r: IoFailure)
    ensures
        becomes(e, r),
{
    match e {
        Error::Io(io) => IoFailure::Inner(io),
        Error::ShortRead { offset, want, got } => IoFailure::New {
            kind: FailureKind::UnexpectedEof,
            message: short_read_message(offset, want, got),
        },
        Error::OutOfBounds { offset, len, size } => IoFailure::New {
            kind: FailureKind::UnexpectedEof,
            message: out_of_bounds_message(offset, len, size),
        },
        Error::ReadOnly => IoFailure::New {
            kind: FailureKind::PermissionDenied,
            message: "device is read-only".to_owned(),
        },
        Error::Custom(text) => IoFailure::New { kind: FailureKind::Other, message: text },
    }
}

/// What `std::io::Error::new` makes of a kind and a message.
pub uninterp spec fn made_io_error(kind: FailureKind, message: Seq<char>) -> std::io::Error;

/// `std::io::Error::new`: an error of this kind that says this. That depends on the kind and the
/// message alone.
#[verifier::external_body]
fn new_io_error(kind: FailureKind, message: String) -> (r: std::io::Error)
    ensures
        r == made_io_error(kind, message@),
{
    let kind = match kind {
        FailureKind::UnexpectedEof => std::io::ErrorKind::UnexpectedEof,
        FailureKind::PermissionDenied => std::io::ErrorKind::PermissionDenied,
        FailureKind::InvalidInput => std::io::ErrorKind::InvalidInput,
        FailureKind::Other => std::io::ErrorKind::Other,
    };
    std::io::Error::new(kind, message)
}

impl IoFailure {
    /// The failure as an error of the standard library: the device's own as it is, and any other
    /// as an error of its kind that says its message.
    pub fn into_io_error(self) -> (r: std::io::Error)
        ensures
            self matches IoFailure::Inner(e) ==> r == e,
            self matches IoFailure::New { kind, message } ==> r == made_io_error(kind, message@),
    {
        match self {
            IoFailure::Inner(e) => e,
            IoFailure::New { kind, message } => new_io_error(kind, message),
        }
    }
}

/// Where a seek leads.
#[derive(Debug, Clone, Copy, PartialEq, Eq, Structural)]
pub enum SeekFrom {
    /// To this byte.
    Start(u64),
    /// To this many bytes from the end.
    End(i64),
    /// To this many bytes from the cursor.
    Current(i64),
}

/// `base` moved by `delta`, where that is a place in a stream.
pub open spec fn moved(base: u64, delta: i64, r: Result<u64, IoFailure>) -> bool {
    if base + delta > u64::MAX {
        r matches Err(f) && is_new(f, FailureKind::InvalidInput, "seek offset overflows u64"@)
    } else if base + delta < 0 {
        r matches Err(f) && is_new(
            f,
            FailureKind::InvalidInput,
            "seek would place cursor before byte 0"@,
        )
    } else {
        r == Ok::<u64, IoFailure>((base + delta) as u64)
    }
}

/// `base` moved by `delta`. A move past the largest number or before byte 0 is refused.
pub fn offset_from(base: u64, delta: i64) -> (r: Result<u64, IoFailure>)
    ensures
        moved(base, delta, r),
{
    if delta >= 0 {
        match base.checked_add(delta as u64) {
            Some(at) => Ok(at),
            None => Err(
                IoFailure::New {
                    kind: FailureKind::InvalidInput,
                    message: "seek offset overflows u64".to_owned(),
                },
            ),
        }
    } else {
        let back: u64 = if delta == i64::MIN {
            0x8000_0000_0000_0000
        } else {
            (-delta) as u64
        };
        match base.checked_sub(back) {
            Some(at) => Ok(at),
            None => Err(
                IoFailure::New {
                    kind: FailureKind::InvalidInput,
                    message: "seek would place cursor before byte 0".to_owned(),
                },
            ),
        }
    }
}

/// A device and a cursor.
pub struct StreamView<T> {
    pub device: T,
    pub pos: u64,
}

/// How many bytes a read into a buffer of `len` gets: no more than there are.
pub open spec fn readable(size: u64, pos: u64, len: nat) -> nat {
    if pos >= size {
        0
    } else if len < size - pos {
        len
    } else {
        (size - pos) as nat
    }
}

/// A read of a stream. At or past the end, and into an empty buffer, nothing is read; else the
/// device is asked for what there is, and the cursor moves over it if the device could give it.
pub open spec fn stream_read_step<T: BlockRead>(
    pre: StreamView<T>,
    buf: Seq<u8>,
    r: Result<usize, IoFailure>,
    out: Seq<u8>,
    post: StreamView<T>,
) -> bool {
    let n = readable(pre.device.size(), pre.pos, buf.len());
    if n == 0 {
        r == Ok::<usize, IoFailure>(0) && out == buf && post == pre
    } else {
        &&& out.len() == buf.len()
        &&& out.skip(n as int) == buf.skip(n as int)
        &&& exists|answer: Result<(), Error>| #[trigger]
            device_answered(pre, n, buf, answer, r, out, post)
    }
}

/// The device was asked for the `n` bytes at the cursor, and answered `answer`.
pub open spec fn device_answered<T: BlockRead>(
    pre: StreamView<T>,
    n: nat,
    buf: Seq<u8>,
    answer: Result<(), Error>,
    r: Result<usize, IoFailure>,
    out: Seq<u8>,
    post: StreamView<T>,
) -> bool {
    &&& T::read_step(
        &pre.device,
        pre.pos,
        buf.take(n as int),
        answer,
        out.take(n as int),
        &post.device,
    )
    &&& match answer {
        Ok(_) => r == Ok::<usize, IoFailure>(n as usize) && post.pos == pre.pos + n,
        Err(e) => post.pos == pre.pos && r is Err && becomes(e, r->Err_0),
    }
}

/// A seek of a stream: it moves the cursor, past the end too, or refuses.
pub open spec fn stream_seek_step<T: BlockRead>(
    pre: StreamView<T>,
    to: SeekFrom,
    r: Result<u64, IoFailure>,
    post: StreamView<T>,
) -> bool {
    &&& match to {
        SeekFrom::Start(n) => r == Ok::<u64, IoFailure>(n),
        SeekFrom::End(delta) => moved(pre.device.size(), delta, r),
        SeekFrom::Current(delta) => moved(pre.pos, delta, r),
    }
    &&& post == StreamView {
        pos: match r {
            Ok(at) => at,
            Err(_) => pre.pos,
        },
        ..pre
    }
}

/// A cursor over a device.
pub struct BlockReadStreamer<T> {
    inner: T,
    pos: u64,
}

impl<T> View for BlockReadStreamer<T> {
    type V = StreamView<T>;

    closed spec fn view(&self) -> StreamView<T> {
        StreamView { device: self.inner, pos: self.pos }
    }
}

impl<T: BlockRead> BlockReadStreamer<T> {
    /// A stream from the first byte.
    pub fn new(inner: T) -> (r: Self)
        ensures
            r@ == (StreamView { device: inner, pos: 0 }),
    {
        BlockReadStreamer { inner, pos: 0 }
    }

    /// A stream from byte `pos`.
    pub fn with_position(inner: T, pos: u64) -> (r: Self)
        ensures
            r@ == (StreamView { device: inner, pos }),
    {
        BlockReadStreamer { inner, pos }
    }

    /// Where the cursor stands.
    pub fn position(&self) -> (r: u64)
        ensures
            r == self@.pos,
    {
        self.pos
    }

    /// Borrow the device.
    pub fn get_ref(&self) -> (r: &T)
        ensures
            *r == self@.device,
    {
        &self.inner
    }

    /// Take the device back.
    pub fn into_inner(self) -> (r: T)
        ensures
            r == self@.device,
    {
        self.inner
    }

    /// Read at the cursor, as much as there is and the buffer takes.
    pub fn read(&mut self, buf: &mut [u8]) -> (r: Result<usize, IoFailure>)
        requires
            old(self)@.device.wf(),
        ensures
            final(self)@.device.wf(),
            final(buf)@.len() == old(buf)@.len(),
            stream_read_step(old(self)@, old(buf)@, r, final(buf)@, final(self)@),
    {
        let size: u64 = self.inner.size_bytes();
        if self.pos >= size {
            return Ok(0);
        }
        let remaining: u64 = size - self.pos;
        let len: usize = buf.len();
        let n: usize = if (len as u64) < remaining {
            len
        } else {
            remaining as usize
        };
        if n == 0 {
            return Ok(0);
        }
        let ghost was = self@;
        let ghost buf0 = buf@;
        let (head, tail) = buf.split_at_mut(n);
        assert(head@ =~= buf0.take(n as int));
        let answer = self.inner.read_at(self.pos, head);
        proof {
            assert(buf@.take(n as int) =~= head@);
            assert(buf@.skip(n as int) =~= tail@);
            assert(tail@ =~= buf0.skip(n as int));
            let there = readable(was.device.size(), was.pos, buf0.len());
            assert(n == there);
            assert(T::read_step(
                &was.device,
                was.pos,
                buf0.take(there as int),
                answer,
                buf@.take(there as int),
                &self@.device,
            ));
        }
        let r = match answer {
            Ok(_) => {
                self.pos = self.pos + n as u64;
                Ok(n)
            },
            Err(e) => Err(fs_core_error_to_io(e)),
        };
        assert(device_answered(was, n as nat, buf0, answer, r, buf@, self@));
        r
    }

    /// Move the cursor.
    pub fn seek(&mut self, to: SeekFrom) -> (r: Result<u64, IoFailure>)
        requires
            old(self)@.device.wf(),
        ensures
            stream_seek_step(old(self)@, to, r, final(self)@),
    {
        let moved = match to {
            SeekFrom::Start(n) => Ok(n),
            SeekFrom::End(delta) => offset_from(self.inner.size_bytes(), delta),
            SeekFrom::Current(delta) => offset_from(self.pos, delta),
        };
        match moved {
            Ok(at) => {
                self.pos = at;
                Ok(at)
            },
            Err(f) => Err(f),
        }
    }
}

/// A stream over a device that keeps to a model reads its bytes in order: as many as there are
/// and the buffer takes, and the cursor moves over exactly those. At the end it reads nothing.
pub proof fn streams_read_in_order<T: BlockRead>(
    model: spec_fn(T, Seq<u8>) -> bool,
    pre: StreamView<T>,
    bytes: Seq<u8>,
    buf: Seq<u8>,
    r: Result<usize, IoFailure>,
    out: Seq<u8>,
    post: StreamView<T>,
)
    requires
        reads_back(model),
        model(pre.device, bytes),
        buf.len() <= usize::MAX,
        stream_read_step(pre, buf, r, out, post),
        post.device.wf(),
    ensures
        ({
            let n = readable(pre.device.size(), pre.pos, buf.len());
            &&& r == Ok::<usize, IoFailure>(n as usize)
            &&& post.pos == pre.pos + n
            &&& model(post.device, bytes)
            &&& n > 0 ==> out.take(n as int) == bytes.subrange(pre.pos as int, pre.pos + n)
            &&& n == 0 <==> buf.len() == 0 || pre.pos >= bytes.len()
        }),
{
    let n = readable(pre.device.size(), pre.pos, buf.len());
    if n > 0 {
        let answer = choose|answer: Result<(), Error>| #[trigger]
            device_answered(pre, n, buf, answer, r, out, post);
        assert(T::read_step(
            &pre.device,
            pre.pos,
            buf.take(n as int),
            answer,
            out.take(n as int),
            &post.device,
        ));
        assert(model(post.device, bytes));
    }
}

/// A seek from the start leads to the byte it names, one from the end to as far from the device's
/// size, and one from the cursor to as far from there; it answers where it led, and the device
/// stays. Where there is no such place, below byte 0 or past the largest number, it is refused and
/// the cursor stays.
pub proof fn seeks_lead_where_they_say<T: BlockRead>(
    pre: StreamView<T>,
    to: SeekFrom,
    r: Result<u64, IoFailure>,
    post: StreamView<T>,
)
    requires
        stream_seek_step(pre, to, r, post),
    ensures
        ({
            let place = match to {
                SeekFrom::Start(n) => n as int,
                SeekFrom::End(delta) => pre.device.size() + delta,
                SeekFrom::Current(delta) => pre.pos + delta,
            };
            &&& 0 <= place <= u64::MAX <==> r is Ok
            &&& r matches Ok(at) ==> at == place && post.pos == place
            &&& r is Err ==> post.pos == pre.pos
            &&& r matches Err(f) ==> (f matches IoFailure::New { kind, message } && kind
                == FailureKind::InvalidInput && message@ == if place < 0 {
                "seek would place cursor before byte 0"@
            } else {
                "seek offset overflows u64"@
            })
            &&& post.device == pre.device
        }),
{
}

/// The way to ask how long a stream is: a seek to its end answers the device's size, and a read
/// from there gets nothing. One that leads `back` bytes before the end leaves exactly those to a
/// buffer that takes them.
pub proof fn seeking_to_the_end_measures_the_device<T: BlockRead>(
    pre: StreamView<T>,
    back: i64,
    r: Result<u64, IoFailure>,
    mid: StreamView<T>,
    buf: Seq<u8>,
    got: Result<usize, IoFailure>,
    out: Seq<u8>,
    post: StreamView<T>,
)
    requires
        0 <= back <= pre.device.size(),
        stream_seek_step(pre, SeekFrom::End((-back) as i64), r, mid),
        buf.len() <= usize::MAX,
        stream_read_step(mid, buf, got, out, post),
    ensures
        r matches Ok(at) && at + back == pre.device.size(),
        back == 0 ==> r == Ok::<u64, IoFailure>(pre.device.size()) && got == Ok::<
            usize,
            IoFailure,
        >(0) && post == mid,
        back > 0 && buf.len() >= back && got is Ok ==> got->Ok_0 == back && post.pos
            == pre.device.size(),
{
}

/// A seek away and back leaves the stream as it was.
pub proof fn seeking_there_and_back_returns<T: BlockRead>(
    pre: StreamView<T>,
    delta: i64,
    there: Result<u64, IoFailure>,
    mid: StreamView<T>,
    back: Result<u64, IoFailure>,
    post: StreamView<T>,
)
    requires
        delta != i64::MIN,
        stream_seek_step(pre, SeekFrom::Current(delta), there, mid),
        there is Ok,
        stream_seek_step(mid, SeekFrom::Current((-delta) as i64), back, post),
    ensures
        back == Ok::<u64, IoFailure>(pre.pos),
        post == pre,
{
}

/// One read of a stream: the buffer before and after it, and how many bytes it got.
pub struct StreamRead {
    pub buf: Seq<u8>,
    pub out: Seq<u8>,
    pub n: usize,
}

/// Reads of a stream one after the other, none of which fails.
pub open spec fn is_streaming<T: BlockRead>(
    streams: Seq<StreamView<T>>,
    reads: Seq<StreamRead>,
) -> bool {
    &&& streams.len() == reads.len() + 1
    &&& forall|k: int|
        0 <= k < reads.len() ==> {
            &&& stream_read_step(
                streams[k],
                (#[trigger] reads[k]).buf,
                Ok(reads[k].n),
                reads[k].out,
                streams[k + 1],
            )
            &&& reads[k].buf.len() <= usize::MAX
            &&& streams[k + 1].device.wf()
        }
}

/// Everything that some reads got, in order.
pub open spec fn all_read(reads: Seq<StreamRead>) -> Seq<u8>
    decreases reads.len(),
{
    if reads.len() == 0 {
        Seq::empty()
    } else {
        all_read(reads.drop_last()) + reads.last().out.take(reads.last().n as int)
    }
}

/// Reading on until a read into a buffer with room gets nothing gives every byte from the cursor
/// to the end of the device, each once and in order.
pub proof fn streaming_gives_every_byte<T: BlockRead>(
    model: spec_fn(T, Seq<u8>) -> bool,
    bytes: Seq<u8>,
    streams: Seq<StreamView<T>>,
    reads: Seq<StreamRead>,
)
    requires
        reads_back(model),
        model(streams[0].device, bytes),
        streams[0].pos <= bytes.len(),
        is_streaming(streams, reads),
    ensures
        streams[0].pos <= streams.last().pos <= bytes.len(),
        model(streams.last().device, bytes),
        all_read(reads) == bytes.subrange(streams[0].pos as int, streams.last().pos as int),
        reads.len() > 0 && reads.last().n == 0 && reads.last().buf.len() > 0 ==> all_read(reads)
            == bytes.skip(streams[0].pos as int),
    decreases reads.len(),
{
    if reads.len() == 0 {
        assert(all_read(reads) =~= bytes.subrange(
            streams[0].pos as int,
            streams.last().pos as int,
        ));
    } else {
        let k = reads.len() - 1;
        let earlier = streams.drop_last();
        let first = reads.drop_last();
        assert forall|m: int| 0 <= m < first.len() implies {
            &&& stream_read_step(
                earlier[m],
                (#[trigger] first[m]).buf,
                Ok(first[m].n),
                first[m].out,
                earlier[m + 1],
            )
            &&& first[m].buf.len() <= usize::MAX
            &&& earlier[m + 1].device.wf()
        } by {
            assert(first[m] == reads[m]);
        }
        streaming_gives_every_byte(model, bytes, earlier, first);
        assert(earlier.last() == streams[k]);
        assert(reads[k] == reads.last());
        streams_read_in_order(
            model,
            streams[k],
            bytes,
            reads[k].buf,
            Ok(reads[k].n),
            reads[k].out,
            streams[k + 1],
        );
        let n = readable(streams[k].device.size(), streams[k].pos, reads[k].buf.len());
        assert(streams[k].device.size() == bytes.len());
        if n == 0 {
            assert(reads[k].out.take(0) =~= Seq::<u8>::empty());
        }
        assert(all_read(reads) =~= bytes.subrange(
            streams[0].pos as int,
            streams.last().pos as int,
        ));
        if reads.last().n == 0 && reads.last().buf.len() > 0 {
            assert(all_read(reads) =~= bytes.skip(streams[0].pos as int));
        }
    }
}

/// A read gets as much as the buffer takes, and no less than that unless the device ends before
/// it: then it gets everything up to the end. The device is asked for that in one read, at the
/// cursor, the cursor moves behind it, and the rest of the buffer stays.
pub proof fn streams_read_as_much_as_there_is<T: BlockRead>(
    pre: StreamView<T>,
    buf: Seq<u8>,
    r: Result<usize, IoFailure>,
    out: Seq<u8>,
    post: StreamView<T>,
)
    requires
        buf.len() <= usize::MAX,
        stream_read_step(pre, buf, r, out, post),
    ensures
        r matches Ok(n) ==> {
            &&& post.pos == pre.pos + n
            &&& pre.pos + buf.len() <= pre.device.size() ==> n == buf.len()
            &&& pre.pos <= pre.device.size() && pre.pos + buf.len() > pre.device.size() ==> pre.pos
                + n == pre.device.size()
            &&& pre.pos > pre.device.size() ==> n == 0
            &&& n == 0 ==> post == pre && out == buf
            &&& n > 0 ==> T::read_step(
                &pre.device,
                pre.pos,
                buf.take(n as int),
                Ok(()),
                out.take(n as int),
                &post.device,
            ) && out.skip(n as int) == buf.skip(n as int)
        },
        r is Err ==> post.pos == pre.pos && pre.pos < pre.device.size() && buf.len() > 0,
{
    let n = readable(pre.device.size(), pre.pos, buf.len());
    if n > 0 {
        let answer = choose|answer: Result<(), Error>| #[trigger]
            device_answered(pre, n, buf, answer, r, out, post);
        if answer is Ok {
            assert(answer->Ok_0 == ());
            assert(answer == Ok::<(), Error>(()));
        }
    }
}

/// What a stream makes of a device's error: an I/O failure stays what it was, an end that came too
/// early is one, a refusal is a permission denied, and a driver's own error keeps its words.
pub proof fn failures_keep_their_meaning(e: Error, f: IoFailure)
    requires
        becomes(e, f),
    ensures
        e matches Error::Io(io) ==> (f matches IoFailure::Inner(same) && same == io),
        e is ShortRead || e is OutOfBounds ==> (f matches IoFailure::New { kind, message } && kind
            == FailureKind::UnexpectedEof && crate::error::says(e, message@)),
        e is ReadOnly ==> (f matches IoFailure::New { kind, message } && kind
            == FailureKind::PermissionDenied && crate::error::says(e, message@)),
        e is Custom ==> (f matches IoFailure::New { kind, message } && kind == FailureKind::Other
            && crate::error::says(e, message@)),
{
}

} // verus!
