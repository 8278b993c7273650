//! Devices that hold bytes.
//!
//! A model of a device says which bytes it holds in which state. [`reads_back`] and
//! [`writes_through`] say what it means that a device keeps to its model: a read inside the
//! device gives those bytes, a write inside it replaces them, and anything else is refused. The
//! wrappers of this library carry such a model from the device underneath to themselves.
use crate::block::{BlockDevice, BlockRead};
use crate::error::Error;
use vstd::prelude::*;

verus! {

/// `bytes` with `data` written at `offset`.
pub open spec fn spliced(bytes: Seq<u8>, offset: int, data: Seq<u8>) -> Seq<u8> {
    Seq::new(
        bytes.len(),
        |i: int|
            if offset <= i < offset + data.len() {
                data[i - offset]
            } else {
                bytes[i]
            },
    )
}

/// `bytes` cut off at `new_len`, or followed by zeros up to it.
pub open spec fn resized(bytes: Seq<u8>, new_len: nat) -> Seq<u8> {
    Seq::new(
        new_len,
        |i: int|
            if i < bytes.len() {
                bytes[i]
            } else {
                0u8
            },
    )
}

/// `len` zero bytes.
pub open spec fn zeros(len: nat) -> Seq<u8> {
    Seq::new(len, |i: int| 0u8)
}

/// A read of the device gives the bytes that `model` says it holds, and goes on doing so.
pub open spec fn reads_back<D: BlockRead>(model: spec_fn(D, Seq<u8>) -> bool) -> bool {
    &&& forall|d: D, bytes: Seq<u8>| #[trigger]
        model(d, bytes) ==> d.wf() && d.size() == bytes.len()
    &&& forall|
        d: D,
        bytes: Seq<u8>,
        offset: u64,
        buf: Seq<u8>,
        r: Result<(), Error>,
        out: Seq<u8>,
        post: D,
    |
        #![trigger model(d, bytes), D::read_step(&d, offset, buf, r, out, &post)]
        {
            &&& model(d, bytes)
            &&& D::read_step(&d, offset, buf, r, out, &post)
            &&& out.len() == buf.len()
            &&& post.wf()
        } ==> {
            &&& model(post, bytes)
            &&& offset + buf.len() <= bytes.len() ==> r is Ok && out == bytes.subrange(
                offset as int,
                offset + buf.len(),
            )
            &&& buf.len() > 0 && offset + buf.len() > bytes.len() ==> r is Err
        }
}

/// A write inside the device replaces the bytes that `model` says it holds; any other leaves
/// them. A flush leaves them too.
pub open spec fn writes_through<D: BlockDevice>(model: spec_fn(D, Seq<u8>) -> bool) -> bool {
    &&& forall|d: D, bytes: Seq<u8>, offset: u64, data: Seq<u8>, r: Result<(), Error>, post: D|
        #![trigger model(d, bytes), D::write_step(&d, offset, data, r, &post)]
        {
            &&& model(d, bytes)
            &&& D::write_step(&d, offset, data, r, &post)
            &&& post.wf()
        } ==> if offset + data.len() <= bytes.len() {
            r is Ok && model(post, spliced(bytes, offset as int, data))
        } else {
            (data.len() > 0 ==> r is Err) && model(post, bytes)
        }
    &&& forall|d: D, bytes: Seq<u8>, r: Result<(), Error>, post: D|
        #![trigger model(d, bytes), D::flush_step(&d, r, &post)]
        model(d, bytes) && D::flush_step(&d, r, &post) && post.wf() ==> model(post, bytes)
}

/// The same bytes, but for those from `from` up to `to`.
pub open spec fn differs_only_in(a: Seq<u8>, b: Seq<u8>, from: int, to: int) -> bool {
    &&& a.len() == b.len()
    &&& forall|i: int| 0 <= i < a.len() && !(from <= i < to) ==> #[trigger] b[i] == a[i]
}

/// A write of the device changes no byte outside its range, whatever it does inside it and
/// whatever it answers: it may succeed, be refused, or fail half way.
pub open spec fn writes_in_range<D: BlockDevice>(model: spec_fn(D, Seq<u8>) -> bool) -> bool {
    forall|d: D, bytes: Seq<u8>, offset: u64, data: Seq<u8>, r: Result<(), Error>, post: D|
        #![trigger model(d, bytes), D::write_step(&d, offset, data, r, &post)]
        {
            &&& model(d, bytes)
            &&& D::write_step(&d, offset, data, r, &post)
            &&& post.wf()
        } ==> exists|after: Seq<u8>| #[trigger]
            model(post, after) && differs_only_in(
                bytes,
                after,
                offset as int,
                offset + data.len(),
            )
}

/// A device whose writes succeed whole or leave everything changes nothing outside their range.
pub proof fn whole_writes_stay_in_range<D: BlockDevice>(model: spec_fn(D, Seq<u8>) -> bool)
    requires
        writes_through(model),
    ensures
        writes_in_range(model),
{
    assert forall|d: D, bytes: Seq<u8>, offset: u64, data: Seq<u8>, r: Result<(), Error>, post: D|
        #![trigger model(d, bytes), D::write_step(&d, offset, data, r, &post)]
        {
            &&& model(d, bytes)
            &&& D::write_step(&d, offset, data, r, &post)
            &&& post.wf()
        } implies exists|after: Seq<u8>| #[trigger]
        model(post, after) && differs_only_in(
            bytes,
            after,
            offset as int,
            offset + data.len(),
        ) by {
        let after = if offset + data.len() <= bytes.len() {
            spliced(bytes, offset as int, data)
        } else {
            bytes
        };
        assert(model(post, after));
    }
}

/// Setting the length of the device cuts off the bytes that `model` says it holds, or adds
/// zeros; where it is refused they stay.
pub open spec fn resizes<D: BlockDevice>(model: spec_fn(D, Seq<u8>) -> bool) -> bool {
    forall|d: D, bytes: Seq<u8>, new_len: u64, r: Result<(), Error>, post: D|
        #![trigger model(d, bytes), D::set_len_step(&d, new_len, r, &post)]
        {
            &&& model(d, bytes)
            &&& D::set_len_step(&d, new_len, r, &post)
            &&& post.wf()
        } ==> model(
            post,
            if r is Ok {
                resized(bytes, new_len as nat)
            } else {
                bytes
            },
        )
}

/// What a device was just given to write, it gives back: a read of the same range answers the
/// bytes written, and a read elsewhere answers what was there before.
pub proof fn write_then_read<D: BlockDevice>(
    model: spec_fn(D, Seq<u8>) -> bool,
    d: D,
    bytes: Seq<u8>,
    offset: u64,
    data: Seq<u8>,
    written: Result<(), Error>,
    mid: D,
    at: u64,
    buf: Seq<u8>,
    r: Result<(), Error>,
    out: Seq<u8>,
    post: D,
)
    requires
        reads_back(model),
        writes_through(model),
        model(d, bytes),
        offset + data.len() <= bytes.len(),
        D::write_step(&d, offset, data, written, &mid),
        mid.wf(),
        D::read_step(&mid, at, buf, r, out, &post),
        out.len() == buf.len(),
        post.wf(),
        at + buf.len() <= bytes.len(),
    ensures
        written is Ok,
        r is Ok,
        at == offset && buf.len() == data.len() ==> out == data,
        forall|i: int|
            0 <= i < buf.len() ==> #[trigger] out[i] == if offset <= at + i < offset + data.len() {
                data[at + i - offset]
            } else {
                bytes[at + i]
            },
{
    let after = spliced(bytes, offset as int, data);
    assert(model(mid, after));
    assert(out == after.subrange(at as int, at + buf.len()));
    if at == offset && buf.len() == data.len() {
        assert(out =~= data);
    }
}

/// Writing over some bytes changes those of the range to what is written, each to its own, and no
/// other; changing a length keeps every byte that is left, and those that come are zero.
pub proof fn what_writes_and_lengths_change(
    bytes: Seq<u8>,
    offset: int,
    data: Seq<u8>,
    new_len: nat,
    i: int,
)
    requires
        0 <= offset,
    ensures
        spliced(bytes, offset, data).len() == bytes.len(),
        0 <= i < bytes.len() && (i < offset || i >= offset + data.len()) ==> spliced(
            bytes,
            offset,
            data,
        )[i] == bytes[i],
        0 <= i < data.len() && offset + i < bytes.len() ==> spliced(bytes, offset, data)[offset + i]
            == data[i],
        resized(bytes, new_len).len() == new_len,
        0 <= i < new_len && i < bytes.len() ==> resized(bytes, new_len)[i] == bytes[i],
        bytes.len() <= i < new_len ==> resized(bytes, new_len)[i] == 0,
{
}

} // verus!
