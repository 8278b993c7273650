//! What holds of a window, whatever the parent.
use crate::block::{BlockDevice, BlockRead};
use crate::content::{reads_back, spliced, writes_through};
use crate::error::Error;
use crate::slice::{
    clamped, inside, rebased, slice_read_step, slice_write_step, window, OwnedRwSlice, OwnedSlice,
    SliceGeometry, SliceReader, SliceView,
};
use vstd::prelude::*;

verus! {

/// A window never has a byte that its parent does not have, nor more bytes than were asked for,
/// and has all of them where the parent does.
pub proof fn window_stays_on_its_parent(parent_size: u64, start: u64, length: u64)
    ensures
        inside(clamped(parent_size, start, length), parent_size),
        clamped(parent_size, start, length).length <= length,
        start + length <= parent_size ==> clamped(parent_size, start, length).length == length,
        window(parent_size, start, length) is None <==> start >= parent_size,
        start >= parent_size ==> clamped(parent_size, start, length).length == 0,
{
}

/// A window that the parent has whole is as long as was asked, and one that runs off the parent's
/// end reaches exactly to it: its last byte is the parent's last, wherever it starts.
pub proof fn window_reaches_as_far_as_it_can(parent_size: u64, start: u64, length: u64)
    ensures
        start < parent_size && start + length <= parent_size ==> window(
            parent_size,
            start,
            length,
        ) == Some(length),
        start < parent_size && start + length > parent_size ==> (window(
            parent_size,
            start,
            length,
        ) matches Some(there) && start + there == parent_size),
        start >= parent_size ==> window(parent_size, start, length) is None,
        clamped(parent_size, start, length).start == start,
        start < parent_size && start + length > parent_size ==> start + clamped(
            parent_size,
            start,
            length,
        ).length == parent_size,
{
}

/// Of two windows at one place the one asked to be longer is no shorter, and every further byte
/// that the parent has shows in a window asked to be one longer.
pub proof fn longer_windows_show_more(parent_size: u64, start: u64, length: u64, more: u64)
    requires
        length <= more,
        start < parent_size,
    ensures
        window(parent_size, start, length)->0 <= window(parent_size, start, more)->0,
        start + window(parent_size, start, length)->0 < parent_size && length < u64::MAX ==> window(
            parent_size,
            start,
            (length + 1) as u64,
        ) == Some((window(parent_size, start, length)->0 + 1) as u64),
{
}

/// What is asked of an owned read-only window, inside it, is asked of the parent at `start +
/// offset` and answered by it, a read of nothing too; what is asked outside it asks the parent
/// nothing. It takes no write and no length, and has nothing to flush.
pub proof fn owned_windows_hand_on_what_is_inside<P: BlockRead>(
    pre: OwnedSlice<P>,
    offset: u64,
    buf: Seq<u8>,
    r: Result<(), Error>,
    out: Seq<u8>,
    post: OwnedSlice<P>,
)
    requires
        OwnedSlice::<P>::read_step(&pre, offset, buf, r, out, &post),
    ensures
        pre.size() == pre@.geom.length,
        post@.geom == pre@.geom,
        offset + buf.len() <= pre@.geom.length && pre@.geom.start + offset <= u64::MAX
            ==> P::read_step(
            &pre@.parent,
            (pre@.geom.start + offset) as u64,
            buf,
            r,
            out,
            &post@.parent,
        ),
        offset + buf.len() > pre@.geom.length ==> r is Err && out == buf && post@ == pre@,
        !pre.writable() && !pre.growable(),
        OwnedSlice::<P>::write_step(&pre, offset, buf, r, &post) ==> r == Err::<(), Error>(
            Error::ReadOnly,
        ) && post@ == pre@,
        OwnedSlice::<P>::set_len_step(&pre, offset, r, &post) ==> r == Err::<(), Error>(
            Error::ReadOnly,
        ) && post@ == pre@,
        OwnedSlice::<P>::flush_step(&pre, r, &post) ==> r is Ok && post@ == pre@,
{
}

/// What is asked of a written window, inside it, is asked of the parent at `start + offset` and
/// answered by it, where the parent takes writes; a flush is the parent's. It takes no length,
/// whatever the parent takes.
pub proof fn written_windows_hand_on_what_is_inside<P: BlockDevice>(
    pre: OwnedRwSlice<P>,
    offset: u64,
    data: Seq<u8>,
    r: Result<(), Error>,
    out: Seq<u8>,
    post: OwnedRwSlice<P>,
)
    requires
        pre@.geom.start + pre@.geom.length <= u64::MAX,
    ensures
        pre.size() == pre@.geom.length,
        pre.writable() == pre@.parent.writable(),
        !pre.growable(),
        OwnedRwSlice::<P>::read_step(&pre, offset, data, r, out, &post) ==> post@.geom == pre@.geom
            && if offset + data.len() <= pre@.geom.length {
            P::read_step(
                &pre@.parent,
                (pre@.geom.start + offset) as u64,
                data,
                r,
                out,
                &post@.parent,
            )
        } else {
            r is Err && out == data && post@ == pre@
        },
        OwnedRwSlice::<P>::write_step(&pre, offset, data, r, &post) ==> post@.geom == pre@.geom
            && if offset + data.len() > pre@.geom.length {
            r is Err && post@ == pre@
        } else if pre@.parent.writable() {
            P::write_step(
                &pre@.parent,
                (pre@.geom.start + offset) as u64,
                data,
                r,
                &post@.parent,
            )
        } else {
            r == Err::<(), Error>(Error::ReadOnly) && post@ == pre@
        },
        OwnedRwSlice::<P>::flush_step(&pre, r, &post) ==> P::flush_step(
            &pre@.parent,
            r,
            &post@.parent,
        ) && post@.geom == pre@.geom,
        OwnedRwSlice::<P>::set_len_step(&pre, offset, r, &post) ==> r == Err::<(), Error>(
            Error::ReadOnly,
        ) && post@ == pre@,
{
}

/// The bytes of the parent that a window shows.
pub open spec fn shown(bytes: Seq<u8>, geom: SliceGeometry) -> Seq<u8> {
    if geom.length == 0 {
        Seq::empty()
    } else {
        bytes.subrange(geom.start as int, geom.start + geom.length)
    }
}

/// A window on a parent that holds some bytes, of which it shows `part`.
pub open spec fn shows<P: BlockRead>(
    model: spec_fn(P, Seq<u8>) -> bool,
    s: SliceView<P>,
    part: Seq<u8>,
) -> bool {
    exists|bytes: Seq<u8>| #[trigger] model(s.parent, bytes) && part == shown(bytes, s.geom)
}

/// A read inside the window gives the parent's bytes from `start + offset` on; any other is
/// refused, and leaves the buffer as it was.
pub proof fn window_reads_the_parents_bytes<P: BlockRead>(
    model: spec_fn(P, Seq<u8>) -> bool,
    pre: SliceView<P>,
    bytes: Seq<u8>,
    offset: u64,
    buf: Seq<u8>,
    r: Result<(), Error>,
    out: Seq<u8>,
    post: SliceView<P>,
)
    requires
        reads_back(model),
        model(pre.parent, bytes),
        inside(pre.geom, pre.parent.size()),
        slice_read_step(pre, offset, buf, r, out, post),
        out.len() == buf.len(),
        post.parent.wf(),
    ensures
        model(post.parent, bytes),
        post.geom == pre.geom,
        buf.len() > 0 && offset + buf.len() <= pre.geom.length ==> r is Ok && out
            == bytes.subrange(
            pre.geom.start + offset,
            pre.geom.start + offset + buf.len(),
        ),
        offset + buf.len() > pre.geom.length ==> r == Err::<(), Error>(
            Error::ShortRead { offset, want: buf.len() as usize, got: 0 },
        ) && out == buf && post == pre,
{
    match rebased(pre.geom, offset, buf.len()) {
        Some(at) => {
            assert(P::read_step(&pre.parent, at, buf, r, out, &post.parent));
        },
        None => {},
    }
}

/// A write inside the window of a parent that takes writes replaces the parent's bytes from
/// `start + offset` on, and none outside the window; any other write reaches no byte.
pub proof fn window_writes_the_parents_bytes<P: BlockDevice>(
    model: spec_fn(P, Seq<u8>) -> bool,
    pre: SliceView<P>,
    bytes: Seq<u8>,
    offset: u64,
    data: Seq<u8>,
    r: Result<(), Error>,
    post: SliceView<P>,
)
    requires
        reads_back(model),
        writes_through(model),
        model(pre.parent, bytes),
        inside(pre.geom, pre.parent.size()),
        slice_write_step(pre, offset, data, r, post),
        post.parent.wf(),
    ensures
        post.geom == pre.geom,
        data.len() > 0 && offset + data.len() <= pre.geom.length && pre.parent.writable() ==> r
            is Ok && model(post.parent, spliced(bytes, pre.geom.start + offset, data)),
        offset + data.len() > pre.geom.length ==> r == Err::<(), Error>(
            Error::OutOfBounds { offset, len: data.len() as u64, size: pre.geom.length },
        ) && post == pre,
        offset + data.len() <= pre.geom.length && !pre.parent.writable() && pre.geom.length > 0
            ==> r == Err::<(), Error>(Error::ReadOnly) && post == pre,
        forall|i: int|
            0 <= i < bytes.len() && !(pre.geom.start <= i < pre.geom.start + pre.geom.length)
                && offset + data.len() <= pre.geom.length ==> #[trigger] spliced(
                bytes,
                pre.geom.start + offset,
                data,
            )[i] == bytes[i],
{
    match rebased(pre.geom, offset, data.len()) {
        Some(at) => {
            if pre.parent.writable() {
                assert(P::write_step(&pre.parent, at, data, r, &post.parent));
            }
        },
        None => {},
    }
}

/// The window that a window on a window is: it starts where the two starts add up to.
pub open spec fn nested(outer: SliceGeometry, inner: SliceGeometry) -> SliceGeometry {
    SliceGeometry { start: (outer.start + inner.start) as u64, length: inner.length }
}

/// A window on a window is one window: what fits into the inner one stands on the innermost
/// parent where the nested window says, and nothing else does.
pub proof fn nested_windows_add_up(
    parent_size: u64,
    outer: SliceGeometry,
    inner: SliceGeometry,
    offset: u64,
    len: nat,
)
    requires
        inside(outer, parent_size),
        inside(inner, outer.length),
        len > 0,
    ensures
        rebased(nested(outer, inner), offset, len) == match rebased(inner, offset, len) {
            Some(at) => rebased(outer, at, len),
            None => None,
        },
{
}

/// A read of a window on a window, inside the inner one, is a read of the innermost parent at
/// the sum of both starts and the offset.
pub proof fn nested_windows_read_the_innermost_parent<P: BlockRead>(
    pre: SliceView<OwnedSlice<P>>,
    offset: u64,
    buf: Seq<u8>,
    r: Result<(), Error>,
    out: Seq<u8>,
    post: SliceView<OwnedSlice<P>>,
)
    requires
        pre.parent.wf(),
        inside(pre.geom, pre.parent.size()),
        buf.len() > 0,
        offset + buf.len() <= pre.geom.length,
        slice_read_step(pre, offset, buf, r, out, post),
    ensures
        P::read_step(
            &pre.parent@.parent,
            (pre.parent@.geom.start + pre.geom.start + offset) as u64,
            buf,
            r,
            out,
            &post.parent@.parent,
        ),
{
}

/// The borrowed and the owned window do the same.
pub proof fn borrowed_and_owned_windows_agree<P: BlockRead>(
    borrowed: SliceReader<'_, P>,
    borrowed_post: SliceReader<'_, P>,
    owned: OwnedSlice<P>,
    owned_post: OwnedSlice<P>,
    offset: u64,
    buf: Seq<u8>,
    r: Result<(), Error>,
    out: Seq<u8>,
)
    requires
        borrowed@ == owned@,
        borrowed_post@ == owned_post@,
    ensures
        SliceReader::<'_, P>::read_step(&borrowed, offset, buf, r, out, &borrowed_post)
            <==> OwnedSlice::<P>::read_step(&owned, offset, buf, r, out, &owned_post),
        borrowed.size() == owned.size(),
{
}

/// The same span outside the window is a short read for a read and out of bounds for a write.
pub proof fn outside_is_short_or_out_of_bounds<P: BlockDevice>(
    pre: SliceView<P>,
    offset: u64,
    buf: Seq<u8>,
    read: Result<(), Error>,
    out: Seq<u8>,
    after_read: SliceView<P>,
    written: Result<(), Error>,
    after_write: SliceView<P>,
)
    requires
        offset + buf.len() > pre.geom.length,
        slice_read_step(pre, offset, buf, read, out, after_read),
        slice_write_step(pre, offset, buf, written, after_write),
    ensures
        read == Err::<(), Error>(Error::ShortRead { offset, want: buf.len() as usize, got: 0 }),
        written == Err::<(), Error>(
            Error::OutOfBounds { offset, len: buf.len() as u64, size: pre.geom.length },
        ),
        after_read == pre,
        after_write == pre,
{
}

/// A model of the parent, as a model of an owned window on it.
pub open spec fn slice_model<P: BlockRead>(model: spec_fn(P, Seq<u8>) -> bool) -> spec_fn(
    OwnedSlice<P>,
    Seq<u8>,
) -> bool {
    |s: OwnedSlice<P>, part: Seq<u8>| s.wf() && s@.geom.length > 0 && shows(model, s@, part)
}

/// A model of the parent, as a model of a written window on it.
pub open spec fn rw_slice_model<P: BlockDevice>(model: spec_fn(P, Seq<u8>) -> bool) -> spec_fn(
    OwnedRwSlice<P>,
    Seq<u8>,
) -> bool {
    |s: OwnedRwSlice<P>, part: Seq<u8>| s.wf() && s@.geom.length > 0 && shows(model, s@, part)
}

/// A window that is not empty is a device of its own: it holds the bytes it shows.
pub proof fn windows_read_back<P: BlockRead>(model: spec_fn(P, Seq<u8>) -> bool)
    requires
        reads_back(model),
    ensures
        reads_back(slice_model(model)),
{
    assert forall|
        d: OwnedSlice<P>,
        part: Seq<u8>,
        offset: u64,
        buf: Seq<u8>,
        r: Result<(), Error>,
        out: Seq<u8>,
        post: OwnedSlice<P>,
    |
        #![trigger slice_model(model)(d, part), OwnedSlice::<P>::read_step(&d, offset, buf, r, out, &post)]
        {
            &&& slice_model(model)(d, part)
            &&& OwnedSlice::<P>::read_step(&d, offset, buf, r, out, &post)
            &&& out.len() == buf.len()
            &&& post.wf()
        } implies {
        &&& slice_model(model)(post, part)
        &&& offset + buf.len() <= part.len() ==> r is Ok && out == part.subrange(
            offset as int,
            offset + buf.len(),
        )
        &&& buf.len() > 0 && offset + buf.len() > part.len() ==> r is Err
    } by {
        lemma_window_read(model, d@, part, offset, buf, r, out, post@);
    }
}

proof fn lemma_window_read<P: BlockRead>(
    model: spec_fn(P, Seq<u8>) -> bool,
    pre: SliceView<P>,
    part: Seq<u8>,
    offset: u64,
    buf: Seq<u8>,
    r: Result<(), Error>,
    out: Seq<u8>,
    post: SliceView<P>,
)
    requires
        reads_back(model),
        shows(model, pre, part),
        pre.geom.length > 0,
        inside(pre.geom, pre.parent.size()),
        slice_read_step(pre, offset, buf, r, out, post),
        out.len() == buf.len(),
        post.parent.wf(),
    ensures
        shows(model, post, part),
        post.geom == pre.geom,
        offset + buf.len() <= part.len() ==> r is Ok && out == part.subrange(
            offset as int,
            offset + buf.len(),
        ),
        buf.len() > 0 && offset + buf.len() > part.len() ==> r is Err,
{
    let bytes = choose|bytes: Seq<u8>| #[trigger]
        model(pre.parent, bytes) && part == shown(bytes, pre.geom);
    assert(model(pre.parent, bytes));
    match rebased(pre.geom, offset, buf.len()) {
        Some(at) => {
            assert(P::read_step(&pre.parent, at, buf, r, out, &post.parent));
            assert(model(post.parent, bytes));
            if offset + buf.len() <= part.len() {
                assert(out =~= part.subrange(offset as int, offset + buf.len()));
            }
        },
        None => {},
    }
}

/// A written window that is not empty, on a parent that takes writes, is a device of its own:
/// what is written to it is what it then shows.
pub proof fn windows_write_through<P: BlockDevice>(model: spec_fn(P, Seq<u8>) -> bool)
    requires
        reads_back(model),
        writes_through(model),
        forall|p: P, bytes: Seq<u8>| #[trigger] model(p, bytes) ==> p.writable(),
    ensures
        reads_back(rw_slice_model(model)),
        writes_through(rw_slice_model(model)),
{
    assert forall|
        d: OwnedRwSlice<P>,
        part: Seq<u8>,
        offset: u64,
        buf: Seq<u8>,
        r: Result<(), Error>,
        out: Seq<u8>,
        post: OwnedRwSlice<P>,
    |
        #![trigger rw_slice_model(model)(d, part), OwnedRwSlice::<P>::read_step(&d, offset, buf, r, out, &post)]
        {
            &&& rw_slice_model(model)(d, part)
            &&& OwnedRwSlice::<P>::read_step(&d, offset, buf, r, out, &post)
            &&& out.len() == buf.len()
            &&& post.wf()
        } implies {
        &&& rw_slice_model(model)(post, part)
        &&& offset + buf.len() <= part.len() ==> r is Ok && out == part.subrange(
            offset as int,
            offset + buf.len(),
        )
        &&& buf.len() > 0 && offset + buf.len() > part.len() ==> r is Err
    } by {
        lemma_window_read(model, d@, part, offset, buf, r, out, post@);
    }
    assert forall|
        d: OwnedRwSlice<P>,
        part: Seq<u8>,
        offset: u64,
        data: Seq<u8>,
        r: Result<(), Error>,
        post: OwnedRwSlice<P>,
    |
        #![trigger rw_slice_model(model)(d, part), OwnedRwSlice::<P>::write_step(&d, offset, data, r, &post)]
        {
            &&& rw_slice_model(model)(d, part)
            &&& OwnedRwSlice::<P>::write_step(&d, offset, data, r, &post)
            &&& post.wf()
        } implies if offset + data.len() <= part.len() {
        r is Ok && rw_slice_model(model)(post, spliced(part, offset as int, data))
    } else {
        (data.len() > 0 ==> r is Err) && rw_slice_model(model)(post, part)
    } by {
        let bytes = choose|bytes: Seq<u8>| #[trigger]
            model(d@.parent, bytes) && part == shown(bytes, d@.geom);
        assert(model(d@.parent, bytes));
        match rebased(d@.geom, offset, data.len()) {
            Some(at) => {
                assert(P::write_step(&d@.parent, at, data, r, &post@.parent));
                let after = spliced(bytes, at as int, data);
                assert(model(post@.parent, after));
                assert(spliced(part, offset as int, data) =~= shown(after, d@.geom));
            },
            None => {},
        }
    }
    assert forall|d: OwnedRwSlice<P>, part: Seq<u8>, r: Result<(), Error>, post: OwnedRwSlice<P>|
        #![trigger rw_slice_model(model)(d, part), OwnedRwSlice::<P>::flush_step(&d, r, &post)]
        rw_slice_model(model)(d, part) && OwnedRwSlice::<P>::flush_step(&d, r, &post)
            && post.wf() implies rw_slice_model(model)(post, part) by {
        let bytes = choose|bytes: Seq<u8>| #[trigger]
            model(d@.parent, bytes) && part == shown(bytes, d@.geom);
        assert(model(d@.parent, bytes));
        assert(P::flush_step(&d@.parent, r, &post@.parent));
        assert(model(post@.parent, bytes));
    }
}

/// A borrowed window hands on to its parent what is inside it, as an owned one does, and takes no
/// write and no length; it has nothing to flush.
pub proof fn borrowed_windows_hand_on_what_is_inside<'a, P: BlockRead>(
    pre: SliceReader<'a, P>,
    offset: u64,
    buf: Seq<u8>,
    r: Result<(), Error>,
    out: Seq<u8>,
    post: SliceReader<'a, P>,
)
    requires
        pre@.geom.start + pre@.geom.length <= u64::MAX,
    ensures
        pre.size() == pre@.geom.length && !pre.writable() && !pre.growable(),
        SliceReader::<'a, P>::read_step(&pre, offset, buf, r, out, &post) ==> post@.geom
            == pre@.geom && if offset + buf.len() <= pre@.geom.length {
            P::read_step(
                &pre@.parent,
                (pre@.geom.start + offset) as u64,
                buf,
                r,
                out,
                &post@.parent,
            )
        } else {
            r is Err && out == buf && post@ == pre@
        },
        SliceReader::<'a, P>::write_step(&pre, offset, buf, r, &post) ==> r == Err::<(), Error>(
            Error::ReadOnly,
        ) && post@ == pre@,
        SliceReader::<'a, P>::set_len_step(&pre, offset, r, &post) ==> r == Err::<(), Error>(
            Error::ReadOnly,
        ) && post@ == pre@,
        SliceReader::<'a, P>::flush_step(&pre, r, &post) ==> r is Ok && post@ == pre@,
{
}

} // verus!
