//! What holds of a caching device, whatever the device underneath.
use crate::block::{BlockDevice, BlockRead};
use crate::cache_state::{
    after_clear, after_fetch, after_miss, after_sweep, bumped, holds_a_fetch,
    markers_after_release, must_wait, outside, release_undoes_marking, untouched_by, CacheModel,
};
use crate::caching_device::{
    bad_block_size, block_from, block_len, block_step, cache_set_len_step, cache_write_step,
    lemma_span, read_plan, resized_from, saturated, stitch_filled, stitch_given, stitch_of, stitch_start,
    stitch_step, stitch_take, swept_twice, CacheView, CachingDevice, ReadPlan, StitchView,
};
use crate::content::{
    differs_only_in, reads_back, resized, resizes, spliced, writes_in_range, writes_through, zeros,
};
use crate::error::Error;
use crate::lru::{held, lemma_filter_members, picked, promoted, without};
use crate::slice_laws::{rw_slice_model, windows_write_through};
use vstd::prelude::*;

verus! {

/// The part of `bytes` that the block at `start` stands for.
pub open spec fn block_bytes(bytes: Seq<u8>, start: int, block_size: u64) -> Seq<u8> {
    bytes.subrange(start, start + block_len(start, block_size, bytes.len() as u64))
}

/// Every cached block is the one that `bytes` has there.
pub open spec fn entries_match(
    entries: Seq<(u64, Seq<u8>)>,
    bytes: Seq<u8>,
    block_size: u64,
) -> bool {
    forall|k: int|
        0 <= k < entries.len() ==> (#[trigger] entries[k]).0 < bytes.len() && entries[k].1
            == block_bytes(bytes, entries[k].0 as int, block_size)
}

/// A cache whose device holds `bytes`, and which has cached nothing else.
pub open spec fn view_matches<D: BlockRead>(
    model: spec_fn(D, Seq<u8>) -> bool,
    c: CacheView<D>,
    bytes: Seq<u8>,
) -> bool {
    &&& model(c.device, bytes)
    &&& !bad_block_size(c.block_size)
    &&& entries_match(c.cache.entries, bytes, c.block_size)
}

/// A model of a device, as a model of a cache over it, with a writing half or without.
pub open spec fn cached_model<D: BlockRead>(
    model: spec_fn(D, Seq<u8>) -> bool,
    writer: bool,
) -> spec_fn(CachingDevice<D>, Seq<u8>) -> bool {
    |c: CachingDevice<D>, bytes: Seq<u8>|
        c.wf() && c@.has_writer == writer && view_matches(model, c@, bytes)
}

proof fn lemma_filtered_match(
    entries: Seq<(u64, Seq<u8>)>,
    keep: spec_fn((u64, Seq<u8>)) -> bool,
    bytes: Seq<u8>,
    block_size: u64,
)
    requires
        entries_match(entries, bytes, block_size),
    ensures
        entries_match(entries.filter(keep), bytes, block_size),
{
    lemma_filter_members(entries, keep);
}

/// A block is answered with the device's bytes, and the cache goes on matching.
proof fn lemma_block<D: BlockRead>(
    model: spec_fn(D, Seq<u8>) -> bool,
    pre: CacheView<D>,
    start: u64,
    r: Result<Seq<u8>, Error>,
    post: CacheView<D>,
    bytes: Seq<u8>,
)
    requires
        reads_back(model),
        view_matches(model, pre, bytes),
        start < bytes.len(),
        block_step(pre, start, r, post),
    ensures
        r == Ok::<Seq<u8>, Error>(block_bytes(bytes, start as int, pre.block_size)),
        view_matches(model, post, bytes),
        post.block_size == pre.block_size,
        post.has_writer == pre.has_writer,
{
    let entries = pre.cache.entries;
    assert(pre.device.size() == bytes.len());
    lemma_filtered_match(entries, crate::lru::other_than(start), bytes, pre.block_size);
    let rest = without(entries, start);
    if held(entries, start) {
        let k = choose|k: int| 0 <= k < entries.len() && (#[trigger] entries[k]).0 == start;
        assert(entries[k].1 == block_bytes(bytes, start as int, pre.block_size));
        assert forall|j: int| 0 <= j < post.cache.entries.len() implies (
        #[trigger] post.cache.entries[j]).0 < bytes.len() && post.cache.entries[j].1
            == block_bytes(bytes, post.cache.entries[j].0 as int, post.block_size) by {
            if j > 0 {
                assert(post.cache.entries[j] == rest[j - 1]);
            }
        }
    } else {
        let len = block_len(start as int, pre.block_size, pre.device.size());
        match r {
            Ok(data) => {
                assert(data =~= block_bytes(bytes, start as int, pre.block_size));
                assert forall|j: int| 0 <= j < post.cache.entries.len() implies (
                #[trigger] post.cache.entries[j]).0 < bytes.len() && post.cache.entries[j].1
                    == block_bytes(bytes, post.cache.entries[j].0 as int, post.block_size) by {
                    if j > 0 {
                        assert(post.cache.entries[j] == rest[j - 1]);
                    }
                }
            },
            Err(e) => {
                let data = choose|data: Seq<u8>| #[trigger]
                    D::read_step(&pre.device, start, zeros(len), Err(e), data, &post.device)
                        && data.len() == len;
                assert(false);
            },
        }
    }
}

/// A read that is stitched from blocks answers the device's bytes.
proof fn lemma_stitch<D: BlockRead>(
    model: spec_fn(D, Seq<u8>) -> bool,
    pre: CacheView<D>,
    v: StitchView,
    first: int,
    buf: Seq<u8>,
    r: Result<(), Error>,
    out: Seq<u8>,
    post: CacheView<D>,
    bytes: Seq<u8>,
)
    requires
        reads_back(model),
        view_matches(model, pre, bytes),
        v.block_size == pre.block_size,
        v.want == buf.len(),
        buf.len() > 0,
        v.offset + buf.len() <= bytes.len(),
        first == v.offset as int / pre.block_size as int,
        v.last == (v.offset + buf.len() - 1) / pre.block_size as int,
        first <= v.index <= v.last + 1,
        v.done == if v.index == first {
            0
        } else if v.index == v.last + 1 {
            buf.len() as int
        } else {
            v.index * pre.block_size - v.offset
        },
        0 <= v.done <= buf.len(),
        buf.take(v.done) == bytes.subrange(v.offset as int, v.offset + v.done),
        stitch_step(pre, v, buf, r, out, post),
    ensures
        r is Ok,
        out == bytes.subrange(v.offset as int, v.offset + buf.len()),
        view_matches(model, post, bytes),
        post.has_writer == pre.has_writer,
    decreases v.last + 1 - v.index,
{
    let bs = pre.block_size as int;
    let offset = v.offset;
    let index = v.index;
    let last = v.last;
    let done = v.done;
    lemma_span(offset as int, buf.len() as int, bs);
    if index > last {
        assert(buf.take(done) =~= buf);
    } else {
        let start = stitch_start(v);
        assert(0 <= start && start <= last * bs) by (nonlinear_arith)
            requires
                start == index * bs,
                0 <= index <= last,
                bs >= 1,
        ;
        assert((index + 1) * bs == start + bs) by (nonlinear_arith)
            requires
                start == index * bs,
        ;
        if index < last {
            assert(start + bs <= last * bs) by (nonlinear_arith)
                requires
                    start == index * bs,
                    index + 1 <= last,
                    bs >= 1,
            ;
        }
        if index > first {
            assert(start >= (first + 1) * bs) by (nonlinear_arith)
                requires
                    start == index * bs,
                    index >= first + 1,
                    bs >= 1,
            ;
        }
        assert((last + 1) * bs == last * bs + bs) by (nonlinear_arith);
        assert((first + 1) * bs == first * bs + bs) by (nonlinear_arith);
        let (block, mid) = choose|block: Result<Seq<u8>, Error>, mid: CacheView<D>| #[trigger]
            block_step(pre, stitch_start(v) as u64, block, mid) && match block {
                Err(e) => r == Err::<(), Error>(e) && out == buf && post == mid,
                Ok(data) => stitch_step(
                    mid,
                    stitch_given(v, data),
                    stitch_filled(v, buf, data),
                    r,
                    out,
                    post,
                ),
            };
        lemma_block(model, pre, start as u64, block, mid, bytes);
        let data = block->Ok_0;
        let from = block_from(offset, start);
        let take = stitch_take(v, data);
        let buf1 = stitch_filled(v, buf, data);
        if index == first {
            assert(start <= offset < start + bs);
        }
        assert(start + from == offset + done);
        assert(take > 0);
        assert(done + take == if index == last {
            buf.len() as int
        } else {
            (index + 1) * bs - offset
        });
        assert(buf1.take(done + take) =~= bytes.subrange(offset as int, offset + done + take)) by {
            assert forall|i: int| 0 <= i < done + take implies buf1[i] == bytes[offset + i] by {
                if i < done {
                    assert(buf1[i] == buf.take(done)[i]);
                    assert(buf.take(done)[i] == bytes.subrange(offset as int, offset + done)[i]);
                } else {
                    assert(buf1[i] == data[from + i - done]);
                    assert(data == block_bytes(bytes, start, pre.block_size));
                    assert(data[from + i - done] == bytes[start + (from + i - done)]);
                }
            }
        }
        lemma_stitch(model, mid, stitch_given(v, data), first, buf1, r, out, post, bytes);
    }
}

/// A cache answers exactly what the device underneath would, at every block size it accepts and
/// however often it is asked: where the device keeps to a model, so does the cache.
pub proof fn cache_reads_are_transparent<D: BlockRead>(
    model: spec_fn(D, Seq<u8>) -> bool,
    writer: bool,
)
    requires
        reads_back(model),
    ensures
        reads_back(cached_model(model, writer)),
{
    assert forall|
        d: CachingDevice<D>,
        bytes: Seq<u8>,
        offset: u64,
        buf: Seq<u8>,
        r: Result<(), Error>,
        out: Seq<u8>,
        post: CachingDevice<D>,
    |
        #![trigger cached_model(model, writer)(d, bytes), CachingDevice::<D>::read_step(&d, offset, buf, r, out, &post)]
        {
            &&& cached_model(model, writer)(d, bytes)
            &&& CachingDevice::<D>::read_step(&d, offset, buf, r, out, &post)
            &&& out.len() == buf.len()
            &&& post.wf()
        } implies {
        &&& cached_model(model, writer)(post, bytes)
        &&& offset + buf.len() <= bytes.len() ==> r is Ok && out == bytes.subrange(
            offset as int,
            offset + buf.len(),
        )
        &&& buf.len() > 0 && offset + buf.len() > bytes.len() ==> r is Err
    } by {
        assert(model(d@.device, bytes));
        d.lemma_wf();
        post.lemma_wf();
        match read_plan(offset, buf.len(), d@.device.size(), d@.block_size, d@.capacity) {
            ReadPlan::Nothing => {
                if offset <= bytes.len() {
                    assert(out =~= bytes.subrange(offset as int, offset + buf.len()));
                }
            },
            ReadPlan::Overflow => {},
            ReadPlan::Forward => {
                assert(D::read_step(&d@.device, offset, buf, r, out, &post@.device));
            },
            ReadPlan::Blocks { first, last } => {
                lemma_span(offset as int, buf.len() as int, d@.block_size as int);
                assert(buf.take(0) =~= bytes.subrange(offset as int, offset + 0));
                lemma_stitch(
                    model,
                    d@,
                    stitch_of(offset, buf.len(), d@.block_size, first, last),
                    first as int,
                    buf,
                    r,
                    out,
                    post@,
                    bytes,
                );
            },
        }
    }
}

/// A sweep leaves no block with a byte in the swept range, and drops no other.
pub proof fn sweep_drops_exactly_what_it_touches(
    m: CacheModel,
    start: u64,
    end: u64,
    block_size: u64,
)
    ensures
        forall|k: int|
            0 <= k < after_sweep(m, start, end, block_size).entries.len() ==> untouched_by(
                (#[trigger] after_sweep(m, start, end, block_size).entries[k]).0,
                start,
                end,
                block_size,
            ) && m.entries.contains(after_sweep(m, start, end, block_size).entries[k]),
        forall|k: int|
            0 <= k < m.entries.len() && untouched_by(
                (#[trigger] m.entries[k]).0,
                start,
                end,
                block_size,
            ) ==> after_sweep(m, start, end, block_size).entries.contains(m.entries[k]),
        swept_twice(m, start, end, block_size).entries == after_sweep(
            m,
            start,
            end,
            block_size,
        ).entries,
{
    let keep = picked(outside(start, end, block_size));
    let once = m.entries.filter(keep);
    lemma_filter_members(m.entries, keep);
    assert forall|k: int| 0 <= k < once.len() implies untouched_by(
        (#[trigger] once[k]).0,
        start,
        end,
        block_size,
    ) && m.entries.contains(once[k]) by {
        let i = choose|i: int| 0 <= i < m.entries.len() && #[trigger] m.entries[i] == once[k];
    }
    assert forall|k: int|
        0 <= k < m.entries.len() && untouched_by(
            (#[trigger] m.entries[k]).0,
            start,
            end,
            block_size,
        ) implies once.contains(m.entries[k]) by {
        m.entries.lemma_filter_contains(keep, k);
    }
    crate::lru::lemma_filter_all(once, keep);
}

/// The cached blocks that both sweeps of a write leave match the device's bytes after it, if they
/// matched those before it and the write changed none outside its range.
proof fn lemma_swept_match(
    m: CacheModel,
    bytes: Seq<u8>,
    after: Seq<u8>,
    offset: u64,
    len: nat,
    block_size: u64,
)
    requires
        entries_match(m.entries, bytes, block_size),
        bytes.len() <= u64::MAX,
        differs_only_in(bytes, after, offset as int, offset + len),
    ensures
        entries_match(
            swept_twice(m, offset, saturated(offset + len) as u64, block_size).entries,
            after,
            block_size,
        ),
{
    let end = saturated(offset + len) as u64;
    let keep = picked(outside(offset, end, block_size));
    let once = m.entries.filter(keep);
    lemma_filtered_match(m.entries, keep, bytes, block_size);
    lemma_filtered_match(once, keep, bytes, block_size);
    let left = once.filter(keep);
    lemma_filter_members(once, keep);
    assert forall|k: int| 0 <= k < left.len() implies (#[trigger] left[k]).0 < after.len()
        && left[k].1 == block_bytes(after, left[k].0 as int, block_size) by {
        let off = left[k].0;
        assert(keep(left[k]));
        assert(untouched_by(off, offset, end, block_size));
        assert(block_bytes(after, off as int, block_size) =~= block_bytes(
            bytes,
            off as int,
            block_size,
        ));
    }
}

/// Over a device whose writes change nothing outside their range, so do writes through the cache,
/// and what the cache then answers is what the device holds: also after a write that failed, of
/// which the device may have taken any part.
pub proof fn cache_survives_partial_writes<D: BlockDevice>(model: spec_fn(D, Seq<u8>) -> bool)
    requires
        reads_back(model),
        writes_in_range(model),
    ensures
        reads_back(cached_model(model, true)),
        writes_in_range(cached_model(model, true)),
        forall|
            d: CachingDevice<D>,
            bytes: Seq<u8>,
            offset: u64,
            data: Seq<u8>,
            r: Result<(), Error>,
            post: CachingDevice<D>,
            after: Seq<u8>,
        |
            #![trigger cached_model(model, true)(d, bytes), CachingDevice::<D>::write_step(&d, offset, data, r, &post), model(post@.device, after)]
            {
                &&& cached_model(model, true)(d, bytes)
                &&& CachingDevice::<D>::write_step(&d, offset, data, r, &post)
                &&& post.wf()
                &&& model(post@.device, after)
                &&& differs_only_in(bytes, after, offset as int, offset + data.len())
            } ==> cached_model(model, true)(post, after),
{
    cache_reads_are_transparent(model, true);
    assert forall|
        d: CachingDevice<D>,
        bytes: Seq<u8>,
        offset: u64,
        data: Seq<u8>,
        r: Result<(), Error>,
        post: CachingDevice<D>,
        after: Seq<u8>,
    |
        #![trigger cached_model(model, true)(d, bytes), CachingDevice::<D>::write_step(&d, offset, data, r, &post), model(post@.device, after)]
        {
            &&& cached_model(model, true)(d, bytes)
            &&& CachingDevice::<D>::write_step(&d, offset, data, r, &post)
            &&& post.wf()
            &&& model(post@.device, after)
            &&& differs_only_in(bytes, after, offset as int, offset + data.len())
        } implies cached_model(model, true)(post, after) by {
        assert(model(d@.device, bytes));
        lemma_swept_match(d@.cache, bytes, after, offset, data.len(), d@.block_size);
    }
    assert forall|
        d: CachingDevice<D>,
        bytes: Seq<u8>,
        offset: u64,
        data: Seq<u8>,
        r: Result<(), Error>,
        post: CachingDevice<D>,
    |
        #![trigger cached_model(model, true)(d, bytes), CachingDevice::<D>::write_step(&d, offset, data, r, &post)]
        {
            &&& cached_model(model, true)(d, bytes)
            &&& CachingDevice::<D>::write_step(&d, offset, data, r, &post)
            &&& post.wf()
        } implies exists|after: Seq<u8>| #[trigger]
        cached_model(model, true)(post, after) && differs_only_in(
            bytes,
            after,
            offset as int,
            offset + data.len(),
        ) by {
        assert(model(d@.device, bytes));
        assert(D::write_step(&d@.device, offset, data, r, &post@.device));
        post.lemma_wf();
        let after = choose|after: Seq<u8>| #[trigger]
            model(post@.device, after) && differs_only_in(
                bytes,
                after,
                offset as int,
                offset + data.len(),
            );
        assert(model(post@.device, after));
        assert(cached_model(model, true)(post, after));
    }
}

/// Over a device that keeps to a model, a write through the cache replaces the bytes that a
/// read through the cache then gives; a refused one leaves them.
pub proof fn cache_writes_are_transparent<D: BlockDevice>(model: spec_fn(D, Seq<u8>) -> bool)
    requires
        reads_back(model),
        writes_through(model),
    ensures
        writes_through(cached_model(model, true)),
{
    assert forall|
        d: CachingDevice<D>,
        bytes: Seq<u8>,
        offset: u64,
        data: Seq<u8>,
        r: Result<(), Error>,
        post: CachingDevice<D>,
    |
        #![trigger cached_model(model, true)(d, bytes), CachingDevice::<D>::write_step(&d, offset, data, r, &post)]
        {
            &&& cached_model(model, true)(d, bytes)
            &&& CachingDevice::<D>::write_step(&d, offset, data, r, &post)
            &&& post.wf()
        } implies if offset + data.len() <= bytes.len() {
        r is Ok && cached_model(model, true)(post, spliced(bytes, offset as int, data))
    } else {
        (data.len() > 0 ==> r is Err) && cached_model(model, true)(post, bytes)
    } by {
        assert(model(d@.device, bytes));
        assert(D::write_step(&d@.device, offset, data, r, &post@.device));
        post.lemma_wf();
        let after = if offset + data.len() <= bytes.len() {
            spliced(bytes, offset as int, data)
        } else {
            bytes
        };
        lemma_swept_match(d@.cache, bytes, after, offset, data.len(), d@.block_size);
    }
    assert forall|d: CachingDevice<D>, bytes: Seq<u8>, r: Result<(), Error>, post: CachingDevice<D>|
        #![trigger cached_model(model, true)(d, bytes), CachingDevice::<D>::flush_step(&d, r, &post)]
        cached_model(model, true)(d, bytes) && CachingDevice::<D>::flush_step(&d, r, &post)
            && post.wf() implies cached_model(model, true)(post, bytes) by {
        assert(model(d@.device, bytes));
        assert(D::flush_step(&d@.device, r, &post@.device));
        post.lemma_wf();
    }
}

/// Over a device that keeps to a model, a change of length through the cache is one of the
/// bytes that a read through the cache gives: nothing that was cut off comes back, and no block
/// stays short.
pub proof fn cache_resizes_are_transparent<D: BlockDevice>(model: spec_fn(D, Seq<u8>) -> bool)
    requires
        reads_back(model),
        resizes(model),
    ensures
        resizes(cached_model(model, true)),
{
    assert forall|
        d: CachingDevice<D>,
        bytes: Seq<u8>,
        new_len: u64,
        r: Result<(), Error>,
        post: CachingDevice<D>,
    |
        #![trigger cached_model(model, true)(d, bytes), CachingDevice::<D>::set_len_step(&d, new_len, r, &post)]
        {
            &&& cached_model(model, true)(d, bytes)
            &&& CachingDevice::<D>::set_len_step(&d, new_len, r, &post)
            &&& post.wf()
        } implies cached_model(model, true)(
        post,
        if r is Ok {
            resized(bytes, new_len as nat)
        } else {
            bytes
        },
    ) by {
        let bs = d@.block_size;
        assert(model(d@.device, bytes));
        assert(D::set_len_step(&d@.device, new_len, r, &post@.device));
        post.lemma_wf();
        let from = resized_from(d@.device.size(), new_len);
        let keep = picked(outside(from, u64::MAX, bs));
        let once = d@.cache.entries.filter(keep);
        lemma_filtered_match(d@.cache.entries, keep, bytes, bs);
        lemma_filtered_match(once, keep, bytes, bs);
        let left = once.filter(keep);
        lemma_filter_members(once, keep);
        if r is Ok {
            let after = resized(bytes, new_len as nat);
            assert forall|k: int| 0 <= k < left.len() implies (#[trigger] left[k]).0 < after.len()
                && left[k].1 == block_bytes(after, left[k].0 as int, bs) by {
                let off = left[k].0;
                assert(keep(left[k]));
                assert(untouched_by(off, from, u64::MAX, bs));
                assert(block_bytes(after, off as int, bs) =~= block_bytes(bytes, off as int, bs));
            }
        }
    }
}

/// A write or a change of length that the cache itself refuses leaves it exactly as it was: it
/// drops no block and reaches no device.
pub proof fn own_refusal_keeps_the_cache<D: BlockDevice>(
    pre: CacheView<D>,
    offset: u64,
    data: Seq<u8>,
    written: Result<(), Error>,
    after_write: CacheView<D>,
    new_len: u64,
    resize: Result<(), Error>,
    after_resize: CacheView<D>,
)
    requires
        cache_write_step(pre, offset, data, written, after_write),
        cache_set_len_step(pre, new_len, resize, after_resize),
    ensures
        !pre.has_writer ==> written == Err::<(), Error>(Error::ReadOnly) && after_write == pre,
        !pre.has_writer ==> resize == Err::<(), Error>(Error::ReadOnly) && after_resize == pre,
        pre.has_writer && bad_block_size(pre.block_size) ==> written is Err && after_write == pre,
{
}

/// Every block asked for counts as one hit or one miss. A hit leaves the device alone; a miss
/// is one read of it, at the block.
pub proof fn hits_and_misses_count_the_blocks<D: BlockRead>(
    pre: CacheView<D>,
    start: u64,
    r: Result<Seq<u8>, Error>,
    post: CacheView<D>,
)
    requires
        block_step(pre, start, r, post),
    ensures
        held(pre.cache.entries, start) ==> post.cache.hits == bumped(pre.cache.hits)
            && post.cache.misses == pre.cache.misses && post.device == pre.device,
        !held(pre.cache.entries, start) ==> post.cache.hits == pre.cache.hits && post.cache.misses
            == bumped(pre.cache.misses) && exists|answer: Result<(), Error>, out: Seq<u8>|
            #[trigger] D::read_step(
                &pre.device,
                start,
                zeros(block_len(start as int, pre.block_size, pre.device.size())),
                answer,
                out,
                &post.device,
            ),
        r matches Ok(data) ==> held(post.cache.entries, start) && post.cache.entries[0] == (
            start,
            data,
        ),
        r is Err ==> post.cache.entries == pre.cache.entries,
{
    if r is Ok {
        assert(post.cache.entries[0].0 == start);
    }
}

/// A fetch that fails gives the device's own error, counts as one miss, and leaves the cached
/// blocks and the markers as they were. So the next request for the block, by any reader, does not
/// wait for it: it asks the device again, and what it then answers is what the device gives.
pub proof fn failed_fetch_is_forgotten<D: BlockRead>(
    pre: CacheView<D>,
    start: u64,
    e: Error,
    mid: CacheView<D>,
    again: Result<Seq<u8>, Error>,
    post: CacheView<D>,
    reader: u64,
)
    requires
        !held(pre.cache.entries, start),
        pre.cache.in_flight.len() == 0,
        block_step(pre, start, Err(e), mid),
        block_step(mid, start, again, post),
    ensures
        exists|out: Seq<u8>| #[trigger]
            D::read_step(
                &pre.device,
                start,
                zeros(block_len(start as int, pre.block_size, pre.device.size())),
                Err(e),
                out,
                &mid.device,
            ),
        mid.cache == (CacheModel { misses: bumped(pre.cache.misses), ..pre.cache }),
        !held(mid.cache.entries, start),
        !must_wait(mid.cache, start, reader),
        post.cache.misses == bumped(bumped(pre.cache.misses)),
        post.cache.hits == pre.cache.hits,
        match again {
            Ok(data) => D::read_step(
                &mid.device,
                start,
                zeros(block_len(start as int, mid.block_size, mid.device.size())),
                Ok(()),
                data,
                &post.device,
            ),
            Err(f) => exists|out: Seq<u8>| #[trigger]
                D::read_step(
                    &mid.device,
                    start,
                    zeros(block_len(start as int, mid.block_size, mid.device.size())),
                    Err(f),
                    out,
                    &post.device,
                ),
        },
{
}

/// A reader that gives up its fetch leaves the others as they were before it: what must wait for
/// the block then is what had to wait without it.
pub proof fn given_up_fetch_keeps_no_one_waiting(m: CacheModel, block: u64, reader: u64, other: u64)
    requires
        !m.in_flight.contains((block, reader)),
    ensures
        ({
            let given_up = CacheModel {
                in_flight: markers_after_release(
                    after_miss(m, block, reader).in_flight,
                    block,
                    reader,
                ),
                ..after_miss(m, block, reader)
            };
            &&& given_up == CacheModel { misses: bumped(m.misses), ..m }
            &&& must_wait(given_up, block, other) == must_wait(m, block, other)
        }),
{
    release_undoes_marking(m.in_flight, block, reader);
}

/// A block that was just served is served again without the device.
pub proof fn second_read_is_a_hit<D: BlockRead>(
    pre: CacheView<D>,
    start: u64,
    data: Seq<u8>,
    mid: CacheView<D>,
    again: Result<Seq<u8>, Error>,
    post: CacheView<D>,
)
    requires
        crate::lru::distinct_blocks(mid.cache.entries),
        block_step(pre, start, Ok(data), mid),
        block_step(mid, start, again, post),
    ensures
        again == Ok::<Seq<u8>, Error>(data),
        post.device == mid.device,
        post.cache.hits == bumped(mid.cache.hits),
        post.cache.misses == mid.cache.misses,
        post.cache.entries == mid.cache.entries,
{
    let entries = mid.cache.entries;
    assert(entries[0] == (start, data));
    crate::lru::lemma_without_is_remove(entries, 0);
    assert(promoted(entries, start) =~= entries);
}

/// A reader that is told to wait is waiting for one that is not: whoever fetches the block is
/// another reader, and that reader is told to wait for nothing. So no readers wait for each
/// other, in a ring of any length.
pub proof fn no_one_waits_for_a_waiter(m: CacheModel, block: u64, waiter: u64, owner: u64)
    requires
        must_wait(m, block, waiter),
        m.in_flight.contains((block, owner)),
    ensures
        owner != waiter,
        forall|other: u64| !must_wait(m, other, owner),
{
    let i = choose|i: int| 0 <= i < m.in_flight.len() && m.in_flight[i] == (block, owner);
    assert(m.in_flight[i].1 == owner);
    assert(holds_a_fetch(m.in_flight, owner));
}

/// Bytes that were asked of the device before an invalidation, of anything, are not kept after
/// it: the cache is left as the invalidation made it.
pub proof fn overtaken_fetch_is_not_kept(
    m: CacheModel,
    start: u64,
    end: u64,
    block_size: u64,
    block: u64,
    data: Seq<u8>,
    capacity: nat,
)
    requires
        !held(m.entries, block),
    ensures
        after_fetch(
            after_sweep(m, start, end, block_size),
            block,
            data,
            m.generation,
            capacity,
        ) == after_sweep(m, start, end, block_size),
        after_fetch(after_clear(m), block, data, m.generation, capacity) == after_clear(m),
{
    let keep = picked(outside(start, end, block_size));
    lemma_filter_members(m.entries, keep);
    let left = m.entries.filter(keep);
    if held(left, block) {
        let k = choose|k: int| 0 <= k < left.len() && (#[trigger] left[k]).0 == block;
        let i = choose|i: int| 0 <= i < m.entries.len() && #[trigger] m.entries[i] == left[k];
        assert(m.entries[i].0 == block);
    }
}

/// A fetch that nothing overtook is kept, at the front.
pub proof fn finished_fetch_is_kept(m: CacheModel, block: u64, data: Seq<u8>, capacity: nat)
    requires
        !held(m.entries, block),
    ensures
        after_fetch(m, block, data, m.generation, capacity).entries[0] == (block, data),
        held(after_fetch(m, block, data, m.generation, capacity).entries, block),
{
    assert(after_fetch(m, block, data, m.generation, capacity).entries[0].0 == block);
}

/// A window over a cache over a device that holds bytes, and takes writes, is a device that
/// holds the window's bytes: what is written through the whole stack is what is read back.
pub proof fn windows_on_a_cache_are_transparent<D: BlockDevice>(
    model: spec_fn(D, Seq<u8>) -> bool,
)
    requires
        reads_back(model),
        writes_through(model),
        forall|d: D, bytes: Seq<u8>| #[trigger] model(d, bytes) ==> d.writable(),
    ensures
        reads_back(rw_slice_model(cached_model(model, true))),
        writes_through(rw_slice_model(cached_model(model, true))),
{
    cache_reads_are_transparent(model, true);
    cache_writes_are_transparent(model);
    assert forall|c: CachingDevice<D>, bytes: Seq<u8>| #[trigger]
        cached_model(model, true)(c, bytes) implies c.writable() by {
        assert(model(c@.device, bytes));
    }
    windows_write_through(cached_model(model, true));
}

} // verus!
