//! Which reads a cache serves, and what serving them costs.
//!
//! A read touches the blocks between its first and its last byte. The laws here say, over any
//! device, when those blocks are kept, when they are served without the device, and when a read
//! passes the cache by.
use crate::block::{BlockDevice, BlockRead};
use crate::cache_state::{bumped, CacheModel};
use crate::caching_device::{
    bad_block_size, block_from, block_size_text, block_step, block_take, filled, lemma_span,
    most_entries, read_plan, stitch_answer, stitch_filled, stitch_given, stitch_of, stitch_start,
    stitch_step, stitch_take, CacheView, CachingDevice, ReadPlan, StitchView,
};
use crate::error::Error;
use crate::lru::{
    distinct_blocks, evicted, held, insertion_keeps_the_bound, lemma_without_absent,
    lemma_without_is_remove, promotion_keeps_the_entries, without,
};
use crate::text::{decimal_text, decimals_read_back, digits_of};
use vstd::prelude::*;

verus! {

/// Every cached block begins inside a device of `size` bytes and has all the bytes that a block
/// has there: `block_size` of them, or those up to the end.
pub open spec fn whole_blocks(entries: Seq<(u64, Seq<u8>)>, block_size: u64, size: u64) -> bool {
    forall|k: int|
        0 <= k < entries.len() ==> (#[trigger] entries[k]).0 < size && entries[k].1.len() == if (
        entries[k].0 + block_size <= size) {
            block_size as int
        } else {
            size - entries[k].0
        }
}

/// Byte `at` of the device stands in a cached block.
pub open spec fn byte_is_cached(entries: Seq<(u64, Seq<u8>)>, at: int) -> bool {
    exists|k: int|
        0 <= k < entries.len() && (#[trigger] entries[k]).0 <= at < entries[k].0
            + entries[k].1.len()
}

/// The most recently used entries are the blocks before number `index`, back to number `first`.
spec fn just_used(entries: Seq<(u64, Seq<u8>)>, first: int, index: int, block_size: int) -> bool {
    &&& index - first <= entries.len()
    &&& forall|t: int|
        0 <= t < index - first ==> (#[trigger] entries[t]).0 == (index - 1 - t) * block_size
}

/// The blocks from number `index` to number `last` are cached.
spec fn all_cached(entries: Seq<(u64, Seq<u8>)>, index: int, last: int, block_size: int) -> bool {
    forall|i: int| index <= i <= last ==> #[trigger] held_number(entries, i, block_size)
}

spec fn held_number(entries: Seq<(u64, Seq<u8>)>, i: int, block_size: int) -> bool {
    exists|k: int| 0 <= k < entries.len() && (#[trigger] entries[k]).0 == i * block_size
}

proof fn lemma_block_numbers(i: int, j: int, block_size: int)
    requires
        i < j,
        block_size >= 1,
    ensures
        i * block_size + block_size <= j * block_size,
{
    assert(i * block_size + block_size <= j * block_size) by (nonlinear_arith)
        requires
            i + 1 <= j,
            block_size >= 1,
    ;
}

/// A block that is served comes to the front, and the blocks that were in front before it stay
/// right behind.
proof fn lemma_served_block<D: BlockRead>(
    pre: CacheView<D>,
    start: u64,
    data: Seq<u8>,
    mid: CacheView<D>,
    j: int,
)
    requires
        block_step(pre, start, Ok(data), mid),
        distinct_blocks(pre.cache.entries),
        pre.cache.entries.len() <= most_entries(pre.capacity),
        whole_blocks(pre.cache.entries, pre.block_size, pre.device.size()),
        start < pre.device.size(),
        0 <= j <= pre.cache.entries.len(),
        j == 0 || j + 1 < pre.capacity,
        forall|t: int| 0 <= t < j ==> (#[trigger] pre.cache.entries[t]).0 != start,
    ensures
        distinct_blocks(mid.cache.entries),
        mid.cache.entries.len() <= most_entries(mid.capacity),
        whole_blocks(mid.cache.entries, mid.block_size, mid.device.size()),
        mid.capacity == pre.capacity,
        mid.block_size == pre.block_size,
        mid.device.size() == pre.device.size(),
        data.len() == if start + pre.block_size <= pre.device.size() {
            pre.block_size as int
        } else {
            pre.device.size() - start
        },
        j + 1 <= mid.cache.entries.len(),
        mid.cache.entries[0].0 == start,
        forall|t: int|
            0 <= t < j ==> (#[trigger] mid.cache.entries[t + 1]).0 == pre.cache.entries[t].0,
        held(pre.cache.entries, start) ==> mid.device == pre.device && mid.cache.misses
            == pre.cache.misses && mid.cache.hits == bumped(pre.cache.hits)
            && forall|k: int|
            0 <= k < pre.cache.entries.len() ==> held(
                mid.cache.entries,
                (#[trigger] pre.cache.entries[k]).0,
            ),
        !held(pre.cache.entries, start) ==> mid.cache.hits == pre.cache.hits && mid.cache.misses
            == bumped(pre.cache.misses),
{
    let entries = pre.cache.entries;
    let after = mid.cache.entries;
    if held(entries, start) {
        let k = choose|k: int| 0 <= k < entries.len() && (#[trigger] entries[k]).0 == start;
        promotion_keeps_the_entries(entries, start);
        lemma_without_is_remove(entries, k);
        assert(after =~= seq![entries[k]] + entries.remove(k));
        assert forall|t: int| 0 <= t < j implies (#[trigger] after[t + 1]).0 == entries[t].0 by {
            assert(t < k);
        }
        assert forall|i: int| 0 <= i < entries.len() implies held(after, (#[trigger] entries[i]).0) by {
            let at = if i == k {
                0
            } else if i < k {
                i + 1
            } else {
                i
            };
            assert(after[at] == entries[i]);
        }
        assert forall|i: int| 0 <= i < after.len() implies (#[trigger] after[i]).0
            < mid.device.size() && after[i].1.len() == if after[i].0 + mid.block_size
            <= mid.device.size() {
            mid.block_size as int
        } else {
            mid.device.size() - after[i].0
        } by {
            let p = if i == 0 {
                k
            } else if i <= k {
                i - 1
            } else {
                i
            };
            assert(after[i] == entries[p]);
        }
    } else {
        insertion_keeps_the_bound(entries, start, data, pre.capacity as nat);
        lemma_without_absent(entries, start);
        let rest = evicted(entries, pre.capacity as nat);
        assert(after =~= seq![(start, data)] + rest);
        assert(without(entries, start) == entries);
        assert(j <= rest.len());
        assert forall|t: int| 0 <= t < j implies (#[trigger] after[t + 1]).0 == entries[t].0 by {
            assert(after[t + 1] == rest[t]);
        }
        assert forall|i: int| 0 <= i < after.len() implies (#[trigger] after[i]).0
            < mid.device.size() && after[i].1.len() == if after[i].0 + mid.block_size
            <= mid.device.size() {
            mid.block_size as int
        } else {
            mid.device.size() - after[i].0
        } by {
            if i > 0 {
                assert(after[i] == entries[i - 1]);
            }
        }
    }
}

/// A read that is put together from blocks, and has the blocks before number `v.index`.
spec fn under_way<D: BlockRead>(pre: CacheView<D>, v: StitchView, first: int, buf: Seq<u8>) -> bool {
    let bs = pre.block_size as int;
    &&& bs >= 1
    &&& distinct_blocks(pre.cache.entries)
    &&& pre.cache.entries.len() <= most_entries(pre.capacity)
    &&& whole_blocks(pre.cache.entries, pre.block_size, pre.device.size())
    &&& v.block_size == pre.block_size
    &&& v.want == buf.len()
    &&& buf.len() > 0
    &&& v.offset + buf.len() <= pre.device.size()
    &&& first == v.offset as int / bs
    &&& v.last == (v.offset + buf.len() - 1) / bs
    &&& first <= v.index <= v.last + 1
    &&& v.done == if v.index == first {
        0
    } else if v.index == v.last + 1 {
        buf.len() as int
    } else {
        v.index * bs - v.offset
    }
    &&& 0 <= v.done <= buf.len()
    &&& v.last == first || 2 * (v.last - first + 1) <= pre.capacity
    &&& just_used(pre.cache.entries, first, v.index, bs)
}

proof fn lemma_stitch_served<D: BlockRead>(
    pre: CacheView<D>,
    v: StitchView,
    first: int,
    buf: Seq<u8>,
    r: Result<(), Error>,
    out: Seq<u8>,
    post: CacheView<D>,
)
    requires
        under_way(pre, v, first, buf),
        stitch_step(pre, v, buf, r, out, post),
        pre.cache.hits + (v.last + 1 - v.index) <= u64::MAX,
        pre.cache.misses + (v.last + 1 - v.index) <= u64::MAX,
    ensures
        r is Ok ==> {
            &&& distinct_blocks(post.cache.entries)
            &&& post.cache.entries.len() <= most_entries(post.capacity)
            &&& whole_blocks(post.cache.entries, post.block_size, post.device.size())
            &&& post.capacity == pre.capacity
            &&& post.block_size == pre.block_size
            &&& post.device.size() == pre.device.size()
            &&& just_used(post.cache.entries, first, v.last + 1, pre.block_size as int)
            &&& post.cache.hits + post.cache.misses == pre.cache.hits + pre.cache.misses + (v.last
                + 1 - v.index)
            &&& post.cache.misses >= pre.cache.misses
            &&& post.cache.hits >= pre.cache.hits
        },
        all_cached(pre.cache.entries, v.index, v.last, pre.block_size as int) ==> {
            &&& r is Ok
            &&& post.device == pre.device
            &&& post.cache.misses == pre.cache.misses
        },
    decreases v.last + 1 - v.index,
{
    let bs = pre.block_size as int;
    let offset = v.offset;
    let index = v.index;
    let last = v.last;
    let done = v.done;
    lemma_span(offset as int, buf.len() as int, bs);
    if index <= last {
        let start = stitch_start(v);
        assert(0 <= start && start <= last * bs) by (nonlinear_arith)
            requires
                start == index * bs,
                0 <= index <= last,
                bs >= 1,
        ;
        assert((index + 1) * bs == start + bs) by (nonlinear_arith)
            requires
                start == index * bs,
        ;
        if index < last {
            lemma_block_numbers(index, last, bs);
        }
        if index > first {
            lemma_block_numbers(first, index, bs);
        }
        assert((last + 1) * bs == last * bs + bs) by (nonlinear_arith);
        assert((first + 1) * bs == first * bs + bs) by (nonlinear_arith);
        let (block, mid) = choose|block: Result<Seq<u8>, Error>, mid: CacheView<D>| #[trigger]
            block_step(pre, stitch_start(v) as u64, block, mid) && match block {
                Err(e) => r == Err::<(), Error>(e) && out == buf && post == mid,
                Ok(data) => stitch_step(
                    mid,
                    stitch_given(v, data),
                    stitch_filled(v, buf, data),
                    r,
                    out,
                    post,
                ),
            };
        if all_cached(pre.cache.entries, index, last, bs) {
            assert(held_number(pre.cache.entries, index, bs));
            assert(held(pre.cache.entries, start as u64));
        }
        if block is Ok {
            let data = block->Ok_0;
            let j = index - first;
            assert forall|t: int| 0 <= t < j implies (#[trigger] pre.cache.entries[t]).0
                != start as u64 by {
                lemma_block_numbers(index - 1 - t, index, bs);
            }
            lemma_served_block(pre, start as u64, data, mid, j);
            assert(just_used(mid.cache.entries, first, index + 1, bs)) by {
                assert forall|t: int| 0 <= t < index + 1 - first implies (
                #[trigger] mid.cache.entries[t]).0 == (index - t) * bs by {
                    if t > 0 {
                        assert(mid.cache.entries[(t - 1) + 1].0 == pre.cache.entries[t - 1].0);
                    }
                }
            }
            let from = block_from(offset, start);
            let take = stitch_take(v, data);
            if index == first {
                assert(start <= offset < start + bs);
            }
            assert(start + from == offset + done);
            assert(take > 0);
            assert(done + take == if index == last {
                buf.len() as int
            } else {
                (index + 1) * bs - offset
            });
            let buf1 = stitch_filled(v, buf, data);
            if all_cached(pre.cache.entries, index, last, bs) {
                assert forall|i: int| index + 1 <= i <= last implies #[trigger] held_number(
                    mid.cache.entries,
                    i,
                    bs,
                ) by {
                    assert(held_number(pre.cache.entries, i, bs));
                    let k = choose|k: int|
                        0 <= k < pre.cache.entries.len() && (#[trigger] pre.cache.entries[k]).0 == i
                            * bs;
                    assert(held(mid.cache.entries, pre.cache.entries[k].0));
                }
            }
            lemma_stitch_served(mid, stitch_given(v, data), first, buf1, r, out, post);
        }
    }
}

/// The reads that a cache serves: those that end inside the device and touch one block, or no more
/// than half as many as the cache holds. After such a read has succeeded every byte of it stands
/// in a cached block, and each block that it touched was counted once, as a hit or a miss. The
/// cached blocks stay whole.
pub proof fn reads_that_fit_are_cached<D: BlockRead>(
    pre: CachingDevice<D>,
    offset: u64,
    buf: Seq<u8>,
    r: Result<(), Error>,
    out: Seq<u8>,
    post: CachingDevice<D>,
    touched: int,
    at: int,
)
    requires
        pre.wf(),
        1 <= pre@.block_size <= 64 * 1024 * 1024,
        whole_blocks(pre@.cache.entries, pre@.block_size, pre@.device.size()),
        0 < buf.len() <= usize::MAX,
        offset + buf.len() <= pre@.device.size(),
        touched == (offset + buf.len() - 1) / pre@.block_size as int - offset as int
            / pre@.block_size as int + 1,
        touched == 1 || 2 * touched <= pre@.capacity,
        pre@.cache.hits + touched <= u64::MAX,
        pre@.cache.misses + touched <= u64::MAX,
        CachingDevice::<D>::read_step(&pre, offset, buf, r, out, &post),
        r is Ok,
        offset <= at < offset + buf.len(),
    ensures
        byte_is_cached(post@.cache.entries, at),
        post@.cache.hits + post@.cache.misses == pre@.cache.hits + pre@.cache.misses + touched,
        post@.cache.misses >= pre@.cache.misses,
        post@.cache.hits >= pre@.cache.hits,
        whole_blocks(post@.cache.entries, post@.block_size, post@.device.size()),
        post@.block_size == pre@.block_size,
        post@.capacity == pre@.capacity,
        post@.device.size() == pre@.device.size(),
{
    let bs = pre@.block_size as int;
    let first = offset as int / bs;
    let last = (offset + buf.len() - 1) / bs;
    pre.lemma_wf();
    lemma_span(offset as int, buf.len() as int, bs);
    assert(read_plan(offset, buf.len(), pre@.device.size(), pre@.block_size, pre@.capacity)
        == ReadPlan::Blocks { first: first as u64, last: last as u64 });
    let v = stitch_of(offset, buf.len(), pre@.block_size, first as u64, last as u64);
    assert(under_way(pre@, v, first, buf));
    lemma_stitch_served(pre@, v, first, buf, r, out, post@);
    let number = at / bs;
    assert(first <= number <= last && number * bs <= at < number * bs + bs) by (nonlinear_arith)
        requires
            bs >= 1,
            number == at / bs,
            first == offset as int / bs,
            last == (offset + buf.len() - 1) / bs,
            0 <= offset <= at <= offset + buf.len() - 1,
    ;
    let k = last - number;
    let entries = post@.cache.entries;
    assert(entries[k].0 == (last + 1 - 1 - k) * bs);
    assert(entries[k].0 == number * bs);
    assert(entries[k].0 <= at < entries[k].0 + entries[k].1.len());
}

/// A read that the cache serves and every block of which is cached asks the device nothing: it
/// succeeds, the device stays as it was, and each block counts as a hit.
pub proof fn cached_reads_need_no_device<D: BlockRead>(
    pre: CachingDevice<D>,
    offset: u64,
    buf: Seq<u8>,
    r: Result<(), Error>,
    out: Seq<u8>,
    post: CachingDevice<D>,
    touched: int,
)
    requires
        pre.wf(),
        1 <= pre@.block_size <= 64 * 1024 * 1024,
        whole_blocks(pre@.cache.entries, pre@.block_size, pre@.device.size()),
        forall|k: int|
            0 <= k < pre@.cache.entries.len() ==> (#[trigger] pre@.cache.entries[k]).0
                % pre@.block_size == 0,
        0 < buf.len() <= usize::MAX,
        offset + buf.len() <= pre@.device.size(),
        touched == (offset + buf.len() - 1) / pre@.block_size as int - offset as int
            / pre@.block_size as int + 1,
        touched == 1 || 2 * touched <= pre@.capacity,
        pre@.cache.hits + touched <= u64::MAX,
        pre@.cache.misses + touched <= u64::MAX,
        forall|at: int|
            offset <= at < offset + buf.len() ==> #[trigger] byte_is_cached(
                pre@.cache.entries,
                at,
            ),
        CachingDevice::<D>::read_step(&pre, offset, buf, r, out, &post),
    ensures
        r is Ok,
        post@.device == pre@.device,
        post@.cache.misses == pre@.cache.misses,
        post@.cache.hits == pre@.cache.hits + touched,
{
    let bs = pre@.block_size as int;
    let first = offset as int / bs;
    let last = (offset + buf.len() - 1) / bs;
    pre.lemma_wf();
    lemma_span(offset as int, buf.len() as int, bs);
    assert(read_plan(offset, buf.len(), pre@.device.size(), pre@.block_size, pre@.capacity)
        == ReadPlan::Blocks { first: first as u64, last: last as u64 });
    let v = stitch_of(offset, buf.len(), pre@.block_size, first as u64, last as u64);
    assert(under_way(pre@, v, first, buf));
    let entries = pre@.cache.entries;
    assert forall|i: int| first <= i <= last implies #[trigger] held_number(entries, i, bs) by {
        let at = if i == first {
            offset as int
        } else {
            i * bs
        };
        if i > first {
            lemma_block_numbers(first, i, bs);
        }
        if i < last {
            lemma_block_numbers(i, last, bs);
        }
        assert((first + 1) * bs == first * bs + bs) by (nonlinear_arith);
        assert(offset <= at < offset + buf.len());
        assert(i * bs <= at < i * bs + bs);
        assert(byte_is_cached(entries, at));
        let k = choose|k: int|
            0 <= k < entries.len() && (#[trigger] entries[k]).0 <= at < entries[k].0
                + entries[k].1.len();
        let e = entries[k].0 as int;
        assert(e == i * bs) by (nonlinear_arith)
            requires
                bs >= 1,
                e % bs == 0,
                e >= 0,
                e <= at,
                at < e + bs,
                i * bs <= at,
                at < i * bs + bs,
        ;
    }
    lemma_stitch_served(pre@, v, first, buf, r, out, post@);
}

/// Reading again what was just read asks the device nothing, wherever the cache serves the read:
/// the second read succeeds, leaves the device as it was, and counts only hits.
pub proof fn repeated_reads_need_no_device<D: BlockRead>(
    pre: CachingDevice<D>,
    offset: u64,
    buf: Seq<u8>,
    r: Result<(), Error>,
    out: Seq<u8>,
    mid: CachingDevice<D>,
    buf2: Seq<u8>,
    r2: Result<(), Error>,
    out2: Seq<u8>,
    post: CachingDevice<D>,
    touched: int,
)
    requires
        pre.wf(),
        mid.wf(),
        1 <= pre@.block_size <= 64 * 1024 * 1024,
        whole_blocks(pre@.cache.entries, pre@.block_size, pre@.device.size()),
        0 < buf.len() <= usize::MAX,
        buf2.len() == buf.len(),
        offset + buf.len() <= pre@.device.size(),
        touched == (offset + buf.len() - 1) / pre@.block_size as int - offset as int
            / pre@.block_size as int + 1,
        touched == 1 || 2 * touched <= pre@.capacity,
        pre@.cache.hits + 2 * touched <= u64::MAX,
        pre@.cache.misses + 2 * touched <= u64::MAX,
        CachingDevice::<D>::read_step(&pre, offset, buf, r, out, &mid),
        r is Ok,
        CachingDevice::<D>::read_step(&mid, offset, buf2, r2, out2, &post),
    ensures
        r2 is Ok,
        post@.device == mid@.device,
        post@.cache.misses == mid@.cache.misses,
        post@.cache.hits == mid@.cache.hits + touched,
{
    let bs = pre@.block_size as int;
    let first = offset as int / bs;
    let last = (offset + buf.len() - 1) / bs;
    pre.lemma_wf();
    lemma_span(offset as int, buf.len() as int, bs);
    assert(read_plan(offset, buf.len(), pre@.device.size(), pre@.block_size, pre@.capacity)
        == ReadPlan::Blocks { first: first as u64, last: last as u64 });
    let v = stitch_of(offset, buf.len(), pre@.block_size, first as u64, last as u64);
    assert(under_way(pre@, v, first, buf));
    lemma_stitch_served(pre@, v, first, buf, r, out, mid@);
    let entries = mid@.cache.entries;
    assert forall|i: int| first <= i <= last implies #[trigger] held_number(entries, i, bs) by {
        assert(entries[last - i].0 == (last + 1 - 1 - (last - i)) * bs);
    }
    assert(under_way(mid@, v, first, buf2));
    lemma_stitch_served(mid@, v, first, buf2, r2, out2, post@);
}

/// The reads that pass the cache by: those that run past the device's end, and those that touch
/// more than one block and more than half as many as the cache holds. The device answers them, and
/// what is cached and counted stays as it was.
pub proof fn other_reads_pass_the_cache_by<D: BlockRead>(
    pre: CachingDevice<D>,
    offset: u64,
    buf: Seq<u8>,
    r: Result<(), Error>,
    out: Seq<u8>,
    post: CachingDevice<D>,
    touched: int,
)
    requires
        1 <= pre@.block_size <= 64 * 1024 * 1024,
        buf.len() > 0,
        offset + buf.len() <= u64::MAX,
        touched == (offset + buf.len() - 1) / pre@.block_size as int - offset as int
            / pre@.block_size as int + 1,
        offset + buf.len() > pre@.device.size() || touched > 1 && 2 * touched > pre@.capacity
            && pre@.capacity < usize::MAX,
        CachingDevice::<D>::read_step(&pre, offset, buf, r, out, &post),
    ensures
        D::read_step(&pre@.device, offset, buf, r, out, &post@.device),
        post@.cache == pre@.cache,
        post@ == (CacheView { device: post@.device, ..pre@ }),
{
}

/// The reads that nothing is asked of the device for, by any cache: with a block size of zero or
/// above 64 MiB every read is refused, a read of nothing succeeds, and one whose end is no number
/// is refused. Nothing changes.
pub proof fn some_reads_are_answered_unasked<D: BlockRead>(
    pre: CachingDevice<D>,
    offset: u64,
    buf: Seq<u8>,
    r: Result<(), Error>,
    out: Seq<u8>,
    post: CachingDevice<D>,
)
    requires
        CachingDevice::<D>::read_step(&pre, offset, buf, r, out, &post),
        pre@.block_size == 0 || pre@.block_size > 64 * 1024 * 1024 || buf.len() == 0 || offset
            + buf.len() > u64::MAX,
    ensures
        out == buf,
        post@ == pre@,
        pre@.block_size == 0 || pre@.block_size > 64 * 1024 * 1024 ==> (r matches Err(
            Error::Custom(text),
        ) && text@ == block_size_text(pre@.block_size)),
        1 <= pre@.block_size <= 64 * 1024 * 1024 && buf.len() == 0 ==> r is Ok,
        1 <= pre@.block_size <= 64 * 1024 * 1024 && offset + buf.len() > u64::MAX && buf.len() > 0
            ==> r == Err::<(), Error>(
            Error::ShortRead { offset, want: buf.len() as usize, got: 0 },
        ),
{
}

/// A block of a cache that is not cached is asked of the device whole, with one read at its start:
/// `block_size` bytes of it, or those up to the device's end. What the device gives is handed on
/// and cached in front, and a failure is handed on and cached nowhere.
pub proof fn a_miss_is_one_read_of_a_whole_block<D: BlockRead>(
    pre: CacheView<D>,
    start: u64,
    r: Result<Seq<u8>, Error>,
    post: CacheView<D>,
    blank: Seq<u8>,
)
    requires
        block_step(pre, start, r, post),
        forall|k: int|
            0 <= k < pre.cache.entries.len() ==> (#[trigger] pre.cache.entries[k]).0 != start,
        start < pre.device.size(),
        forall|i: int| 0 <= i < blank.len() ==> #[trigger] blank[i] == 0,
        blank.len() == pre.block_size && start + blank.len() <= pre.device.size() || blank.len()
            < pre.block_size && start + blank.len() == pre.device.size(),
    ensures
        exists|answer: Result<(), Error>, given: Seq<u8>|
            {
                &&& #[trigger] D::read_step(
                    &pre.device,
                    start,
                    blank,
                    answer,
                    given,
                    &post.device,
                )
                &&& given.len() == blank.len()
                &&& answer is Ok ==> r == Ok::<Seq<u8>, Error>(given) && post.cache.entries[0] == (
                    start,
                    given,
                )
                &&& answer is Err ==> r is Err && r->Err_0 == answer->Err_0 && post.cache.entries
                    == pre.cache.entries
            },
        pre.cache.misses < u64::MAX ==> post.cache.misses == pre.cache.misses + 1,
        post.cache.hits == pre.cache.hits,
{
    assert(!held(pre.cache.entries, start));
    let len = blank.len();
    assert(crate::content::zeros(len) =~= blank);
    match r {
        Ok(data) => {
            assert(D::read_step(
                &pre.device,
                start,
                blank,
                Ok(()),
                data,
                &post.device,
            ));
        },
        Err(e) => {
            let given = choose|given: Seq<u8>| #[trigger]
                D::read_step(
                    &pre.device,
                    start,
                    crate::content::zeros(len),
                    Err(e),
                    given,
                    &post.device,
                ) && given.len() == len;
            assert(D::read_step(
                &pre.device,
                start,
                blank,
                Err(e),
                given,
                &post.device,
            ));
        },
    }
}

/// A block that is cached is handed out as it was cached, without the device, and comes to the
/// front; the others stay, in their order.
pub proof fn a_hit_is_no_read<D: BlockRead>(
    pre: CacheView<D>,
    k: int,
    r: Result<Seq<u8>, Error>,
    post: CacheView<D>,
)
    requires
        distinct_blocks(pre.cache.entries),
        0 <= k < pre.cache.entries.len(),
        block_step(pre, pre.cache.entries[k].0, r, post),
    ensures
        r == Ok::<Seq<u8>, Error>(pre.cache.entries[k].1),
        post.device == pre.device,
        post.cache.entries == seq![pre.cache.entries[k]] + pre.cache.entries.take(k)
            + pre.cache.entries.skip(k + 1),
        pre.cache.hits < u64::MAX ==> post.cache.hits == pre.cache.hits + 1,
        post.cache.misses == pre.cache.misses,
{
    let entries = pre.cache.entries;
    lemma_without_is_remove(entries, k);
    assert(post.cache.entries =~= seq![entries[k]] + entries.take(k) + entries.skip(k + 1));
}

/// Of the cached blocks, a sweep of the bytes from `from` up to `to` leaves those that end at or
/// before `from` or begin at or behind `to`, and no other.
proof fn lemma_swept(m: CacheModel, from: u64, to: u64, block_size: u64, k: int)
    requires
        0 <= k < m.entries.len(),
        m.entries[k].0 + block_size <= u64::MAX,
        distinct_blocks(m.entries),
    ensures
        ({
            let left = crate::caching_device::swept_twice(m, from, to, block_size).entries;
            let stays = m.entries[k].0 + block_size <= from || m.entries[k].0 >= to;
            &&& stays ==> left.contains(m.entries[k])
            &&& !stays ==> forall|i: int|
                0 <= i < left.len() ==> (#[trigger] left[i]).0 != m.entries[k].0
        }),
{
    let keep = crate::lru::picked(crate::cache_state::outside(from, to, block_size));
    let once = m.entries.filter(keep);
    crate::cache_laws::sweep_drops_exactly_what_it_touches(m, from, to, block_size);
    crate::lru::lemma_filter_members(m.entries, keep);
    let left = crate::caching_device::swept_twice(m, from, to, block_size).entries;
    assert(left == once);
    assert forall|i: int| 0 <= i < left.len() && left[i].0 == m.entries[k].0 implies (
    m.entries[k].0 + block_size <= from || m.entries[k].0 >= to) by {
        assert(crate::cache_state::untouched_by(left[i].0, from, to, block_size));
    }
}

/// A write through a cache drops the cached blocks that have a byte of its range, and keeps every
/// other as it was; the device is asked for exactly that write and answers it. Nothing is counted.
pub proof fn writes_drop_exactly_what_they_touch<D: BlockDevice>(
    pre: CachingDevice<D>,
    offset: u64,
    data: Seq<u8>,
    r: Result<(), Error>,
    post: CachingDevice<D>,
    k: int,
)
    requires
        pre.wf(),
        pre@.has_writer,
        1 <= pre@.block_size <= 64 * 1024 * 1024,
        offset + data.len() <= u64::MAX,
        CachingDevice::<D>::write_step(&pre, offset, data, r, &post),
    ensures
        D::write_step(&pre@.device, offset, data, r, &post@.device),
        post@.cache.hits == pre@.cache.hits && post@.cache.misses == pre@.cache.misses,
        0 <= k < pre@.cache.entries.len() && pre@.cache.entries[k].0 + pre@.block_size <= u64::MAX
            ==> if pre@.cache.entries[k].0 + pre@.block_size <= offset || pre@.cache.entries[k].0
            >= offset + data.len() {
            post@.cache.entries.contains(pre@.cache.entries[k])
        } else {
            forall|i: int|
                0 <= i < post@.cache.entries.len() ==> (#[trigger] post@.cache.entries[i]).0
                    != pre@.cache.entries[k].0
        },
        forall|i: int|
            0 <= i < post@.cache.entries.len() ==> pre@.cache.entries.contains(
                #[trigger] post@.cache.entries[i],
            ),
{
    pre.lemma_wf();
    let to = (offset + data.len()) as u64;
    crate::cache_laws::sweep_drops_exactly_what_it_touches(
        pre@.cache,
        offset,
        to,
        pre@.block_size,
    );
    if 0 <= k < pre@.cache.entries.len() && pre@.cache.entries[k].0 + pre@.block_size <= u64::MAX {
        lemma_swept(pre@.cache, offset, to, pre@.block_size, k);
    }
}

/// A change of length through a cache drops the cached blocks that reach past the shorter of the
/// two lengths, and keeps every other as it was; the device is asked for exactly that length.
pub proof fn resizes_drop_exactly_what_they_touch<D: BlockDevice>(
    pre: CachingDevice<D>,
    new_len: u64,
    r: Result<(), Error>,
    post: CachingDevice<D>,
    k: int,
)
    requires
        pre.wf(),
        pre@.has_writer,
        CachingDevice::<D>::set_len_step(&pre, new_len, r, &post),
        0 <= k < pre@.cache.entries.len(),
        pre@.cache.entries[k].0 + pre@.block_size <= u64::MAX,
        pre@.block_size > 0,
    ensures
        D::set_len_step(&pre@.device, new_len, r, &post@.device),
        if pre@.cache.entries[k].0 + pre@.block_size <= new_len && pre@.cache.entries[k].0
            + pre@.block_size <= pre@.device.size() {
            post@.cache.entries.contains(pre@.cache.entries[k])
        } else {
            forall|i: int|
                0 <= i < post@.cache.entries.len() ==> (#[trigger] post@.cache.entries[i]).0
                    != pre@.cache.entries[k].0
        },
{
    pre.lemma_wf();
    let from = crate::caching_device::resized_from(pre@.device.size(), new_len);
    lemma_swept(pre@.cache, from, u64::MAX, pre@.block_size, k);
}

/// What a cache without a writing half refuses, and what one with an unusable block size does; a
/// flush is the device's where there is a writing half, and succeeds where there is none.
pub proof fn caches_take_what_their_device_takes<D: BlockDevice>(
    pre: CachingDevice<D>,
    offset: u64,
    data: Seq<u8>,
    r: Result<(), Error>,
    post: CachingDevice<D>,
)
    ensures
        pre.size() == pre@.device.size(),
        pre.writable() == (pre@.has_writer && pre@.device.writable()),
        pre.growable() == (pre@.has_writer && pre@.device.growable()),
        CachingDevice::<D>::write_step(&pre, offset, data, r, &post) && !pre@.has_writer ==> r
            == Err::<(), Error>(Error::ReadOnly) && post@ == pre@,
        CachingDevice::<D>::write_step(&pre, offset, data, r, &post) && pre@.has_writer && (
        pre@.block_size == 0 || pre@.block_size > 64 * 1024 * 1024) ==> r is Err && r->Err_0
            is Custom && post@ == pre@,
        CachingDevice::<D>::set_len_step(&pre, offset, r, &post) && !pre@.has_writer ==> r == Err::<
            (),
            Error,
        >(Error::ReadOnly) && post@ == pre@,
        CachingDevice::<D>::flush_step(&pre, r, &post) ==> post@.cache == pre@.cache && if (
        pre@.has_writer) {
            D::flush_step(&pre@.device, r, &post@.device)
        } else {
            r is Ok && post@ == pre@
        },
{
}

/// A refused block size is told: zero as zero, and a larger one than 64 MiB with itself and the
/// ceiling in decimal.
pub proof fn refused_block_sizes_are_named(block_size: u64)
    ensures
        bad_block_size(block_size) <==> block_size == 0 || block_size > 67_108_864,
        block_size > 67_108_864 ==> exists|a: Seq<char>, b: Seq<char>|
            #![trigger digits_of(a, block_size as nat), digits_of(b, 67_108_864)]
            {
                &&& digits_of(a, block_size as nat) && digits_of(b, 67_108_864)
                &&& block_size_text(block_size) == "cache block size "@ + a + " exceeds the "@ + b
                    + "-byte ceiling"@
            },
        block_size == 0 ==> block_size_text(block_size) == "cache block size is zero"@,
{
    decimals_read_back(block_size as nat);
    decimals_read_back(67_108_864);
    assert(digits_of(decimal_text(block_size as nat), block_size as nat));
    assert(digits_of(decimal_text(67_108_864), 67_108_864));
}

/// The device failed a read with `e`, somewhere in the range that was asked for.
pub open spec fn device_failed<D: BlockRead>(
    before: D,
    start: u64,
    asked: Seq<u8>,
    e: Error,
    given: Seq<u8>,
    after: D,
) -> bool {
    D::read_step(&before, start, asked, Err(e), given, &after)
}

proof fn lemma_stitch_failed<D: BlockRead>(
    pre: CacheView<D>,
    v: StitchView,
    first: int,
    buf: Seq<u8>,
    e: Error,
    out: Seq<u8>,
    post: CacheView<D>,
)
    requires
        under_way(pre, v, first, buf),
        stitch_step(pre, v, buf, Err(e), out, post),
    ensures
        exists|before: D, start: u64, asked: Seq<u8>, given: Seq<u8>| #[trigger]
            device_failed(before, start, asked, e, given, post.device) && start < v.offset
                + buf.len() && v.offset < start + pre.block_size,
    decreases v.last + 1 - v.index,
{
    let bs = pre.block_size as int;
    let offset = v.offset;
    let index = v.index;
    let last = v.last;
    let done = v.done;
    lemma_span(offset as int, buf.len() as int, bs);
    if index <= last {
        let start = stitch_start(v);
        assert(0 <= start && start <= last * bs) by (nonlinear_arith)
            requires
                start == index * bs,
                0 <= index <= last,
                bs >= 1,
        ;
        assert((index + 1) * bs == start + bs) by (nonlinear_arith)
            requires
                start == index * bs,
        ;
        if index < last {
            lemma_block_numbers(index, last, bs);
        }
        if index > first {
            lemma_block_numbers(first, index, bs);
        }
        assert((last + 1) * bs == last * bs + bs) by (nonlinear_arith);
        assert((first + 1) * bs == first * bs + bs) by (nonlinear_arith);
        let (block, mid) = choose|block: Result<Seq<u8>, Error>, mid: CacheView<D>| #[trigger]
            block_step(pre, stitch_start(v) as u64, block, mid) && match block {
                Err(f) => Err::<(), Error>(e) == Err::<(), Error>(f) && out == buf && post == mid,
                Ok(data) => stitch_step(
                    mid,
                    stitch_given(v, data),
                    stitch_filled(v, buf, data),
                    Err(e),
                    out,
                    post,
                ),
            };
        match block {
            Err(f) => {
                let len = crate::caching_device::block_len(start, pre.block_size, pre.device.size());
                let given = choose|given: Seq<u8>| #[trigger]
                    D::read_step(
                        &pre.device,
                        start as u64,
                        crate::content::zeros(len),
                        Err(f),
                        given,
                        &post.device,
                    ) && given.len() == len;
                assert(device_failed(
                    pre.device,
                    start as u64,
                    crate::content::zeros(len),
                    e,
                    given,
                    post.device,
                ));
            },
            Ok(data) => {
                let j = index - first;
                assert forall|t: int| 0 <= t < j implies (#[trigger] pre.cache.entries[t]).0
                    != start as u64 by {
                    lemma_block_numbers(index - 1 - t, index, bs);
                }
                lemma_served_block(pre, start as u64, data, mid, j);
                assert(just_used(mid.cache.entries, first, index + 1, bs)) by {
                    assert forall|t: int| 0 <= t < index + 1 - first implies (
                    #[trigger] mid.cache.entries[t]).0 == (index - t) * bs by {
                        if t > 0 {
                            assert(mid.cache.entries[(t - 1) + 1].0 == pre.cache.entries[t - 1].0);
                        }
                    }
                }
                let from = block_from(offset, start);
                let take = stitch_take(v, data);
                if index == first {
                    assert(start <= offset < start + bs);
                }
                assert(start + from == offset + done);
                assert(take > 0);
                lemma_stitch_failed(
                    mid,
                    stitch_given(v, data),
                    first,
                    stitch_filled(v, buf, data),
                    e,
                    out,
                    post,
                );
            },
        }
    }
}

/// A read that the cache serves fails only where the device fails one of its blocks, and then with
/// the device's own error.
pub proof fn failed_reads_tell_the_devices_error<D: BlockRead>(
    pre: CachingDevice<D>,
    offset: u64,
    buf: Seq<u8>,
    e: Error,
    out: Seq<u8>,
    post: CachingDevice<D>,
    touched: int,
)
    requires
        pre.wf(),
        1 <= pre@.block_size <= 64 * 1024 * 1024,
        whole_blocks(pre@.cache.entries, pre@.block_size, pre@.device.size()),
        0 < buf.len() <= usize::MAX,
        offset + buf.len() <= pre@.device.size(),
        touched == (offset + buf.len() - 1) / pre@.block_size as int - offset as int
            / pre@.block_size as int + 1,
        touched == 1 || 2 * touched <= pre@.capacity,
        CachingDevice::<D>::read_step(&pre, offset, buf, Err(e), out, &post),
    ensures
        exists|before: D, start: u64, asked: Seq<u8>, given: Seq<u8>| #[trigger]
            device_failed(before, start, asked, e, given, post@.device) && start < offset
                + buf.len() && offset < start + pre@.block_size,
{
    let bs = pre@.block_size as int;
    let first = offset as int / bs;
    let last = (offset + buf.len() - 1) / bs;
    pre.lemma_wf();
    lemma_span(offset as int, buf.len() as int, bs);
    assert(read_plan(offset, buf.len(), pre@.device.size(), pre@.block_size, pre@.capacity)
        == ReadPlan::Blocks { first: first as u64, last: last as u64 });
    let v = stitch_of(offset, buf.len(), pre@.block_size, first as u64, last as u64);
    assert(under_way(pre@, v, first, buf));
    lemma_stitch_failed(pre@, v, first, buf, e, out, post@);
}

/// What a block gives to a read: its bytes from where the read begins in it, as many as it has
/// there and the read still wants, one after the other from where the buffer is filled to. The
/// rest of the buffer stays.
pub proof fn blocks_give_what_they_have(
    buf: Seq<u8>,
    done: int,
    block: Seq<u8>,
    offset: u64,
    start: int,
    i: int,
)
    requires
        0 <= done <= buf.len(),
        0 <= start,
        0 <= i < buf.len(),
    ensures
        ({
            let from = block_from(offset, start);
            let take = block_take(block.len(), from, buf.len() - done);
            &&& offset >= start ==> start + from == offset
            &&& offset < start ==> from == 0
            &&& from >= block.len() ==> take == 0
            &&& from < block.len() ==> done + take == buf.len() && from + take <= block.len()
                || from + take == block.len() && done + take <= buf.len()
            &&& filled(buf, done, block, from, take).len() == buf.len()
            &&& done <= i < done + take ==> filled(buf, done, block, from, take)[i] == block[from
                + i - done]
            &&& i < done || i >= done + take ==> filled(buf, done, block, from, take)[i] == buf[i]
        }),
{
}

/// A read that has all the blocks it will get succeeds exactly if they filled the buffer; else it
/// is short, and says what was asked for and what came.
pub proof fn unfilled_reads_are_short(v: StitchView, r: Result<(), Error>)
    requires
        stitch_answer(v, r),
    ensures
        r is Ok <==> v.done == v.want,
        v.done != v.want ==> r == Err::<(), Error>(
            Error::ShortRead { offset: v.offset, want: v.want as usize, got: v.done as usize },
        ),
{
}

/// A new cache holds nothing and has counted nothing, and a cache holds no more blocks than its
/// capacity, or one where that is zero.
pub proof fn how_much_a_cache_holds<D: BlockRead>(c: CachingDevice<D>)
    requires
        c.wf(),
    ensures
        c@.capacity > 0 ==> c@.cache.entries.len() <= c@.capacity,
        c@.capacity == 0 ==> c@.cache.entries.len() <= 1,
        crate::caching_device::empty_cache().entries.len() == 0,
        crate::caching_device::empty_cache().hits == 0,
        crate::caching_device::empty_cache().misses == 0,
{
    c.lemma_wf();
}

} // verus!
