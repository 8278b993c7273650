//! Small LRU read-cache decorator. A read is served from the blocks it falls in, whatever its
//! size; one that spans more than half of the cache passes through. Writes and changes of length
//! invalidate the cached blocks they touch.
use crate::block::{BlockDevice, BlockRead};
use crate::cache_state::{
    after_clear, after_sweep, bumped, outside, release_undoes_marking, CacheModel, CacheState, Lookup,
};
use crate::content::zeros;
use crate::error::Error;
use crate::lru::{
    held, held_data, inserted, insertion_keeps_the_bound, picked, promoted,
    promotion_keeps_the_entries,
};
use crate::readonly::ReadOnlyDevice;
use crate::text::{decimal_text, push_decimal};
use std::sync::Arc;
use vstd::prelude::*;
use vstd::string::*;

verus! {

/// The largest block size a cache will accept: 64 MiB. A block is allocated whole, and the number
/// often comes off a disk.
pub const MAX_BLOCK_SIZE: u64 = 67_108_864;

/// Whether the cache cannot work with this block size.
pub open spec fn bad_block_size(block_size: u64) -> bool {
    block_size == 0 || block_size > MAX_BLOCK_SIZE
}

/// What is said of a block size that the cache cannot work with.
pub open spec fn block_size_text(block_size: u64) -> Seq<char> {
    if block_size == 0 {
        "cache block size is zero"@
    } else {
        "cache block size "@ + decimal_text(block_size as nat) + " exceeds the "@ + decimal_text(
            MAX_BLOCK_SIZE as nat,
        ) + "-byte ceiling"@
    }
}

/// The answer is a custom error with this text.
pub open spec fn is_custom(r: Result<(), Error>, text: Seq<char>) -> bool {
    r matches Err(Error::Custom(m)) && m@ == text
}

/// Refuse a block size that the cache cannot work with.
pub fn check_block_size(block_size: u64) -> (r: Result<(), Error>)
    ensures
        bad_block_size(block_size) ==> is_custom(r, block_size_text(block_size)),
        !bad_block_size(block_size) ==> r is Ok,
{
    if block_size == 0 {
        return Err(Error::Custom("cache block size is zero".to_owned()));
    }
    if block_size > MAX_BLOCK_SIZE {
        let mut text = "cache block size ".to_owned();
        push_decimal(&mut text, block_size);
        text.append(" exceeds the ");
        push_decimal(&mut text, MAX_BLOCK_SIZE);
        text.append("-byte ceiling");
        return Err(Error::Custom(text));
    }
    Ok(())
}

/// Whether a write may go on to the device: not without a writing half, which is answered before
/// anything else, nor with an unusable block size.
pub fn check_cached_write(has_writer: bool, block_size: u64) -> (r: Result<(), Error>)
    ensures
        !has_writer ==> r == Err::<(), Error>(Error::ReadOnly),
        has_writer && bad_block_size(block_size) ==> is_custom(r, block_size_text(block_size)),
        has_writer && !bad_block_size(block_size) ==> r is Ok,
{
    if !has_writer {
        return Err(Error::ReadOnly);
    }
    check_block_size(block_size)
}

/// The sum, or the largest number where it does not fit.
pub open spec fn saturated(n: int) -> int {
    if n > u64::MAX {
        u64::MAX as int
    } else {
        n
    }
}

/// How much of the block at `start` a device of `size` bytes has: the last block is often short.
pub open spec fn block_len(start: int, block_size: u64, size: u64) -> nat {
    let end = if start + block_size < size {
        start + block_size
    } else {
        size as int
    };
    if end > start {
        (end - start) as nat
    } else {
        0
    }
}

/// How a read is to be served.
pub enum ReadPlan {
    /// Nothing was asked for.
    Nothing,
    /// The end of the read does not fit in a number, so it names no byte on any device.
    Overflow,
    /// Past the end of the device, or too large to be worth caching: the device's to answer.
    Forward,
    /// From these blocks.
    Blocks { first: u64, last: u64 },
}

/// How a read of `len` bytes at `offset` is to be served.
pub open spec fn read_plan(
    offset: u64,
    len: nat,
    size: u64,
    block_size: u64,
    capacity: usize,
) -> ReadPlan {
    let end = offset + len;
    let first = offset as int / block_size as int;
    let last = (end - 1) / block_size as int;
    let spanned = last - first + 1;
    if len == 0 {
        ReadPlan::Nothing
    } else if end > u64::MAX {
        ReadPlan::Overflow
    } else if end > size {
        ReadPlan::Forward
    } else if spanned > 1 && (if spanned * 2 > usize::MAX {
        usize::MAX as int
    } else {
        spanned * 2
    }) > capacity {
        ReadPlan::Forward
    } else {
        ReadPlan::Blocks { first: first as u64, last: last as u64 }
    }
}

pub proof fn lemma_span(offset: int, len: int, block_size: int)
    requires
        offset >= 0,
        len >= 1,
        block_size >= 1,
    ensures
        0 <= offset / block_size <= (offset + len - 1) / block_size,
        (offset + len - 1) / block_size - offset / block_size + 1 <= len,
        (offset + len - 1) / block_size <= offset + len - 1,
        (offset / block_size) * block_size <= offset < (offset / block_size + 1) * block_size,
        ((offset + len - 1) / block_size) * block_size <= offset + len - 1 < ((offset + len - 1)
            / block_size + 1) * block_size,
{
    let q = offset / block_size;
    let p = (offset + len - 1) / block_size;
    assert(q * block_size <= offset < (q + 1) * block_size && 0 <= q) by (nonlinear_arith)
        requires
            q == offset / block_size,
            block_size >= 1,
            offset >= 0,
    ;
    assert(p * block_size <= offset + len - 1 < (p + 1) * block_size && 0 <= p) by (nonlinear_arith)
        requires
            p == (offset + len - 1) / block_size,
            block_size >= 1,
            offset >= 0,
            len >= 1,
    ;
    assert(p <= offset + len - 1) by (nonlinear_arith)
        requires
            p * block_size <= offset + len - 1,
            block_size >= 1,
            p >= 0,
    ;
    assert(q <= p) by (nonlinear_arith)
        requires
            q * block_size <= offset,
            offset <= offset + len - 1,
            offset + len - 1 < (p + 1) * block_size,
            block_size >= 1,
    ;
    assert(p - q + 1 <= len) by (nonlinear_arith)
        requires
            p * block_size <= offset + len - 1,
            offset < (q + 1) * block_size,
            block_size >= 1,
            len >= 1,
    ;
}

/// How a read of `len` bytes at `offset` is to be served, by a cache of `capacity` blocks of
/// `block_size` bytes over a device of `size` bytes. A single block is never too large,
/// however small the cache.
pub fn plan_read(offset: u64, len: usize, size: u64, block_size: u64, capacity: usize) -> (r:
    ReadPlan)
    requires
        block_size > 0,
    ensures
        r == read_plan(offset, len as nat, size, block_size, capacity),
{
    if len == 0 {
        return ReadPlan::Nothing;
    }
    let end: u64 = match offset.checked_add(len as u64) {
        Some(end) => end,
        None => {
            return ReadPlan::Overflow;
        },
    };
    if end > size {
        return ReadPlan::Forward;
    }
    proof {
        lemma_span(offset as int, len as int, block_size as int);
    }
    let first: u64 = offset / block_size;
    let last: u64 = (end - 1) / block_size;
    let spanned: usize = (last - first + 1) as usize;
    let doubled: usize = if spanned > usize::MAX / 2 {
        usize::MAX
    } else {
        spanned * 2
    };
    if spanned > 1 && doubled > capacity {
        return ReadPlan::Forward;
    }
    ReadPlan::Blocks { first, last }
}

/// How many bytes to ask the device for, to fill the block at `start`.
pub fn fetch_len(start: u64, block_size: u64, size: u64) -> (r: u64)
    ensures
        r == block_len(start as int, block_size, size),
        r <= block_size,
{
    let end: u64 = start.saturating_add(block_size);
    let end: u64 = if end < size {
        end
    } else {
        size
    };
    end.saturating_sub(start)
}

/// Where in the block at `start` a read at `offset` begins.
pub open spec fn block_from(offset: u64, start: int) -> int {
    if offset > start {
        offset - start
    } else {
        0
    }
}

/// How many bytes a block of `held` bytes can give to a read that still wants `wanted`.
pub open spec fn block_take(held: nat, from: int, wanted: int) -> int {
    let have = if held > from {
        held - from
    } else {
        0
    };
    if have < wanted {
        have
    } else {
        wanted
    }
}

/// `buf` with the bytes of `block` from `from` written at `done`.
pub open spec fn filled(buf: Seq<u8>, done: int, block: Seq<u8>, from: int, take: int) -> Seq<u8> {
    Seq::new(
        buf.len(),
        |i: int|
            if done <= i < done + take {
                block[from + i - done]
            } else {
                buf[i]
            },
    )
}

/// Copy what `block`, which stands at `start`, holds of the read at `offset` into the buffer,
/// of which `done` bytes are filled. Returns how many bytes that was.
pub fn copy_block(buf: &mut [u8], done: usize, block: &Vec<u8>, offset: u64, start: u64) -> (r:
    usize)
    requires
        done <= old(buf)@.len(),
    ensures
        r == block_take(
            block@.len(),
            block_from(offset, start as int),
            old(buf)@.len() - done,
        ),
        final(buf)@ == filled(
            old(buf)@,
            done as int,
            block@,
            block_from(offset, start as int),
            r as int,
        ),
{
    let skip: u64 = if offset > start {
        offset - start
    } else {
        0
    };
    let ghost was = buf@;
    if skip >= block.len() as u64 {
        assert(buf@ =~= filled(was, done as int, block@, skip as int, 0));
        return 0;
    }
    let from: usize = skip as usize;
    let wanted: usize = buf.len() - done;
    let have: usize = block.len() - from;
    let take: usize = if have < wanted {
        have
    } else {
        wanted
    };
    let mut i: usize = 0;
    while i < take
        invariant
            0 <= i <= take,
            done + take <= buf@.len(),
            done + take <= usize::MAX,
            from + take <= block@.len(),
            from + take <= usize::MAX,
            buf@ == filled(was, done as int, block@, from as int, i as int),
        decreases take - i,
    {
        buf[done + i] = block[from + i];
        i = i + 1;
        assert(buf@ =~= filled(was, done as int, block@, from as int, i as int));
    }
    assert(buf@ =~= filled(was, done as int, block@, from as int, take as int));
    take
}

/// A read that is being put together from blocks: those from `index` to `last` are still to come,
/// and the first `done` bytes of the buffer are filled.
pub struct StitchView {
    pub offset: u64,
    pub want: nat,
    pub block_size: u64,
    pub index: int,
    pub last: int,
    pub done: int,
}

/// Where the next block of a read stands.
pub open spec fn stitch_start(v: StitchView) -> int {
    v.index * v.block_size
}

/// How many bytes of the next block a read takes.
pub open spec fn stitch_take(v: StitchView, data: Seq<u8>) -> int {
    block_take(data.len(), block_from(v.offset, stitch_start(v)), v.want - v.done)
}

/// The read after its next block has come. A block that has nothing for it ends the read.
pub open spec fn stitch_given(v: StitchView, data: Seq<u8>) -> StitchView {
    let take = stitch_take(v, data);
    if take == 0 {
        StitchView { index: v.last + 1, ..v }
    } else {
        StitchView { index: v.index + 1, done: v.done + take, ..v }
    }
}

/// The buffer after the next block has come.
pub open spec fn stitch_filled(v: StitchView, buf: Seq<u8>, data: Seq<u8>) -> Seq<u8> {
    filled(buf, v.done, data, block_from(v.offset, stitch_start(v)), stitch_take(v, data))
}

/// The answer of a read that has all its blocks: a buffer that was not filled is a failure.
pub open spec fn stitch_answer(v: StitchView, r: Result<(), Error>) -> bool {
    if v.done == v.want {
        r is Ok
    } else {
        r == Err::<(), Error>(
            Error::ShortRead { offset: v.offset, want: v.want as usize, got: v.done as usize },
        )
    }
}

/// A read that is being put together from blocks.
pub struct Stitch {
    offset: u64,
    want: usize,
    block_size: u64,
    index: u64,
    last: u64,
    done: usize,
}

impl View for Stitch {
    type V = StitchView;

    closed spec fn view(&self) -> StitchView {
        StitchView {
            offset: self.offset,
            want: self.want as nat,
            block_size: self.block_size,
            index: self.index as int,
            last: self.last as int,
            done: self.done as int,
        }
    }
}

impl Stitch {
    pub closed spec fn wf(&self) -> bool {
        &&& self.block_size > 0
        &&& self.last < u64::MAX
        &&& self.last * self.block_size <= u64::MAX
        &&& self.index <= self.last + 1
        &&& self.done <= self.want
    }

    /// Where the next block that the read needs stands, while it needs one.
    pub fn wanted(&self) -> (r: Option<u64>)
        requires
            self.wf(),
        ensures
            match r {
                Some(start) => self@.index <= self@.last && start == stitch_start(self@),
                None => self@.index > self@.last,
            },
    {
        if self.index > self.last {
            return None;
        }
        assert(self.index * self.block_size <= self.last * self.block_size) by (nonlinear_arith)
            requires
                self.index <= self.last,
        ;
        Some(self.index * self.block_size)
    }

    /// Copy what the next block holds of the read into the buffer.
    pub fn give(&mut self, buf: &mut [u8], block: &Vec<u8>)
        requires
            old(self).wf(),
            old(self)@.index <= old(self)@.last,
            old(buf)@.len() == old(self)@.want,
        ensures
            final(self).wf(),
            final(self)@ == stitch_given(old(self)@, block@),
            final(buf)@ == stitch_filled(old(self)@, old(buf)@, block@),
            final(buf)@.len() == old(buf)@.len(),
    {
        assert(self.index * self.block_size <= self.last * self.block_size) by (nonlinear_arith)
            requires
                self.index <= self.last,
        ;
        let start: u64 = self.index * self.block_size;
        let take: usize = copy_block(buf, self.done, block, self.offset, start);
        if take == 0 {
            self.index = self.last + 1;
        } else {
            self.index = self.index + 1;
            self.done = self.done + take;
        }
    }

    /// The answer of the read, when it needs no more blocks.
    pub fn finish(&self) -> (r: Result<(), Error>)
        ensures
            stitch_answer(self@, r),
    {
        if self.done == self.want {
            Ok(())
        } else {
            Err(Error::ShortRead { offset: self.offset, want: self.want, got: self.done })
        }
    }
}

/// The answer to a read of `len` bytes at `offset` that nothing is asked of the device for: an
/// unusable block size is refused, a read of nothing is answered, and one whose end does not fit
/// in a number is refused, in this order. `None` for every other read.
pub fn answer_unasked(offset: u64, len: usize, block_size: u64) -> (r: Option<Result<(), Error>>)
    ensures
        bad_block_size(block_size) ==> (r matches Some(a) && is_custom(
            a,
            block_size_text(block_size),
        )),
        !bad_block_size(block_size) && len == 0 ==> (r matches Some(a) && a is Ok),
        !bad_block_size(block_size) && len > 0 && offset + len > u64::MAX ==> r == Some(
            Err::<(), Error>(Error::ShortRead { offset, want: len, got: 0 }),
        ),
        !bad_block_size(block_size) && len > 0 && offset + len <= u64::MAX ==> r is None,
{
    match check_block_size(block_size) {
        Err(e) => {
            return Some(Err(e));
        },
        Ok(_) => {},
    }
    if len == 0 {
        return Some(Ok(()));
    }
    match offset.checked_add(len as u64) {
        Some(_) => None,
        None => Some(Err(Error::ShortRead { offset, want: len, got: 0 })),
    }
}

/// How a read begins that the device is needed for.
pub enum ReadStart {
    /// The device answers it.
    Forward,
    /// It is put together from blocks.
    Stitch(Stitch),
}

/// The read of the blocks from `first` to `last`, before any has come.
pub open spec fn stitch_of(
    offset: u64,
    want: nat,
    block_size: u64,
    first: u64,
    last: u64,
) -> StitchView {
    StitchView { offset, want, block_size, index: first as int, last: last as int, done: 0 }
}

/// How a read of `len` bytes at `offset` begins, in a cache of `capacity` blocks of `block_size`
/// bytes over a device of `size` bytes, once [`answer_unasked`] has left it open.
pub fn begin_read(offset: u64, len: usize, size: u64, block_size: u64, capacity: usize) -> (r:
    ReadStart)
    requires
        !bad_block_size(block_size),
        len > 0,
        offset + len <= u64::MAX,
    ensures
        match read_plan(offset, len as nat, size, block_size, capacity) {
            ReadPlan::Blocks { first, last } => r matches ReadStart::Stitch(s) && s.wf() && s@
                == stitch_of(offset, len as nat, block_size, first, last),
            _ => r == ReadStart::Forward,
        },
{
    match plan_read(offset, len, size, block_size, capacity) {
        ReadPlan::Blocks { first, last } => {
            proof {
                lemma_span(offset as int, len as int, block_size as int);
            }
            ReadStart::Stitch(
                Stitch { offset, want: len, block_size, index: first, last, done: 0 },
            )
        },
        _ => ReadStart::Forward,
    }
}

/// The only reader of a cache that is not shared.
const OWNER: u64 = 0;

/// A caching device: what it caches, and what it has cached.
pub struct CacheView<D> {
    pub device: D,
    /// Whether the device was given for writing too.
    pub has_writer: bool,
    pub block_size: u64,
    pub capacity: usize,
    pub cache: CacheModel,
}

/// A miss is counted, and the fetched block is put in front.
pub open spec fn fetched(m: CacheModel, block: u64, data: Seq<u8>, capacity: nat) -> CacheModel {
    CacheModel {
        entries: inserted(m.entries, block, data, capacity),
        misses: bumped(m.misses),
        ..m
    }
}

/// One block is asked for. A cached one comes to the front and counts as a hit; any other is
/// read from the device, as much of it as the device has, counts as a miss, and is cached if
/// the device could read it.
pub open spec fn block_step<D: BlockRead>(
    pre: CacheView<D>,
    start: u64,
    r: Result<Seq<u8>, Error>,
    post: CacheView<D>,
) -> bool {
    if held(pre.cache.entries, start) {
        &&& r == Ok::<Seq<u8>, Error>(held_data(pre.cache.entries, start))
        &&& post == CacheView {
            cache: CacheModel {
                entries: promoted(pre.cache.entries, start),
                hits: bumped(pre.cache.hits),
                ..pre.cache
            },
            ..pre
        }
    } else {
        let len = block_len(start as int, pre.block_size, pre.device.size());
        match r {
            Ok(data) => {
                &&& D::read_step(
                    &pre.device,
                    start,
                    zeros(len),
                    Ok(()),
                    data,
                    &post.device,
                )
                &&& data.len() == len
                &&& post.device.wf()
                &&& post.device.size() == pre.device.size()
                &&& post == CacheView {
                    device: post.device,
                    cache: fetched(pre.cache, start, data, pre.capacity as nat),
                    ..pre
                }
            },
            Err(e) => {
                &&& (exists|data: Seq<u8>| #[trigger]
                    D::read_step(&pre.device, start, zeros(len), Err(e), data, &post.device)
                        && data.len() == len)
                &&& post.device.wf()
                &&& post.device.size() == pre.device.size()
                &&& post == CacheView {
                    device: post.device,
                    cache: CacheModel { misses: bumped(pre.cache.misses), ..pre.cache },
                    ..pre
                }
            },
        }
    }
}

/// The rest of a read that is being put together from blocks. It fails where a block cannot be
/// had, and where the blocks run out of bytes before the buffer is full.
pub open spec fn stitch_step<D: BlockRead>(
    pre: CacheView<D>,
    v: StitchView,
    buf: Seq<u8>,
    r: Result<(), Error>,
    out: Seq<u8>,
    post: CacheView<D>,
) -> bool
    decreases v.last + 1 - v.index,
{
    if v.index > v.last {
        stitch_answer(v, r) && out == buf && post == pre
    } else {
        exists|block: Result<Seq<u8>, Error>, mid: CacheView<D>| #[trigger]
            block_step(pre, stitch_start(v) as u64, block, mid) && match block {
                Err(e) => r == Err::<(), Error>(e) && out == buf && post == mid,
                Ok(data) => stitch_step(
                    mid,
                    stitch_given(v, data),
                    stitch_filled(v, buf, data),
                    r,
                    out,
                    post,
                ),
            }
    }
}

/// A read through the cache.
pub open spec fn cache_read_step<D: BlockRead>(
    pre: CacheView<D>,
    offset: u64,
    buf: Seq<u8>,
    r: Result<(), Error>,
    out: Seq<u8>,
    post: CacheView<D>,
) -> bool {
    if bad_block_size(pre.block_size) {
        is_custom(r, block_size_text(pre.block_size)) && out == buf && post == pre
    } else {
        match read_plan(offset, buf.len(), pre.device.size(), pre.block_size, pre.capacity) {
            ReadPlan::Nothing => r is Ok && out == buf && post == pre,
            ReadPlan::Overflow => {
                &&& r == Err::<(), Error>(
                    Error::ShortRead { offset, want: buf.len() as usize, got: 0 },
                )
                &&& out == buf
                &&& post == pre
            },
            ReadPlan::Forward => {
                &&& D::read_step(&pre.device, offset, buf, r, out, &post.device)
                &&& post == CacheView { device: post.device, ..pre }
            },
            ReadPlan::Blocks { first, last } => stitch_step(
                pre,
                stitch_of(offset, buf.len(), pre.block_size, first, last),
                buf,
                r,
                out,
                post,
            ),
        }
    }
}

/// A cache after the bytes `start..end` of its device may have changed, once either side of
/// the change.
pub open spec fn swept_twice(m: CacheModel, start: u64, end: u64, block_size: u64) -> CacheModel {
    after_sweep(after_sweep(m, start, end, block_size), start, end, block_size)
}

proof fn lemma_sweeps_shorten(m: CacheModel, start: u64, end: u64, block_size: u64)
    ensures
        swept_twice(m, start, end, block_size).entries.len() <= m.entries.len(),
{
    let keep = picked(outside(start, end, block_size));
    m.entries.lemma_filter_len(keep);
    m.entries.filter(keep).lemma_filter_len(keep);
}

/// A write through the cache. Without a writing half it is refused before anything else, and
/// with an unusable block size before the device is reached: neither touches the cache. Any
/// other write drops the blocks it touches, whether or not the device took it.
pub open spec fn cache_write_step<D: BlockDevice>(
    pre: CacheView<D>,
    offset: u64,
    data: Seq<u8>,
    r: Result<(), Error>,
    post: CacheView<D>,
) -> bool {
    if !pre.has_writer {
        r == Err::<(), Error>(Error::ReadOnly) && post == pre
    } else if bad_block_size(pre.block_size) {
        is_custom(r, block_size_text(pre.block_size)) && post == pre
    } else {
        let end = saturated(offset + data.len()) as u64;
        &&& D::write_step(&pre.device, offset, data, r, &post.device)
        &&& post == CacheView {
            device: post.device,
            cache: swept_twice(pre.cache, offset, end, pre.block_size),
            ..pre
        }
    }
}

/// The first byte that a change of length may change: the shorter of the two lengths.
pub open spec fn resized_from(size: u64, new_len: u64) -> u64 {
    if new_len < size {
        new_len
    } else {
        size
    }
}

/// Where the sweep of a change of length from `size` to `new_len` begins.
pub fn resize_sweep_start(size: u64, new_len: u64) -> (r: u64)
    ensures
        r == resized_from(size, new_len),
{
    if new_len < size {
        new_len
    } else {
        size
    }
}

/// Where the sweep of a write of `len` bytes at `offset` ends.
pub fn write_sweep_end(offset: u64, len: usize) -> (r: u64)
    ensures
        r == saturated(offset + len),
{
    offset.saturating_add(len as u64)
}

/// A change of length through the cache. Without a writing half it is refused and the cache
/// is left alone; any other drops every block from the shorter of the two lengths on.
pub open spec fn cache_set_len_step<D: BlockDevice>(
    pre: CacheView<D>,
    new_len: u64,
    r: Result<(), Error>,
    post: CacheView<D>,
) -> bool {
    if !pre.has_writer {
        r == Err::<(), Error>(Error::ReadOnly) && post == pre
    } else {
        let from = resized_from(pre.device.size(), new_len);
        &&& D::set_len_step(&pre.device, new_len, r, &post.device)
        &&& post == CacheView {
            device: post.device,
            cache: swept_twice(pre.cache, from, u64::MAX, pre.block_size),
            ..pre
        }
    }
}

/// A device and a cache of its blocks.
pub struct CachingDevice<D> {
    inner: D,
    has_writer: bool,
    block_size: u64,
    capacity: usize,
    state: CacheState,
}

impl<D> View for CachingDevice<D> {
    type V = CacheView<D>;

    closed spec fn view(&self) -> CacheView<D> {
        CacheView {
            device: self.inner,
            has_writer: self.has_writer,
            block_size: self.block_size,
            capacity: self.capacity,
            cache: self.state@,
        }
    }
}

/// How many blocks a cache holds at most: its capacity, and one where that is zero.
pub open spec fn most_entries(capacity: usize) -> nat {
    if capacity == 0 {
        1
    } else {
        capacity as nat
    }
}

/// Nothing cached and nothing counted.
pub open spec fn empty_cache() -> CacheModel {
    CacheModel {
        entries: Seq::empty(),
        hits: 0,
        misses: 0,
        generation: 0,
        in_flight: Seq::empty(),
    }
}

impl<D: BlockRead> CachingDevice<ReadOnlyDevice<D>> {
    /// Cache a device that is only ever read.
    ///
    /// `block_size` must be non-zero and no larger than [`MAX_BLOCK_SIZE`]; any other is refused
    /// by every read.
    pub fn read_only(inner: D, block_size: u64, capacity: usize) -> (r: Self)
        requires
            inner.wf(),
        ensures
            r.wf(),
            r@.device.device() == inner,
            r@ == (CacheView {
                device: r@.device,
                has_writer: false,
                block_size,
                capacity,
                cache: empty_cache(),
            }),
    {
        CachingDevice {
            inner: ReadOnlyDevice::new(inner),
            has_writer: false,
            block_size,
            capacity,
            state: CacheState::new(capacity),
        }
    }
}

impl<D: BlockDevice> CachingDevice<D> {
    /// Cache a device that can be written. Writes drop the entries they overlap and go through
    /// to `inner`.
    ///
    /// `block_size` must be non-zero and no larger than [`MAX_BLOCK_SIZE`]; any other is refused
    /// by every read and every write.
    pub fn new(inner: D, block_size: u64, capacity: usize) -> (r: Self)
        requires
            inner.wf(),
        ensures
            r.wf(),
            r@ == (CacheView {
                device: inner,
                has_writer: true,
                block_size,
                capacity,
                cache: empty_cache(),
            }),
    {
        CachingDevice {
            inner,
            has_writer: true,
            block_size,
            capacity,
            state: CacheState::new(capacity),
        }
    }
}

impl<D: BlockRead> CachingDevice<D> {
    /// A well-formed cache holds no block twice and no more blocks than it may, has nothing in
    /// flight, and its device is well-formed.
    pub proof fn lemma_wf(&self)
        requires
            self.wf(),
        ensures
            self@.device.wf(),
            crate::lru::distinct_blocks(self@.cache.entries),
            self@.cache.in_flight.len() == 0,
            self@.cache.entries.len() <= most_entries(self@.capacity),
    {
        self.state.lemma_distinct();
    }

    /// The cached device.
    pub fn inner(&self) -> (r: &D)
        ensures
            *r == self@.device,
    {
        &self.inner
    }

    /// Hits and misses so far.
    pub fn stats(&self) -> (r: (u64, u64))
        ensures
            r == (self@.cache.hits, self@.cache.misses),
    {
        self.state.stats()
    }

    /// Drop every cached block.
    pub fn invalidate_all(&mut self)
        requires
            (*old(self)).wf(),
        ensures
            (*final(self)).wf(),
            final(self)@ == (CacheView { cache: after_clear(old(self)@.cache), ..old(self)@ }),
    {
        self.state.invalidate_all();
    }

    /// The block at `start`, fetched if it is not held.
    fn block(&mut self, start: u64) -> (r: Result<Arc<Vec<u8>>, Error>)
        requires
            (*old(self)).wf(),
            !bad_block_size(old(self)@.block_size),
        ensures
            (*final(self)).wf(),
            match r {
                Ok(data) => block_step(old(self)@, start, Ok(data@), final(self)@),
                Err(e) => block_step(old(self)@, start, Err(e), final(self)@),
            },
    {
        let ghost was = self@;
        proof {
            self.state.lemma_distinct();
            if held(was.cache.entries, start) {
                promotion_keeps_the_entries(was.cache.entries, start);
            }
        }
        let generation: u64 = match self.state.lookup(start, OWNER) {
            Lookup::Hit(data) => {
                return Ok(data);
            },
            Lookup::Wait => vstd::pervasive::unreached(),
            Lookup::Fetch(generation) => generation,
        };
        let size: u64 = self.inner.size_bytes();
        let len: u64 = fetch_len(start, self.block_size, size);
        let mut block: Vec<u8> = vec![0u8; len as usize];
        assert(block@ =~= zeros(len as nat));
        let answer = self.inner.read_at(start, block.as_mut_slice());
        proof {
            if answer is Ok {
                assert(answer->Ok_0 == ());
                assert(answer == Ok::<(), Error>(()));
            }
        }
        match answer {
            Err(e) => {
                self.state.release(start, OWNER);
                proof {
                    assert(D::read_step(
                        &was.device,
                        start,
                        zeros(block_len(start as int, was.block_size, was.device.size())),
                        Err(e),
                        block@,
                        &self@.device,
                    ));
                    release_undoes_marking(was.cache.in_flight, start, OWNER);
                    assert(block_step(was, start, Err(e), self@));
                }
                Err(e)
            },
            Ok(()) => {
                let data = self.state.complete(start, Arc::new(block), generation, self.capacity);
                self.state.release(start, OWNER);
                proof {
                    release_undoes_marking(was.cache.in_flight, start, OWNER);
                    insertion_keeps_the_bound(
                        was.cache.entries,
                        start,
                        data@,
                        was.capacity as nat,
                    );
                    assert(block_step(was, start, Ok(data@), self@));
                }
                Ok(data)
            },
        }
    }
}

impl<D: BlockRead> BlockRead for CachingDevice<D> {
    closed spec fn wf(&self) -> bool {
        &&& self.inner.wf()
        &&& self.state.wf()
        &&& self.state@.in_flight == Seq::<(u64, u64)>::empty()
        &&& self.state@.entries.len() <= most_entries(self.capacity)
    }

    open spec fn size(&self) -> u64 {
        self@.device.size()
    }

    open spec fn read_step(
        pre: &Self,
        offset: u64,
        buf: Seq<u8>,
        r: Result<(), Error>,
        out: Seq<u8>,
        post: &Self,
    ) -> bool {
        cache_read_step(pre@, offset, buf, r, out, post@)
    }

    fn read_at(&mut self, offset: u64, buf: &mut [u8]) -> (r: Result<(), Error>) {
        let ghost was = self@;
        let ghost buf0 = buf@;
        match answer_unasked(offset, buf.len(), self.block_size) {
            Some(answer) => {
                return answer;
            },
            None => {},
        }
        let size: u64 = self.inner.size_bytes();
        let mut stitch = match begin_read(
            offset,
            buf.len(),
            size,
            self.block_size,
            self.capacity,
        ) {
            ReadStart::Forward => {
                return self.inner.read_at(offset, buf);
            },
            ReadStart::Stitch(stitch) => stitch,
        };
        let ghost begun = stitch@;
        while stitch.wanted().is_some()
            invariant
                was == old(self)@,
                buf0 == old(buf)@,
                !bad_block_size(was.block_size),
                read_plan(
                    offset,
                    buf0.len(),
                    was.device.size(),
                    was.block_size,
                    was.capacity,
                ) matches ReadPlan::Blocks { first, last } && begun == stitch_of(
                    offset,
                    buf0.len(),
                    was.block_size,
                    first,
                    last,
                ),
                (*self).wf(),
                self@.block_size == was.block_size,
                self@.device.size() == was.device.size(),
                stitch.wf(),
                stitch@.want == buf@.len(),
                buf@.len() == buf0.len(),
                forall|r: Result<(), Error>, out: Seq<u8>, post: CacheView<D>|
                    stitch_step(self@, stitch@, buf@, r, out, post) ==> #[trigger] stitch_step(
                        was,
                        begun,
                        buf0,
                        r,
                        out,
                        post,
                    ),
            decreases stitch@.last + 1 - stitch@.index,
        {
            let start: u64 = match stitch.wanted() {
                Some(start) => start,
                None => 0,
            };
            let ghost before = self@;
            let ghost buf1 = buf@;
            let ghost v = stitch@;
            match self.block(start) {
                Err(e) => {
                    proof {
                        assert(block_step(before, stitch_start(v) as u64, Err(e), self@));
                        assert(stitch_step(before, v, buf1, Err(e), buf@, self@));
                    }
                    return Err(e);
                },
                Ok(block) => {
                    stitch.give(buf, &block);
                    proof {
                        assert(block_step(before, stitch_start(v) as u64, Ok(block@), self@));
                        assert forall|r: Result<(), Error>, out: Seq<u8>, post: CacheView<D>|
                            stitch_step(
                                self@,
                                stitch@,
                                buf@,
                                r,
                                out,
                                post,
                            ) implies #[trigger] stitch_step(was, begun, buf0, r, out, post) by {
                            assert(stitch_step(before, v, buf1, r, out, post));
                        }
                    }
                },
            }
        }
        let r = stitch.finish();
        assert(stitch_step(self@, stitch@, buf@, r, buf@, self@));
        r
    }

    fn size_bytes(&self) -> (r: u64) {
        self.inner.size_bytes()
    }
}

impl<D: BlockDevice> BlockDevice for CachingDevice<D> {
    open spec fn writable(&self) -> bool {
        self@.has_writer && self@.device.writable()
    }

    open spec fn growable(&self) -> bool {
        self@.has_writer && self@.device.growable()
    }

    open spec fn write_step(
        pre: &Self,
        offset: u64,
        data: Seq<u8>,
        r: Result<(), Error>,
        post: &Self,
    ) -> bool {
        cache_write_step(pre@, offset, data, r, post@)
    }

    open spec fn flush_step(pre: &Self, r: Result<(), Error>, post: &Self) -> bool {
        if pre@.has_writer {
            &&& D::flush_step(&pre@.device, r, &post@.device)
            &&& post@ == CacheView { device: post@.device, ..pre@ }
        } else {
            r == Ok::<(), Error>(()) && post@ == pre@
        }
    }

    open spec fn set_len_step(pre: &Self, new_len: u64, r: Result<(), Error>, post: &Self) -> bool {
        cache_set_len_step(pre@, new_len, r, post@)
    }

    open spec fn same_store(pre: &Self, post: &Self) -> bool {
        if pre@.has_writer {
            D::same_store(&pre@.device, &post@.device)
        } else {
            post@ == pre@
        }
    }

    fn write_at(&mut self, offset: u64, buf: &[u8]) -> (r: Result<(), Error>) {
        check_cached_write(self.has_writer, self.block_size)?;
        let end: u64 = write_sweep_end(offset, buf.len());
        self.state.invalidate_range(offset, end, self.block_size);
        let result = self.inner.write_at(offset, buf);
        self.state.invalidate_range(offset, end, self.block_size);
        proof {
            lemma_sweeps_shorten(old(self)@.cache, offset, end, self@.block_size);
        }
        result
    }

    fn flush(&mut self) -> (r: Result<(), Error>) {
        if self.has_writer {
            self.inner.flush()
        } else {
            Ok(())
        }
    }

    fn is_writable(&self) -> (r: bool) {
        self.has_writer && self.inner.is_writable()
    }

    fn set_len(&mut self, new_len: u64) -> (r: Result<(), Error>) {
        if !self.has_writer {
            return Err(Error::ReadOnly);
        }
        let from: u64 = resize_sweep_start(self.inner.size_bytes(), new_len);
        self.state.invalidate_range(from, u64::MAX, self.block_size);
        let result = self.inner.set_len(new_len);
        self.state.invalidate_range(from, u64::MAX, self.block_size);
        proof {
            lemma_sweeps_shorten(old(self)@.cache, from, u64::MAX, self@.block_size);
        }
        result
    }

    fn can_grow(&self) -> (r: bool) {
        self.has_writer && self.inner.can_grow()
    }
}

} // verus!
