//! Readers and writers that share one cache.
//!
//! Each reader looks up, reads the device and completes, each writer sweeps, writes the device
//! and sweeps again, and the steps of all of them come in any order. A [`Scene`] is what stands
//! between two steps; what holds in every scene holds of every race.
use crate::cache_laws::block_bytes;
use crate::cache_state::{
    after_clear, after_fetch, after_hit, after_miss, after_sweep, being_fetched, bumped,
    holds_a_fetch, must_wait, outside, untouched_by, CacheModel,
};
use crate::caching_device::{block_len, saturated};
use crate::content::differs_only_in;
use crate::lru::{held, lemma_filter_members, lemma_held_entry, picked, without};
use vstd::prelude::*;

verus! {

/// A read of the device that has not been handed to the cache yet.
pub struct PendingFetch {
    pub block: u64,
    /// The generation that the miss was told.
    pub generation: u64,
    /// How many invalidations there had been.
    pub epoch: nat,
    /// What the device gave, once it has been read.
    pub data: Option<Seq<u8>>,
}

/// A write that has swept the cache once, and not yet twice.
pub struct PendingWrite {
    pub offset: u64,
    pub len: nat,
    /// Whether the device has taken any of it.
    pub written: bool,
}

/// A cache, its device, and what is under way.
pub struct Scene {
    pub cache: CacheModel,
    pub device: Seq<u8>,
    pub fetches: Seq<PendingFetch>,
    pub writes: Seq<PendingWrite>,
    /// How many invalidations there have been.
    pub epoch: nat,
}

/// The end of a write.
pub open spec fn write_end(w: PendingWrite) -> u64 {
    saturated(w.offset + w.len) as u64
}

/// Whether a write that the device has taken any of, and that has not returned, may have written
/// the byte at `p`.
pub open spec fn being_written(s: Scene, p: int) -> bool {
    exists|j: int|
        0 <= j < s.writes.len() && (#[trigger] s.writes[j]).written && s.writes[j].offset <= p
            < s.writes[j].offset + s.writes[j].len
}

/// The bytes of a block are the device's, but where a write that has not returned wrote.
pub open spec fn fresh(s: Scene, block: u64, data: Seq<u8>, block_size: u64) -> bool {
    &&& block < s.device.len()
    &&& data.len() == block_len(block as int, block_size, s.device.len() as u64)
    &&& forall|i: int|
        0 <= i < data.len() && !being_written(s, block + i) ==> #[trigger] data[i]
            == s.device[block + i]
}

/// What holds in every scene: what is cached is fresh, and so is what a fetch would put there.
pub open spec fn scene_ok(s: Scene, block_size: u64) -> bool {
    &&& block_size > 0
    &&& s.device.len() <= u64::MAX
    &&& s.cache.generation == s.epoch % 0x1_0000_0000_0000_0000
    &&& forall|k: int|
        0 <= k < s.cache.entries.len() ==> fresh(
            s,
            (#[trigger] s.cache.entries[k]).0,
            s.cache.entries[k].1,
            block_size,
        )
    &&& forall|i: int|
        0 <= i < s.fetches.len() ==> {
            &&& (#[trigger] s.fetches[i]).epoch <= s.epoch
            &&& s.fetches[i].generation == s.fetches[i].epoch % 0x1_0000_0000_0000_0000
            &&& s.epoch - s.fetches[i].epoch < 0x1_0000_0000_0000_0000
            &&& s.fetches[i].epoch == s.epoch && s.fetches[i].data is Some ==> fresh(
                s,
                s.fetches[i].block,
                s.fetches[i].data->0,
                block_size,
            )
        }
}

/// No fetch is overtaken by more invalidations than the generation can count.
pub open spec fn countable(s: Scene) -> bool {
    forall|i: int|
        0 <= i < s.fetches.len() ==> s.epoch - (#[trigger] s.fetches[i]).epoch
            < 0xffff_ffff_ffff_ffff
}

/// A cached block is served.
pub open spec fn serve_step(pre: Scene, post: Scene, block: u64) -> bool {
    &&& held(pre.cache.entries, block)
    &&& post == Scene { cache: after_hit(pre.cache, block), ..pre }
}

/// A reader misses, and is told to fetch.
pub open spec fn miss_step(pre: Scene, post: Scene, block: u64, reader: u64) -> bool {
    &&& !held(pre.cache.entries, block)
    &&& !must_wait(pre.cache, block, reader)
    &&& block < pre.device.len()
    &&& post == Scene {
        cache: after_miss(pre.cache, block, reader),
        fetches: pre.fetches.push(
            PendingFetch {
                block,
                generation: pre.cache.generation,
                epoch: pre.epoch,
                data: None,
            },
        ),
        ..pre
    }
}

/// The device is read for a fetch.
pub open spec fn read_step(pre: Scene, post: Scene, i: int, block_size: u64) -> bool {
    &&& 0 <= i < pre.fetches.len()
    &&& pre.fetches[i].block < pre.device.len()
    &&& post == Scene {
        fetches: pre.fetches.update(
            i,
            PendingFetch {
                data: Some(
                    block_bytes(pre.device, pre.fetches[i].block as int, block_size),
                ),
                ..pre.fetches[i]
            },
        ),
        ..pre
    }
}

/// A fetch is handed to the cache.
pub open spec fn complete_step(pre: Scene, post: Scene, i: int, capacity: nat) -> bool {
    &&& 0 <= i < pre.fetches.len()
    &&& pre.fetches[i].data is Some
    &&& post == Scene {
        cache: after_fetch(
            pre.cache,
            pre.fetches[i].block,
            pre.fetches[i].data->0,
            pre.fetches[i].generation,
            capacity,
        ),
        fetches: pre.fetches.remove(i),
        ..pre
    }
}

/// A fetch is given up, or its marker is cleared.
pub open spec fn release_step(pre: Scene, post: Scene, i: int, in_flight: Seq<(u64, u64)>) -> bool {
    ||| post == Scene { cache: CacheModel { in_flight, ..pre.cache }, ..pre }
    ||| 0 <= i < pre.fetches.len() && post == Scene { fetches: pre.fetches.remove(i), ..pre }
}

/// A write begins: it sweeps the cache.
pub open spec fn begin_write_step(
    pre: Scene,
    post: Scene,
    offset: u64,
    len: nat,
    block_size: u64,
) -> bool {
    let w = PendingWrite { offset, len, written: false };
    &&& countable(pre)
    &&& post == Scene {
        cache: after_sweep(pre.cache, offset, write_end(w), block_size),
        writes: pre.writes.push(w),
        epoch: pre.epoch + 1,
        ..pre
    }
}

/// The device takes a write, or a part of it: no byte outside its range changes. A write may be
/// taken in several such steps, or in none.
pub open spec fn device_write_step(pre: Scene, post: Scene, j: int, after: Seq<u8>) -> bool {
    &&& 0 <= j < pre.writes.len()
    &&& differs_only_in(
        pre.device,
        after,
        pre.writes[j].offset as int,
        pre.writes[j].offset + pre.writes[j].len,
    )
    &&& post == Scene {
        device: after,
        writes: pre.writes.update(j, PendingWrite { written: true, ..pre.writes[j] }),
        ..pre
    }
}

/// A write returns: it has swept the cache again, whether or not the device took it.
pub open spec fn end_write_step(pre: Scene, post: Scene, j: int, block_size: u64) -> bool {
    &&& 0 <= j < pre.writes.len()
    &&& countable(pre)
    &&& post == Scene {
        cache: after_sweep(
            pre.cache,
            pre.writes[j].offset,
            write_end(pre.writes[j]),
            block_size,
        ),
        writes: pre.writes.remove(j),
        epoch: pre.epoch + 1,
        ..pre
    }
}

/// The whole cache is dropped.
pub open spec fn drop_all_step(pre: Scene, post: Scene) -> bool {
    &&& countable(pre)
    &&& post == Scene { cache: after_clear(pre.cache), epoch: pre.epoch + 1, ..pre }
}

/// One step of one of them.
pub enum Move {
    Serve { block: u64 },
    Miss { block: u64, reader: u64 },
    Read { i: int },
    Complete { i: int },
    Release { i: int, in_flight: Seq<(u64, u64)> },
    BeginWrite { offset: u64, len: nat },
    DeviceWrite { j: int, after: Seq<u8> },
    EndWrite { j: int },
    DropAll,
}

/// What a step does, in a cache of `capacity` blocks of `block_size` bytes.
pub open spec fn moves(pre: Scene, post: Scene, step: Move, block_size: u64, capacity: nat) -> bool {
    match step {
        Move::Serve { block } => serve_step(pre, post, block),
        Move::Miss { block, reader } => miss_step(pre, post, block, reader),
        Move::Read { i } => read_step(pre, post, i, block_size),
        Move::Complete { i } => complete_step(pre, post, i, capacity),
        Move::Release { i, in_flight } => release_step(pre, post, i, in_flight),
        Move::BeginWrite { offset, len } => begin_write_step(pre, post, offset, len, block_size),
        Move::DeviceWrite { j, after } => device_write_step(pre, post, j, after),
        Move::EndWrite { j } => end_write_step(pre, post, j, block_size),
        Move::DropAll => drop_all_step(pre, post),
    }
}

proof fn lemma_bump(epoch: nat)
    ensures
        bumped((epoch % 0x1_0000_0000_0000_0000) as u64) == (epoch + 1) % 0x1_0000_0000_0000_0000,
{
}

proof fn lemma_entries_stay_fresh(
    pre: Scene,
    post: Scene,
    keep: spec_fn((u64, Seq<u8>)) -> bool,
    block_size: u64,
)
    requires
        scene_ok(pre, block_size),
        post.device == pre.device,
        post.cache.entries == pre.cache.entries.filter(keep),
        forall|p: int| being_written(pre, p) ==> being_written(post, p),
    ensures
        forall|k: int|
            0 <= k < post.cache.entries.len() ==> fresh(
                post,
                (#[trigger] post.cache.entries[k]).0,
                post.cache.entries[k].1,
                block_size,
            ),
{
    lemma_filter_members(pre.cache.entries, keep);
    assert forall|k: int| 0 <= k < post.cache.entries.len() implies fresh(
        post,
        (#[trigger] post.cache.entries[k]).0,
        post.cache.entries[k].1,
        block_size,
    ) by {
        let i = choose|i: int|
            0 <= i < pre.cache.entries.len() && #[trigger] pre.cache.entries[i]
                == post.cache.entries[k];
        assert(fresh(pre, pre.cache.entries[i].0, pre.cache.entries[i].1, block_size));
    }
}

/// Every step keeps what holds in every scene.
pub proof fn steps_keep_the_scene(
    pre: Scene,
    post: Scene,
    step: Move,
    block_size: u64,
    capacity: nat,
)
    requires
        scene_ok(pre, block_size),
        moves(pre, post, step, block_size, capacity),
    ensures
        scene_ok(post, block_size),
{
    lemma_bump(pre.epoch);
    match step {
        Move::Serve { block } => {
            lemma_serve(pre, post, block, block_size);
        },
        Move::Miss { block, reader } => {
            lemma_miss(pre, post, block, reader, block_size);
        },
        Move::Read { i } => {
            lemma_read(pre, post, i, block_size);
        },
        Move::Complete { i } => {
            lemma_complete(pre, post, i, block_size, capacity);
        },
        Move::Release { i, in_flight } => {
            lemma_release(pre, post, i, in_flight, block_size);
        },
        Move::BeginWrite { offset, len } => {
            lemma_begin_write(pre, post, offset, len, block_size);
        },
        Move::DeviceWrite { j, after } => {
            lemma_device_write(pre, post, j, after, block_size);
        },
        Move::EndWrite { j } => {
            lemma_end_write(pre, post, j, block_size);
        },
        Move::DropAll => {
            assert forall|i: int| 0 <= i < post.fetches.len() implies (
            #[trigger] post.fetches[i]).epoch < post.epoch && post.epoch - post.fetches[i].epoch
                < 0x1_0000_0000_0000_0000 by {
                assert(pre.fetches[i].epoch <= pre.epoch);
            }
        },
    }
}

/// Scenes that agree on the device and on what is being written agree on what is fresh.
proof fn lemma_fresh_same(pre: Scene, post: Scene, block: u64, data: Seq<u8>, block_size: u64)
    requires
        fresh(pre, block, data, block_size),
        post.device == pre.device,
        post.writes == pre.writes,
    ensures
        fresh(post, block, data, block_size),
{
    assert forall|i: int|
        0 <= i < data.len() && !being_written(post, block + i) implies #[trigger] data[i]
        == post.device[block + i] by {
        if being_written(pre, block + i) {
            let j = choose|j: int|
                0 <= j < pre.writes.len() && (#[trigger] pre.writes[j]).written
                    && pre.writes[j].offset <= block + i < pre.writes[j].offset
                    + pre.writes[j].len;
            assert(post.writes[j].written);
        }
    }
}

proof fn lemma_serve(pre: Scene, post: Scene, block: u64, block_size: u64)
    requires
        scene_ok(pre, block_size),
        serve_step(pre, post, block),
    ensures
        scene_ok(post, block_size),
{
    let entries = pre.cache.entries;
    let rest = without(entries, block);
    lemma_filter_members(entries, crate::lru::other_than(block));
    assert forall|k: int| 0 <= k < post.cache.entries.len() implies fresh(
        post,
        (#[trigger] post.cache.entries[k]).0,
        post.cache.entries[k].1,
        block_size,
    ) by {
        if k == 0 {
            let h = lemma_held_entry(entries, block);
            assert(post.cache.entries[0] == (block, entries[h].1));
            lemma_fresh_same(pre, post, entries[h].0, entries[h].1, block_size);
        } else {
            assert(post.cache.entries[k] == rest[k - 1]);
            let h = choose|h: int| 0 <= h < entries.len() && #[trigger] entries[h] == rest[k - 1];
            lemma_fresh_same(pre, post, entries[h].0, entries[h].1, block_size);
        }
    }
    lemma_fetches_same(pre, post, block_size);
}

/// Fetches stay as they are where the device, the writes and the epoch do.
proof fn lemma_fetches_same(pre: Scene, post: Scene, block_size: u64)
    requires
        scene_ok(pre, block_size),
        post.device == pre.device,
        post.writes == pre.writes,
        post.epoch == pre.epoch,
        post.fetches == pre.fetches,
    ensures
        forall|i: int|
            0 <= i < post.fetches.len() ==> {
                &&& (#[trigger] post.fetches[i]).epoch <= post.epoch
                &&& post.fetches[i].generation == post.fetches[i].epoch
                    % 0x1_0000_0000_0000_0000
                &&& post.epoch - post.fetches[i].epoch < 0x1_0000_0000_0000_0000
                &&& post.fetches[i].epoch == post.epoch && post.fetches[i].data is Some ==> fresh(
                    post,
                    post.fetches[i].block,
                    post.fetches[i].data->0,
                    block_size,
                )
            },
{
    assert forall|i: int|
        0 <= i < post.fetches.len() && (#[trigger] post.fetches[i]).epoch == post.epoch
            && post.fetches[i].data is Some implies fresh(
        post,
        post.fetches[i].block,
        post.fetches[i].data->0,
        block_size,
    ) by {
        lemma_fresh_same(
            pre,
            post,
            pre.fetches[i].block,
            pre.fetches[i].data->0,
            block_size,
        );
    }
}

/// Entries stay fresh where the device and the writes stay.
proof fn lemma_entries_same(pre: Scene, post: Scene, block_size: u64)
    requires
        scene_ok(pre, block_size),
        post.device == pre.device,
        post.writes == pre.writes,
        post.cache.entries == pre.cache.entries,
    ensures
        forall|k: int|
            0 <= k < post.cache.entries.len() ==> fresh(
                post,
                (#[trigger] post.cache.entries[k]).0,
                post.cache.entries[k].1,
                block_size,
            ),
{
    assert forall|k: int| 0 <= k < post.cache.entries.len() implies fresh(
        post,
        (#[trigger] post.cache.entries[k]).0,
        post.cache.entries[k].1,
        block_size,
    ) by {
        lemma_fresh_same(
            pre,
            post,
            pre.cache.entries[k].0,
            pre.cache.entries[k].1,
            block_size,
        );
    }
}

proof fn lemma_miss(pre: Scene, post: Scene, block: u64, reader: u64, block_size: u64)
    requires
        scene_ok(pre, block_size),
        miss_step(pre, post, block, reader),
    ensures
        scene_ok(post, block_size),
{
    lemma_entries_same(pre, post, block_size);
    lemma_fetches_same(pre, Scene { fetches: pre.fetches, ..post }, block_size);
    assert forall|i: int| 0 <= i < post.fetches.len() implies {
        &&& (#[trigger] post.fetches[i]).epoch <= post.epoch
        &&& post.fetches[i].generation == post.fetches[i].epoch % 0x1_0000_0000_0000_0000
        &&& post.epoch - post.fetches[i].epoch < 0x1_0000_0000_0000_0000
        &&& post.fetches[i].epoch == post.epoch && post.fetches[i].data is Some ==> fresh(
            post,
            post.fetches[i].block,
            post.fetches[i].data->0,
            block_size,
        )
    } by {
        if i < pre.fetches.len() {
            assert(post.fetches[i] == pre.fetches[i]);
            if post.fetches[i].epoch == post.epoch && post.fetches[i].data is Some {
                lemma_fresh_same(
                    pre,
                    post,
                    pre.fetches[i].block,
                    pre.fetches[i].data->0,
                    block_size,
                );
            }
        }
    }
}

proof fn lemma_read(pre: Scene, post: Scene, i: int, block_size: u64)
    requires
        scene_ok(pre, block_size),
        read_step(pre, post, i, block_size),
    ensures
        scene_ok(post, block_size),
{
    lemma_entries_same(pre, post, block_size);
    assert forall|k: int| 0 <= k < post.fetches.len() implies {
        &&& (#[trigger] post.fetches[k]).epoch <= post.epoch
        &&& post.fetches[k].generation == post.fetches[k].epoch % 0x1_0000_0000_0000_0000
        &&& post.epoch - post.fetches[k].epoch < 0x1_0000_0000_0000_0000
        &&& post.fetches[k].epoch == post.epoch && post.fetches[k].data is Some ==> fresh(
            post,
            post.fetches[k].block,
            post.fetches[k].data->0,
            block_size,
        )
    } by {
        assert(pre.fetches[k].epoch <= pre.epoch);
        if k == i {
            let block = pre.fetches[i].block;
            let data = block_bytes(pre.device, block as int, block_size);
            assert(post.fetches[k].data->0 == data);
            assert forall|q: int|
                0 <= q < data.len() && !being_written(post, block + q) implies #[trigger] data[q]
                == post.device[block + q] by {}
        } else {
            assert(post.fetches[k] == pre.fetches[k]);
            if post.fetches[k].epoch == post.epoch && post.fetches[k].data is Some {
                lemma_fresh_same(
                    pre,
                    post,
                    pre.fetches[k].block,
                    pre.fetches[k].data->0,
                    block_size,
                );
            }
        }
    }
}

/// What taking one fetch out leaves of the others.
proof fn lemma_fetches_fewer(pre: Scene, post: Scene, i: int, block_size: u64)
    requires
        scene_ok(pre, block_size),
        0 <= i < pre.fetches.len(),
        post.device == pre.device,
        post.writes == pre.writes,
        post.epoch == pre.epoch,
        post.fetches == pre.fetches.remove(i),
    ensures
        forall|k: int|
            0 <= k < post.fetches.len() ==> {
                &&& (#[trigger] post.fetches[k]).epoch <= post.epoch
                &&& post.fetches[k].generation == post.fetches[k].epoch
                    % 0x1_0000_0000_0000_0000
                &&& post.epoch - post.fetches[k].epoch < 0x1_0000_0000_0000_0000
                &&& post.fetches[k].epoch == post.epoch && post.fetches[k].data is Some ==> fresh(
                    post,
                    post.fetches[k].block,
                    post.fetches[k].data->0,
                    block_size,
                )
            },
{
    assert forall|k: int| 0 <= k < post.fetches.len() implies {
        &&& (#[trigger] post.fetches[k]).epoch <= post.epoch
        &&& post.fetches[k].generation == post.fetches[k].epoch % 0x1_0000_0000_0000_0000
        &&& post.epoch - post.fetches[k].epoch < 0x1_0000_0000_0000_0000
        &&& post.fetches[k].epoch == post.epoch && post.fetches[k].data is Some ==> fresh(
            post,
            post.fetches[k].block,
            post.fetches[k].data->0,
            block_size,
        )
    } by {
        let p = if k < i {
            k
        } else {
            k + 1
        };
        assert(post.fetches[k] == pre.fetches[p]);
        if pre.fetches[p].epoch == pre.epoch && pre.fetches[p].data is Some {
            lemma_fresh_same(
                pre,
                post,
                pre.fetches[p].block,
                pre.fetches[p].data->0,
                block_size,
            );
        }
    }
}

proof fn lemma_complete(pre: Scene, post: Scene, i: int, block_size: u64, capacity: nat)
    requires
        scene_ok(pre, block_size),
        complete_step(pre, post, i, capacity),
    ensures
        scene_ok(post, block_size),
{
    let f = pre.fetches[i];
    let entries = pre.cache.entries;
    let rest = without(entries, f.block);
    lemma_fetches_fewer(pre, post, i, block_size);
    lemma_filter_members(entries, crate::lru::other_than(f.block));
    if held(entries, f.block) || pre.cache.generation == f.generation {
        assert forall|k: int| 0 <= k < post.cache.entries.len() implies fresh(
            post,
            (#[trigger] post.cache.entries[k]).0,
            post.cache.entries[k].1,
            block_size,
        ) by {
            if k == 0 {
                if held(entries, f.block) {
                    let h = lemma_held_entry(entries, f.block);
                    assert(post.cache.entries[0] == (f.block, entries[h].1));
                    lemma_fresh_same(pre, post, entries[h].0, entries[h].1, block_size);
                } else {
                    assert(f.epoch == pre.epoch) by {
                        assert(f.epoch % 0x1_0000_0000_0000_0000 == pre.epoch
                            % 0x1_0000_0000_0000_0000);
                        assert(pre.epoch - f.epoch < 0x1_0000_0000_0000_0000);
                    }
                    assert(post.cache.entries[0] == (f.block, f.data->0));
                    lemma_fresh_same(pre, post, f.block, f.data->0, block_size);
                }
            } else {
                assert(post.cache.entries[k] == rest[k - 1]);
                let h = choose|h: int|
                    0 <= h < entries.len() && #[trigger] entries[h] == rest[k - 1];
                lemma_fresh_same(pre, post, entries[h].0, entries[h].1, block_size);
            }
        }
    } else {
        lemma_entries_same(pre, post, block_size);
    }
}

proof fn lemma_release(
    pre: Scene,
    post: Scene,
    i: int,
    in_flight: Seq<(u64, u64)>,
    block_size: u64,
)
    requires
        scene_ok(pre, block_size),
        release_step(pre, post, i, in_flight),
    ensures
        scene_ok(post, block_size),
{
    lemma_entries_same(pre, post, block_size);
    if 0 <= i < pre.fetches.len() && post.fetches == pre.fetches.remove(i) {
        lemma_fetches_fewer(pre, post, i, block_size);
    } else {
        lemma_fetches_same(pre, post, block_size);
    }
}

proof fn lemma_begin_write(
    pre: Scene,
    post: Scene,
    offset: u64,
    len: nat,
    block_size: u64,
)
    requires
        scene_ok(pre, block_size),
        begin_write_step(pre, post, offset, len, block_size),
    ensures
        scene_ok(post, block_size),
{
    lemma_bump(pre.epoch);
    let w = PendingWrite { offset, len, written: false };
    assert forall|p: int| being_written(pre, p) implies being_written(post, p) by {
        let j = choose|j: int|
            0 <= j < pre.writes.len() && (#[trigger] pre.writes[j]).written && pre.writes[j].offset
                <= p < pre.writes[j].offset + pre.writes[j].len;
        assert(post.writes[j] == pre.writes[j]);
    }
    lemma_entries_stay_fresh(
        pre,
        post,
        picked(outside(offset, write_end(w), block_size)),
        block_size,
    );
    assert forall|i: int| 0 <= i < post.fetches.len() implies (#[trigger] post.fetches[i]).epoch
        < post.epoch && post.epoch - post.fetches[i].epoch < 0x1_0000_0000_0000_0000 by {
        assert(pre.fetches[i].epoch <= pre.epoch);
    }
}

/// What was fresh before the device took a write is fresh after it.
proof fn lemma_fresh_over_write(
    pre: Scene,
    post: Scene,
    j: int,
    after: Seq<u8>,
    block: u64,
    data: Seq<u8>,
    block_size: u64,
)
    requires
        device_write_step(pre, post, j, after),
        fresh(pre, block, data, block_size),
    ensures
        fresh(post, block, data, block_size),
{
    assert forall|i: int|
        0 <= i < data.len() && !being_written(post, block + i) implies #[trigger] data[i]
        == post.device[block + i] by {
        assert(post.writes[j].written);
        assert(!(pre.writes[j].offset <= block + i < pre.writes[j].offset
            + pre.writes[j].len));
        if being_written(pre, block + i) {
            let q = choose|q: int|
                0 <= q < pre.writes.len() && (#[trigger] pre.writes[q]).written
                    && pre.writes[q].offset <= block + i < pre.writes[q].offset
                    + pre.writes[q].len;
            assert(post.writes[q].written);
        }
    }
}

proof fn lemma_device_write(pre: Scene, post: Scene, j: int, after: Seq<u8>, block_size: u64)
    requires
        scene_ok(pre, block_size),
        device_write_step(pre, post, j, after),
    ensures
        scene_ok(post, block_size),
{
    assert forall|k: int| 0 <= k < post.cache.entries.len() implies fresh(
        post,
        (#[trigger] post.cache.entries[k]).0,
        post.cache.entries[k].1,
        block_size,
    ) by {
        lemma_fresh_over_write(
            pre,
            post,
            j,
            after,
            pre.cache.entries[k].0,
            pre.cache.entries[k].1,
            block_size,
        );
    }
    assert forall|i: int| 0 <= i < post.fetches.len() implies {
        &&& (#[trigger] post.fetches[i]).epoch <= post.epoch
        &&& post.fetches[i].generation == post.fetches[i].epoch % 0x1_0000_0000_0000_0000
        &&& post.epoch - post.fetches[i].epoch < 0x1_0000_0000_0000_0000
        &&& post.fetches[i].epoch == post.epoch && post.fetches[i].data is Some ==> fresh(
            post,
            post.fetches[i].block,
            post.fetches[i].data->0,
            block_size,
        )
    } by {
        assert(pre.fetches[i].epoch <= pre.epoch);
        if pre.fetches[i].epoch == pre.epoch && pre.fetches[i].data is Some {
            lemma_fresh_over_write(
                pre,
                post,
                j,
                after,
                pre.fetches[i].block,
                pre.fetches[i].data->0,
                block_size,
            );
        }
    }
}

proof fn lemma_end_write(pre: Scene, post: Scene, j: int, block_size: u64)
    requires
        scene_ok(pre, block_size),
        end_write_step(pre, post, j, block_size),
    ensures
        scene_ok(post, block_size),
{
    lemma_bump(pre.epoch);
    let w = pre.writes[j];
    let keep = picked(outside(w.offset, write_end(w), block_size));
    lemma_filter_members(pre.cache.entries, keep);
    assert forall|k: int| 0 <= k < post.cache.entries.len() implies fresh(
        post,
        (#[trigger] post.cache.entries[k]).0,
        post.cache.entries[k].1,
        block_size,
    ) by {
        let e = post.cache.entries[k];
        let h = choose|h: int|
            0 <= h < pre.cache.entries.len() && #[trigger] pre.cache.entries[h] == e;
        assert(keep(e));
        assert(untouched_by(e.0, w.offset, write_end(w), block_size));
        assert(fresh(pre, pre.cache.entries[h].0, pre.cache.entries[h].1, block_size));
        assert forall|i: int|
            0 <= i < e.1.len() && !being_written(post, e.0 + i) implies #[trigger] e.1[i]
            == post.device[e.0 + i] by {
            if being_written(pre, e.0 + i) {
                let q = choose|q: int|
                    0 <= q < pre.writes.len() && (#[trigger] pre.writes[q]).written
                        && pre.writes[q].offset <= e.0 + i < pre.writes[q].offset
                        + pre.writes[q].len;
                if q != j {
                    let m = if q < j {
                        q
                    } else {
                        q - 1
                    };
                    assert(post.writes[m] == pre.writes[q]);
                }
            }
        }
    }
    assert forall|i: int| 0 <= i < post.fetches.len() implies (#[trigger] post.fetches[i]).epoch
        < post.epoch && post.epoch - post.fetches[i].epoch < 0x1_0000_0000_0000_0000 by {
        assert(pre.fetches[i].epoch <= pre.epoch);
    }
}

/// A race: scenes, each a step after the one before.
pub open spec fn is_race(
    scenes: Seq<Scene>,
    steps: Seq<Move>,
    block_size: u64,
    capacity: nat,
) -> bool {
    &&& scenes.len() == steps.len() + 1
    &&& forall|n: int|
        0 <= n < steps.len() ==> moves(
            scenes[n],
            scenes[n + 1],
            #[trigger] steps[n],
            block_size,
            capacity,
        )
}

/// However the steps of readers and writers fall, what is cached is the device's bytes, but
/// where a write that has not returned wrote: once a write has returned, no later read is served
/// the bytes that were there before it, not even by a read that was under way when it began, and
/// not even if the device took only a part of it.
pub proof fn no_race_leaves_stale_bytes(
    scenes: Seq<Scene>,
    steps: Seq<Move>,
    block_size: u64,
    capacity: nat,
)
    requires
        is_race(scenes, steps, block_size, capacity),
        scene_ok(scenes[0], block_size),
    ensures
        scene_ok(scenes.last(), block_size),
        scenes.last().writes.len() == 0 ==> forall|k: int|
            0 <= k < scenes.last().cache.entries.len() ==> (
            #[trigger] scenes.last().cache.entries[k]).1 == block_bytes(
                scenes.last().device,
                scenes.last().cache.entries[k].0 as int,
                block_size,
            ),
    decreases steps.len(),
{
    if steps.len() > 0 {
        let n = steps.len() - 1;
        let head = scenes.drop_last();
        let first = steps.drop_last();
        assert forall|m: int| 0 <= m < first.len() implies moves(
            head[m],
            head[m + 1],
            #[trigger] first[m],
            block_size,
            capacity,
        ) by {
            assert(first[m] == steps[m]);
            assert(moves(scenes[m], scenes[m + 1], steps[m], block_size, capacity));
        }
        assert(head[0] == scenes[0]);
        no_race_leaves_stale_bytes(head, first, block_size, capacity);
        assert(head.last() == scenes[n]);
        assert(moves(scenes[n], scenes[n + 1], steps[n], block_size, capacity));
        steps_keep_the_scene(scenes[n], scenes[n + 1], steps[n], block_size, capacity);
    }
    let s = scenes.last();
    if s.writes.len() == 0 {
        assert forall|k: int| 0 <= k < s.cache.entries.len() implies (
        #[trigger] s.cache.entries[k]).1 == block_bytes(
            s.device,
            s.cache.entries[k].0 as int,
            block_size,
        ) by {
            let e = s.cache.entries[k];
            assert(fresh(s, e.0, e.1, block_size));
            assert forall|p: int| !being_written(s, p) by {}
            assert(e.1 =~= block_bytes(s.device, e.0 as int, block_size));
        }
    }
}

/// An empty cache over a device, with nothing under way.
pub proof fn an_empty_cache_begins_a_race(cache: CacheModel, device: Seq<u8>, block_size: u64)
    requires
        cache.entries.len() == 0,
        cache.generation == 0,
        block_size > 0,
        device.len() <= u64::MAX,
    ensures
        scene_ok(
            Scene { cache, device, fetches: Seq::empty(), writes: Seq::empty(), epoch: 0 },
            block_size,
        ),
{
}

/// A reader that holds no fetch is told to fetch a block only where no one is fetching it: so
/// readers that do not re-enter the cache never read one block of the device twice at a time.
pub proof fn a_free_reader_fetches_alone(m: CacheModel, block: u64, reader: u64)
    requires
        !held(m.entries, block),
        !must_wait(m, block, reader),
        !holds_a_fetch(m.in_flight, reader),
    ensures
        !being_fetched(m.in_flight, block),
        forall|i: int, j: int|
            0 <= i < after_miss(m, block, reader).in_flight.len() && 0 <= j < after_miss(
                m,
                block,
                reader,
            ).in_flight.len() && (#[trigger] after_miss(m, block, reader).in_flight[i]).0 == block
                && (#[trigger] after_miss(m, block, reader).in_flight[j]).0 == block ==> i == j,
{
    let marked = after_miss(m, block, reader).in_flight;
    assert forall|i: int| 0 <= i < m.in_flight.len() implies (#[trigger] marked[i]).0 != block by {
        assert(marked[i] == m.in_flight[i]);
    }
}

} // verus!
