//! What a block cache remembers, and the decisions it makes between device reads.
//!
//! A reader asks [`CacheState::lookup`] for a block. It is told the bytes, told to wait for the
//! reader that is already fetching them, or told to fetch them itself: it then reads the device,
//! hands the bytes to [`CacheState::complete`], and clears its marker with
//! [`CacheState::release`] whether the read succeeded or not. Nothing here blocks or reads a
//! device, so the state can sit behind a lock that is let go during the device read.
use crate::lru::{distinct_blocks, held, held_data, inserted, picked, promoted, Lru};
use std::sync::Arc;
use vstd::prelude::*;

verus! {

/// What a cache remembers.
pub struct CacheModel {
    /// The cached blocks, the most recently used first.
    pub entries: Seq<(u64, Seq<u8>)>,
    pub hits: u64,
    pub misses: u64,
    /// Moved by every invalidation.
    pub generation: u64,
    /// The blocks being read from the device, each with the reader doing it.
    pub in_flight: Seq<(u64, u64)>,
}

/// One more, starting over after the largest number.
pub open spec fn bumped(n: u64) -> u64 {
    if n == u64::MAX {
        0
    } else {
        (n + 1) as u64
    }
}

/// Whether someone is fetching `block`.
pub open spec fn being_fetched(in_flight: Seq<(u64, u64)>, block: u64) -> bool {
    exists|i: int| 0 <= i < in_flight.len() && (#[trigger] in_flight[i]).0 == block
}

/// Whether `reader` is fetching anything.
pub open spec fn holds_a_fetch(in_flight: Seq<(u64, u64)>, reader: u64) -> bool {
    exists|i: int| 0 <= i < in_flight.len() && (#[trigger] in_flight[i]).1 == reader
}

/// The block's entry comes to the front, and a hit is counted.
pub open spec fn after_hit(m: CacheModel, block: u64) -> CacheModel {
    CacheModel { entries: promoted(m.entries, block), hits: bumped(m.hits), ..m }
}

/// A miss is counted, and the fetch is marked.
pub open spec fn after_miss(m: CacheModel, block: u64, reader: u64) -> CacheModel {
    CacheModel { misses: bumped(m.misses), in_flight: m.in_flight.push((block, reader)), ..m }
}

/// A reader waits for a block that someone is fetching, unless it holds a fetch itself.
pub open spec fn must_wait(m: CacheModel, block: u64, reader: u64) -> bool {
    &&& !held(m.entries, block)
    &&& being_fetched(m.in_flight, block)
    &&& !holds_a_fetch(m.in_flight, reader)
}

/// The fetched bytes are kept, unless the block has come in meanwhile or an invalidation has
/// passed since the miss.
pub open spec fn after_fetch(
    m: CacheModel,
    block: u64,
    data: Seq<u8>,
    generation: u64,
    capacity: nat,
) -> CacheModel {
    if held(m.entries, block) {
        CacheModel { entries: promoted(m.entries, block), ..m }
    } else if m.generation == generation {
        CacheModel { entries: inserted(m.entries, block, data, capacity), ..m }
    } else {
        m
    }
}

/// The first marker of `reader` on `block`.
pub open spec fn is_first_marker(
    in_flight: Seq<(u64, u64)>,
    block: u64,
    reader: u64,
    i: int,
) -> bool {
    &&& 0 <= i < in_flight.len()
    &&& in_flight[i] == (block, reader)
    &&& forall|j: int| 0 <= j < i ==> in_flight[j] != (block, reader)
}

/// The markers after `reader` has let go of one fetch of `block`.
pub open spec fn markers_after_release(
    in_flight: Seq<(u64, u64)>,
    block: u64,
    reader: u64,
) -> Seq<(u64, u64)> {
    if in_flight.contains((block, reader)) {
        in_flight.remove(
            choose|i: int| is_first_marker(in_flight, block, reader, i),
        )
    } else {
        in_flight
    }
}

/// A marker that was just set is the one that is cleared, where the reader had none on that
/// block: letting go puts the markers back as they were.
pub proof fn release_undoes_marking(in_flight: Seq<(u64, u64)>, block: u64, reader: u64)
    requires
        !in_flight.contains((block, reader)),
    ensures
        markers_after_release(in_flight.push((block, reader)), block, reader) == in_flight,
{
    let marked = in_flight.push((block, reader));
    let n = in_flight.len() as int;
    assert(marked[n] == (block, reader));
    assert forall|j: int| 0 <= j < n implies marked[j] != (block, reader) by {
        assert(in_flight.contains(in_flight[j]));
    }
    assert(is_first_marker(marked, block, reader, n));
    let c = choose|c: int| is_first_marker(marked, block, reader, c);
    assert(c == n);
    assert(marked.remove(n) =~= in_flight);
}

/// Whether the block at `off` has no byte in `start..end`.
pub open spec fn untouched_by(off: u64, start: u64, end: u64, block_size: u64) -> bool {
    off >= end || (if off + block_size > u64::MAX {
        u64::MAX as int
    } else {
        off + block_size
    }) <= start
}

/// The entries that a change of the bytes `start..end` leaves valid.
pub open spec fn outside(start: u64, end: u64, block_size: u64) -> spec_fn(u64) -> bool {
    |off: u64| untouched_by(off, start, end, block_size)
}

/// Every entry that touches `start..end` is dropped.
pub open spec fn after_sweep(m: CacheModel, start: u64, end: u64, block_size: u64) -> CacheModel {
    CacheModel {
        entries: m.entries.filter(picked(outside(start, end, block_size))),
        generation: bumped(m.generation),
        ..m
    }
}

/// Every entry is dropped.
pub open spec fn after_clear(m: CacheModel) -> CacheModel {
    CacheModel { entries: Seq::empty(), generation: bumped(m.generation), ..m }
}

/// A reader waits exactly for a block that is not cached, that someone is fetching, and while it
/// fetches nothing itself.
pub proof fn who_waits(m: CacheModel, block: u64, reader: u64)
    ensures
        must_wait(m, block, reader) <==> {
            &&& forall|k: int| 0 <= k < m.entries.len() ==> (#[trigger] m.entries[k]).0 != block
            &&& exists|i: int| 0 <= i < m.in_flight.len() && (#[trigger] m.in_flight[i]).0 == block
            &&& forall|i: int|
                0 <= i < m.in_flight.len() ==> (#[trigger] m.in_flight[i]).1 != reader
        },
{
}

/// A miss marks the fetch behind the others and counts one more miss; a hit counts one more hit
/// and marks nothing; dropping everything leaves no entry and the counts. Every invalidation moves
/// the generation, and nothing else does.
pub proof fn what_requests_leave_behind(
    m: CacheModel,
    block: u64,
    reader: u64,
    start: u64,
    end: u64,
    block_size: u64,
)
    ensures
        ({
            let missed = after_miss(m, block, reader);
            &&& missed.in_flight == m.in_flight + seq![(block, reader)]
            &&& m.misses < u64::MAX ==> missed.misses == m.misses + 1
            &&& missed.entries == m.entries && missed.hits == m.hits && missed.generation
                == m.generation
        }),
        ({
            let hit = after_hit(m, block);
            &&& m.hits < u64::MAX ==> hit.hits == m.hits + 1
            &&& hit.in_flight == m.in_flight && hit.misses == m.misses && hit.generation
                == m.generation
        }),
        ({
            let cleared = after_clear(m);
            &&& cleared.entries.len() == 0
            &&& cleared.hits == m.hits && cleared.misses == m.misses && cleared.in_flight
                == m.in_flight
            &&& cleared.generation != m.generation
        }),
        ({
            let swept = after_sweep(m, start, end, block_size);
            &&& swept.hits == m.hits && swept.misses == m.misses && swept.in_flight == m.in_flight
            &&& swept.generation != m.generation
        }),
{
    assert(m.in_flight.push((block, reader)) =~= m.in_flight + seq![(block, reader)]);
}

/// Letting go clears one marker, the reader's first on that block, and leaves the others in their
/// order; a reader that has none there clears nothing.
pub proof fn release_clears_one_marker(
    in_flight: Seq<(u64, u64)>,
    block: u64,
    reader: u64,
    k: int,
)
    requires
        0 <= k <= in_flight.len(),
        k < in_flight.len() ==> in_flight[k] == (block, reader),
        forall|j: int| 0 <= j < k ==> #[trigger] in_flight[j] != (block, reader),
    ensures
        k < in_flight.len() ==> markers_after_release(in_flight, block, reader) == in_flight.take(k)
            + in_flight.skip(k + 1),
        k == in_flight.len() ==> markers_after_release(in_flight, block, reader) == in_flight,
{
    if k < in_flight.len() {
        assert(in_flight.contains((block, reader)));
        assert(is_first_marker(in_flight, block, reader, k));
        let c = choose|c: int| is_first_marker(in_flight, block, reader, c);
        assert(c == k) by {
            if c < k {
                assert(in_flight[c] != (block, reader));
            }
            if k < c {
                assert(in_flight[k] != (block, reader));
            }
        }
        assert(in_flight.remove(k) =~= in_flight.take(k) + in_flight.skip(k + 1));
    }
}

/// Fetched bytes are kept in front exactly if the block is not there and no invalidation has
/// passed; those of a block that came in meanwhile give way to it.
pub proof fn what_becomes_of_fetched_bytes(
    m: CacheModel,
    block: u64,
    data: Seq<u8>,
    generation: u64,
    capacity: nat,
    k: int,
)
    requires
        distinct_blocks(m.entries),
        0 <= k <= m.entries.len(),
        k < m.entries.len() ==> m.entries[k].0 == block,
        k == m.entries.len() ==> forall|i: int|
            0 <= i < m.entries.len() ==> (#[trigger] m.entries[i]).0 != block,
    ensures
        ({
            let after = after_fetch(m, block, data, generation, capacity);
            &&& k < m.entries.len() ==> after.entries == seq![m.entries[k]] + m.entries.take(k)
                + m.entries.skip(k + 1)
            &&& k == m.entries.len() && generation == m.generation && m.entries.len() < capacity
                ==> after.entries == seq![(block, data)] + m.entries
            &&& k == m.entries.len() && generation == m.generation && m.entries.len() >= capacity
                && m.entries.len() > 0 ==> after.entries == seq![(block, data)] + m.entries.take(
                m.entries.len() - 1,
            )
            &&& k == m.entries.len() && generation != m.generation ==> after.entries == m.entries
            &&& after.hits == m.hits && after.misses == m.misses && after.generation
                == m.generation && after.in_flight == m.in_flight
        }),
{
    crate::lru::insertion_evicts_the_least_recent_alone(m.entries, k, block, data, capacity);
    if k < m.entries.len() {
        assert(held(m.entries, block));
        crate::lru::promotion_keeps_the_order(m.entries, k);
    } else {
        assert(!held(m.entries, block));
    }
}

/// What a reader is told to do about a block.
pub enum Lookup {
    /// The bytes are here.
    Hit(Arc<Vec<u8>>),
    /// Another reader is fetching them: wait for a fetch to end, and look again.
    Wait,
    /// Fetch them, and bring this generation back.
    Fetch(u64),
}

/// The cached blocks and the counters.
pub struct CacheState {
    entries: Lru,
    hits: u64,
    misses: u64,
    generation: u64,
    in_flight: Vec<(u64, u64)>,
}

impl View for CacheState {
    type V = CacheModel;

    closed spec fn view(&self) -> CacheModel {
        CacheModel {
            entries: self.entries@,
            hits: self.hits,
            misses: self.misses,
            generation: self.generation,
            in_flight: self.in_flight@,
        }
    }
}

impl CacheState {
    pub closed spec fn wf(&self) -> bool {
        self.entries.wf()
    }

    /// A well-formed cache holds no block twice.
    pub proof fn lemma_distinct(&self)
        requires
            self.wf(),
        ensures
            distinct_blocks(self@.entries),
    {
        self.entries.lemma_distinct();
    }

    /// Nothing cached, nothing counted, nothing in flight.
    pub fn new(capacity: usize) -> (r: CacheState)
        ensures
            r.wf(),
            r@ == (CacheModel {
                entries: Seq::empty(),
                hits: 0,
                misses: 0,
                generation: 0,
                in_flight: Seq::empty(),
            }),
    {
        CacheState {
            entries: Lru::with_capacity(capacity),
            hits: 0,
            misses: 0,
            generation: 0,
            in_flight: Vec::new(),
        }
    }

    /// Hits and misses so far.
    pub fn stats(&self) -> (r: (u64, u64))
        ensures
            r == (self@.hits, self@.misses),
    {
        (self.hits, self.misses)
    }

    /// What `reader` is to do about `block`.
    ///
    /// A reader that holds a fetch is never told to wait, whoever is fetching the block: a cycle
    /// of readers waiting for each other needs every one of them to hold a fetch and to wait.
    pub fn lookup(&mut self, block: u64, reader: u64) -> (r: Lookup)
        requires
            old(self).wf(),
        ensures
            final(self).wf(),
            match r {
                Lookup::Hit(data) => held(old(self)@.entries, block) && data@ == held_data(
                    old(self)@.entries,
                    block,
                ) && final(self)@ == after_hit(old(self)@, block),
                Lookup::Wait => must_wait(old(self)@, block, reader) && final(self)@ == old(self)@,
                Lookup::Fetch(generation) => !held(old(self)@.entries, block) && !must_wait(
                    old(self)@,
                    block,
                    reader,
                ) && generation == old(self)@.generation && final(self)@ == after_miss(
                    old(self)@,
                    block,
                    reader,
                ),
            },
    {
        if let Some(data) = self.entries.get(block) {
            self.hits = self.hits.wrapping_add(1);
            return Lookup::Hit(data);
        }
        let mut fetching = false;
        let mut holding = false;
        let mut i: usize = 0;
        while i < self.in_flight.len()
            invariant
                0 <= i <= self.in_flight@.len(),
                fetching <==> being_fetched(self.in_flight@.take(i as int), block),
                holding <==> holds_a_fetch(self.in_flight@.take(i as int), reader),
            decreases self.in_flight@.len() - i,
        {
            let ghost seen = self.in_flight@.take(i as int);
            let ghost more = self.in_flight@.take(i + 1);
            proof {
                assert(more[i as int] == self.in_flight@[i as int]);
                assert forall|j: int| 0 <= j < i implies seen[j] == more[j] by {}
                if being_fetched(more, block) && more[i as int].0 != block {
                    let j = choose|j: int| 0 <= j < more.len() && (#[trigger] more[j]).0 == block;
                    assert(seen[j].0 == block);
                }
                if holds_a_fetch(more, reader) && more[i as int].1 != reader {
                    let j = choose|j: int| 0 <= j < more.len() && (#[trigger] more[j]).1 == reader;
                    assert(seen[j].1 == reader);
                }
                if being_fetched(seen, block) {
                    let j = choose|j: int| 0 <= j < seen.len() && (#[trigger] seen[j]).0 == block;
                    assert(more[j].0 == block);
                }
                if holds_a_fetch(seen, reader) {
                    let j = choose|j: int| 0 <= j < seen.len() && (#[trigger] seen[j]).1 == reader;
                    assert(more[j].1 == reader);
                }
            }
            if self.in_flight[i].0 == block {
                fetching = true;
            }
            if self.in_flight[i].1 == reader {
                holding = true;
            }
            i = i + 1;
        }
        assert(self.in_flight@.take(i as int) =~= self.in_flight@);
        if fetching && !holding {
            return Lookup::Wait;
        }
        self.misses = self.misses.wrapping_add(1);
        self.in_flight.push((block, reader));
        Lookup::Fetch(self.generation)
    }

    /// Keep the bytes that were fetched for `block`, and hand back the bytes to use: those
    /// already held, where the block has come in meanwhile. `generation` is the one that the
    /// miss was told; if an invalidation has passed since, the bytes are used but not kept.
    pub fn complete(
        &mut self,
        block: u64,
        data: Arc<Vec<u8>>,
        generation: u64,
        capacity: usize,
    ) -> (r: Arc<Vec<u8>>)
        requires
            old(self).wf(),
        ensures
            final(self).wf(),
            final(self)@ == after_fetch(old(self)@, block, data@, generation, capacity as nat),
            r@ == if held(old(self)@.entries, block) {
                held_data(old(self)@.entries, block)
            } else {
                data@
            },
    {
        if let Some(kept) = self.entries.get(block) {
            return kept;
        }
        if self.generation == generation {
            self.entries.insert(block, data.clone(), capacity);
        }
        data
    }

    /// Clear one marker of `reader` on `block`.
    pub fn release(&mut self, block: u64, reader: u64)
        requires
            old(self).wf(),
        ensures
            final(self).wf(),
            final(self)@ == (CacheModel {
                in_flight: markers_after_release(old(self)@.in_flight, block, reader),
                ..old(self)@
            }),
    {
        let mut i: usize = 0;
        while i < self.in_flight.len()
            invariant
                *self == *old(self),
                self.wf(),
                0 <= i <= self.in_flight@.len(),
                forall|j: int| 0 <= j < i ==> self.in_flight@[j] != (block, reader),
            decreases self.in_flight@.len() - i,
        {
            if self.in_flight[i].0 == block && self.in_flight[i].1 == reader {
                proof {
                    let markers = self.in_flight@;
                    assert(markers[i as int] == (block, reader));
                    assert(is_first_marker(markers, block, reader, i as int));
                    let c = choose|c: int| is_first_marker(markers, block, reader, c);
                    assert(c == i) by {
                        if c < i {
                            assert(markers[c] != (block, reader));
                        }
                        if i < c {
                            assert(markers[i as int] != (block, reader));
                        }
                    }
                }
                self.in_flight.remove(i);
                return ;
            }
            i = i + 1;
        }
        assert(!self.in_flight@.contains((block, reader)));
    }

    /// Drop every entry.
    pub fn invalidate_all(&mut self)
        requires
            old(self).wf(),
        ensures
            final(self).wf(),
            final(self)@ == after_clear(old(self)@),
    {
        self.entries.clear();
        self.generation = self.generation.wrapping_add(1);
    }

    /// Drop every entry with a byte in `start..end`. The generation moves whether or not
    /// anything was dropped: a fetch in flight over the range has no entry to find.
    pub fn invalidate_range(&mut self, start: u64, end: u64, block_size: u64)
        requires
            old(self).wf(),
        ensures
            final(self).wf(),
            final(self)@ == after_sweep(old(self)@, start, end, block_size),
    {
        let ghost was = self.entries@;
        let keep = |off: u64| -> (r: bool)
            ensures
                r == untouched_by(off, start, end, block_size),
            { off >= end || off.saturating_add(block_size) <= start };
        self.entries.retain_blocks(keep);
        proof {
            let kept = choose|kept: spec_fn(u64) -> bool|
                {
                    &&& forall|k: int|
                        0 <= k < was.len() ==> call_ensures(
                            keep,
                            ((#[trigger] was[k]).0,),
                            kept(was[k].0),
                        )
                    &&& self.entries@ == was.filter(#[trigger] picked(kept))
                };
            crate::lru::lemma_filter_agree(
                was,
                picked(kept),
                picked(outside(start, end, block_size)),
            );
        }
        self.generation = self.generation.wrapping_add(1);
    }
}

} // verus!
