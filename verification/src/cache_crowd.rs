//! Readers that all want one block that is not cached.
//!
//! Each asks for the block, waits where it is told to, reads the device where it is told to, hands
//! the bytes to the cache and lets go of its marker. The device can be read and does not call back
//! into the cache, and nothing is invalidated meanwhile. The steps come in any order.
use crate::cache_state::{
    after_fetch, after_hit, after_miss, being_fetched, bumped, holds_a_fetch,
    markers_after_release, must_wait, release_undoes_marking, CacheModel,
};
use crate::lru::{
    distinct_blocks, evicted, held, held_data, inserted, insertion_keeps_the_bound,
    lemma_without_absent, lemma_without_is_remove, promoted,
};
use vstd::prelude::*;

verus! {

/// How far one reader has come.
pub enum Stage {
    /// It wants the block, and asks the cache.
    Asking,
    /// It was told to fetch the block.
    Fetching { generation: u64 },
    /// It has read the device.
    Fetched { generation: u64 },
    /// It has handed the bytes to the cache, and has these to answer with.
    Kept { bytes: Seq<u8> },
    /// It has answered these bytes.
    Answered { bytes: Seq<u8> },
}

/// A cache, its readers, and how often they have read the device.
pub struct Crowd {
    pub cache: CacheModel,
    pub stages: Seq<Stage>,
    pub reads: nat,
}

/// What the readers have in common: the block they want, the bytes that the device has there, and
/// the capacity of the cache. Reader `i` is known to the cache as `ids[i]`.
pub struct Want {
    pub ids: Seq<u64>,
    pub block: u64,
    pub bytes: Seq<u8>,
    pub capacity: nat,
}

/// Reader `i` goes on to a stage.
pub open spec fn staged(c: Crowd, i: int, stage: Stage) -> Crowd {
    Crowd { stages: c.stages.update(i, stage), ..c }
}

/// What reader `i` does next. One that is told to wait asks again later.
pub open spec fn stepped(w: Want, c: Crowd, i: int) -> Crowd {
    match c.stages[i] {
        Stage::Asking => if held(c.cache.entries, w.block) {
            Crowd {
                cache: after_hit(c.cache, w.block),
                ..staged(c, i, Stage::Answered { bytes: held_data(c.cache.entries, w.block) })
            }
        } else if must_wait(c.cache, w.block, w.ids[i]) {
            c
        } else {
            Crowd {
                cache: after_miss(c.cache, w.block, w.ids[i]),
                ..staged(c, i, Stage::Fetching { generation: c.cache.generation })
            }
        },
        Stage::Fetching { generation } => Crowd {
            reads: c.reads + 1,
            ..staged(c, i, Stage::Fetched { generation })
        },
        Stage::Fetched { generation } => Crowd {
            cache: after_fetch(c.cache, w.block, w.bytes, generation, w.capacity),
            ..staged(
                c,
                i,
                Stage::Kept {
                    bytes: if held(c.cache.entries, w.block) {
                        held_data(c.cache.entries, w.block)
                    } else {
                        w.bytes
                    },
                },
            )
        },
        Stage::Kept { bytes } => Crowd {
            cache: CacheModel {
                in_flight: markers_after_release(c.cache.in_flight, w.block, w.ids[i]),
                ..c.cache
            },
            ..staged(c, i, Stage::Answered { bytes })
        },
        Stage::Answered { .. } => c,
    }
}

/// The crowd after the readers in `order` have each taken a step.
pub open spec fn run(w: Want, c: Crowd, order: Seq<int>) -> Crowd
    decreases order.len(),
{
    if order.len() == 0 {
        c
    } else {
        stepped(w, run(w, c, order.drop_last()), order.last())
    }
}

/// The crowd before anyone has asked.
pub open spec fn gathered(w: Want, cache: CacheModel) -> Crowd {
    Crowd { cache, stages: Seq::new(w.ids.len(), |i: int| Stage::Asking), reads: 0 }
}

/// A cache to which none of the readers is known yet, and which neither holds nor fetches the
/// block.
pub open spec fn is_new_to(w: Want, cache: CacheModel) -> bool {
    &&& w.ids.no_duplicates()
    &&& distinct_blocks(cache.entries)
    &&& cache.entries.len() <= if w.capacity == 0 {
        1
    } else {
        w.capacity
    }
    &&& !held(cache.entries, w.block)
    &&& !being_fetched(cache.in_flight, w.block)
    &&& forall|i: int|
        0 <= i < w.ids.len() ==> !holds_a_fetch(cache.in_flight, #[trigger] w.ids[i])
}

/// How many readers have answered.
pub open spec fn answers(stages: Seq<Stage>) -> nat
    decreases stages.len(),
{
    if stages.len() == 0 {
        0
    } else {
        answers(stages.drop_last()) + if stages.last() is Answered {
            1nat
        } else {
            0nat
        }
    }
}

/// `n` more, starting over after the largest number.
#[verifier::opaque]
pub open spec fn bumped_by(count: u64, n: nat) -> u64 {
    ((count + n) % 0x1_0000_0000_0000_0000) as u64
}

proof fn lemma_bumped_by(count: u64, n: nat)
    ensures
        bumped(bumped_by(count, n)) == bumped_by(count, n + 1),
        bumped_by(count, 0) == count,
{
    reveal(bumped_by);
}

proof fn lemma_answers(stages: Seq<Stage>, i: int, stage: Stage)
    requires
        0 <= i < stages.len(),
        !(stages[i] is Answered),
    ensures
        answers(stages.update(i, stage)) == answers(stages) + if stage is Answered {
            1nat
        } else {
            0nat
        },
    decreases stages.len(),
{
    let after = stages.update(i, stage);
    if i == stages.len() - 1 {
        assert(after.drop_last() =~= stages.drop_last());
    } else {
        assert(after.drop_last() =~= stages.drop_last().update(i, stage));
        lemma_answers(stages.drop_last(), i, stage);
    }
}

proof fn lemma_no_answers(stages: Seq<Stage>)
    requires
        forall|i: int| 0 <= i < stages.len() ==> !(#[trigger] stages[i] is Answered),
    ensures
        answers(stages) == 0,
    decreases stages.len(),
{
    if stages.len() > 0 {
        assert(!(stages[stages.len() - 1] is Answered));
        assert forall|i: int| 0 <= i < stages.drop_last().len() implies !(
        #[trigger] stages.drop_last()[i] is Answered) by {
            assert(stages.drop_last()[i] == stages[i]);
        }
        lemma_no_answers(stages.drop_last());
    }
}

proof fn lemma_all_answers(stages: Seq<Stage>)
    requires
        forall|i: int| 0 <= i < stages.len() ==> #[trigger] stages[i] is Answered,
    ensures
        answers(stages) == stages.len(),
    decreases stages.len(),
{
    if stages.len() > 0 {
        assert(stages[stages.len() - 1] is Answered);
        assert forall|i: int| 0 <= i < stages.drop_last().len() implies #[trigger] stages.drop_last()[i] is Answered by {
            assert(stages.drop_last()[i] == stages[i]);
        }
        lemma_all_answers(stages.drop_last());
    }
}

/// No one has been told to fetch.
spec fn none_fetches(w: Want, cache: CacheModel, c: Crowd) -> bool {
    &&& c.cache == cache
    &&& c.reads == 0
    &&& forall|i: int| 0 <= i < c.stages.len() ==> #[trigger] c.stages[i] is Asking
}

/// Reader `f` alone fetches, and the others ask in vain.
spec fn one_fetches(w: Want, cache: CacheModel, c: Crowd, f: int) -> bool {
    &&& 0 <= f < c.stages.len()
    &&& c.cache == after_miss(cache, w.block, w.ids[f])
    &&& ({
        ||| c.stages[f] == (Stage::Fetching { generation: cache.generation }) && c.reads == 0
        ||| c.stages[f] == (Stage::Fetched { generation: cache.generation }) && c.reads == 1
    })
    &&& forall|i: int| 0 <= i < c.stages.len() && i != f ==> #[trigger] c.stages[i] is Asking
}

/// Reader `f` has put the block into the cache, and the others find it there.
spec fn one_has_fetched(w: Want, cache: CacheModel, c: Crowd, f: int) -> bool {
    &&& 0 <= f < c.stages.len()
    &&& c.reads == 1
    &&& ({
        ||| c.stages[f] == (Stage::Kept { bytes: w.bytes })
        ||| c.stages[f] == (Stage::Answered { bytes: w.bytes })
    })
    &&& forall|i: int|
        0 <= i < c.stages.len() && i != f ==> (#[trigger] c.stages[i] is Asking || c.stages[i] == (
        Stage::Answered { bytes: w.bytes }))
    &&& c.cache == CacheModel {
        entries: inserted(cache.entries, w.block, w.bytes, w.capacity),
        hits: bumped_by(
            cache.hits,
            (answers(c.stages) - if c.stages[f] is Answered {
                1int
            } else {
                0int
            }) as nat,
        ),
        misses: bumped(cache.misses),
        in_flight: if c.stages[f] is Answered {
            cache.in_flight
        } else {
            cache.in_flight.push((w.block, w.ids[f]))
        },
        ..cache
    }
    &&& c.stages[f] is Answered ==> answers(c.stages) >= 1
}

/// What holds however far the readers have come.
spec fn crowd_ok(w: Want, cache: CacheModel, c: Crowd) -> bool {
    &&& c.stages.len() == w.ids.len()
    &&& {
        ||| none_fetches(w, cache, c)
        ||| exists|f: int| #[trigger] one_fetches(w, cache, c, f)
        ||| exists|f: int| #[trigger] one_has_fetched(w, cache, c, f)
    }
}

proof fn lemma_step(w: Want, cache: CacheModel, c: Crowd, i: int)
    requires
        is_new_to(w, cache),
        crowd_ok(w, cache, c),
        0 <= i < c.stages.len(),
    ensures
        crowd_ok(w, cache, stepped(w, c, i)),
{
    let after = stepped(w, c, i);
    if none_fetches(w, cache, c) {
        assert(c.stages[i] is Asking);
        assert(one_fetches(w, cache, after, i));
    } else if exists|f: int| #[trigger] one_fetches(w, cache, c, f) {
        let f = choose|f: int| #[trigger] one_fetches(w, cache, c, f);
        lemma_step_while_fetching(w, cache, c, f, i);
    } else {
        let f = choose|f: int| #[trigger] one_has_fetched(w, cache, c, f);
        lemma_step_when_fetched(w, cache, c, f, i);
    }
}

proof fn lemma_step_while_fetching(w: Want, cache: CacheModel, c: Crowd, f: int, i: int)
    requires
        is_new_to(w, cache),
        c.stages.len() == w.ids.len(),
        one_fetches(w, cache, c, f),
        0 <= i < c.stages.len(),
    ensures
        crowd_ok(w, cache, stepped(w, c, i)),
{
    let after = stepped(w, c, i);
    let marked = cache.in_flight.push((w.block, w.ids[f]));
    if i != f {
        assert(c.stages[i] is Asking);
        assert(marked[cache.in_flight.len() as int].0 == w.block);
        assert(being_fetched(c.cache.in_flight, w.block));
        assert(!holds_a_fetch(c.cache.in_flight, w.ids[i])) by {
            if holds_a_fetch(marked, w.ids[i]) {
                let k = choose|k: int|
                    0 <= k < marked.len() && (#[trigger] marked[k]).1 == w.ids[i];
                if k < cache.in_flight.len() {
                    assert(cache.in_flight[k].1 == w.ids[i]);
                    assert(holds_a_fetch(cache.in_flight, w.ids[i]));
                }
            }
        }
        assert(must_wait(c.cache, w.block, w.ids[i]));
        assert(after == c);
    } else if c.stages[f] is Fetching {
        assert(one_fetches(w, cache, after, f));
    } else {
        lemma_no_answers(c.stages);
        lemma_answers(c.stages, f, after.stages[f]);
        lemma_bumped_by(cache.hits, 0);
        assert(one_has_fetched(w, cache, after, f));
    }
}

/// The block that was put in front is found there, and stays there.
proof fn lemma_in_front(w: Want, cache: CacheModel)
    requires
        is_new_to(w, cache),
    ensures
        ({
            let entries = inserted(cache.entries, w.block, w.bytes, w.capacity);
            &&& held(entries, w.block)
            &&& held_data(entries, w.block) == w.bytes
            &&& promoted(entries, w.block) == entries
        }),
{
    let entries = inserted(cache.entries, w.block, w.bytes, w.capacity);
    insertion_keeps_the_bound(cache.entries, w.block, w.bytes, w.capacity);
    assert(entries[0] == (w.block, w.bytes));
    lemma_without_is_remove(entries, 0);
    assert(promoted(entries, w.block) =~= entries);
}

proof fn lemma_hit_when_fetched(w: Want, cache: CacheModel, c: Crowd, f: int, i: int)
    requires
        is_new_to(w, cache),
        c.stages.len() == w.ids.len(),
        one_has_fetched(w, cache, c, f),
        0 <= i < c.stages.len(),
        i != f,
        c.stages[i] is Asking,
    ensures
        one_has_fetched(w, cache, stepped(w, c, i), f),
{
    let after = stepped(w, c, i);
    lemma_in_front(w, cache);
    assert(after.stages == c.stages.update(i, Stage::Answered { bytes: w.bytes }));
    lemma_answers(c.stages, i, Stage::Answered { bytes: w.bytes });
    let others = (answers(c.stages) - if c.stages[f] is Answered {
        1int
    } else {
        0int
    }) as nat;
    lemma_bumped_by(cache.hits, others);
    assert(after.stages[f] == c.stages[f]);
    assert(after.cache.hits == bumped_by(cache.hits, others + 1));
}

proof fn lemma_step_when_fetched(w: Want, cache: CacheModel, c: Crowd, f: int, i: int)
    requires
        is_new_to(w, cache),
        c.stages.len() == w.ids.len(),
        one_has_fetched(w, cache, c, f),
        0 <= i < c.stages.len(),
    ensures
        crowd_ok(w, cache, stepped(w, c, i)),
{
    let after = stepped(w, c, i);
    if i != f {
        if c.stages[i] is Asking {
            lemma_hit_when_fetched(w, cache, c, f, i);
        } else {
            assert(after == c);
        }
    } else if c.stages[f] is Kept {
        assert(!cache.in_flight.contains((w.block, w.ids[f]))) by {
            if cache.in_flight.contains((w.block, w.ids[f])) {
                let k = choose|k: int|
                    0 <= k < cache.in_flight.len() && cache.in_flight[k] == (w.block, w.ids[f]);
                assert(cache.in_flight[k].0 == w.block);
            }
        }
        release_undoes_marking(cache.in_flight, w.block, w.ids[f]);
        lemma_answers(c.stages, f, after.stages[f]);
        assert(one_has_fetched(w, cache, after, f));
    } else {
        assert(after == c);
    }
}

proof fn lemma_run(w: Want, cache: CacheModel, order: Seq<int>)
    requires
        is_new_to(w, cache),
        forall|k: int| 0 <= k < order.len() ==> 0 <= #[trigger] order[k] < w.ids.len(),
    ensures
        crowd_ok(w, cache, run(w, gathered(w, cache), order)),
    decreases order.len(),
{
    if order.len() == 0 {
        assert(none_fetches(w, cache, gathered(w, cache)));
    } else {
        let first = order.drop_last();
        assert forall|k: int| 0 <= k < first.len() implies 0 <= #[trigger] first[k]
            < w.ids.len() by {
            assert(first[k] == order[k]);
        }
        lemma_run(w, cache, first);
        assert(order[order.len() - 1] == order.last());
        lemma_step(w, cache, run(w, gathered(w, cache), first), order.last());
    }
}

/// However the steps of the readers fall, when all have answered the device has been read once, all
/// have answered its bytes, one miss has been counted and a hit for each of the others, the block
/// has been cached once, in front, and the markers are as they were. Where the cache had room,
/// nothing was evicted.
pub proof fn a_crowd_reads_the_device_once(w: Want, cache: CacheModel, order: Seq<int>)
    requires
        is_new_to(w, cache),
        w.ids.len() > 0,
        forall|k: int| 0 <= k < order.len() ==> 0 <= #[trigger] order[k] < w.ids.len(),
        forall|i: int|
            0 <= i < w.ids.len() ==> #[trigger] run(w, gathered(w, cache), order).stages[i]
                is Answered,
    ensures
        ({
            let c = run(w, gathered(w, cache), order);
            &&& c.reads == 1
            &&& forall|i: int|
                0 <= i < w.ids.len() ==> #[trigger] c.stages[i] == (Stage::Answered {
                    bytes: w.bytes,
                })
            &&& c.cache == CacheModel {
                entries: inserted(cache.entries, w.block, w.bytes, w.capacity),
                hits: bumped_by(cache.hits, (w.ids.len() - 1) as nat),
                misses: bumped(cache.misses),
                ..cache
            }
            &&& cache.entries.len() < w.capacity ==> c.cache.entries == seq![(w.block, w.bytes)]
                + cache.entries
        }),
{
    let c = run(w, gathered(w, cache), order);
    lemma_run(w, cache, order);
    assert(c.stages[0] is Answered);
    lemma_all_answers(c.stages);
    if exists|f: int| #[trigger] one_fetches(w, cache, c, f) {
        let f = choose|f: int| #[trigger] one_fetches(w, cache, c, f);
        assert(c.stages[f] is Answered);
    }
    let f = choose|f: int| #[trigger] one_has_fetched(w, cache, c, f);
    assert(c.stages[f] is Answered);
    lemma_without_absent(cache.entries, w.block);
}

/// While a reader has not answered, one of them can take a step that brings it on: they never all
/// wait.
pub proof fn a_crowd_never_stalls(w: Want, cache: CacheModel, order: Seq<int>, i: int)
    requires
        is_new_to(w, cache),
        forall|k: int| 0 <= k < order.len() ==> 0 <= #[trigger] order[k] < w.ids.len(),
        0 <= i < w.ids.len(),
        !(run(w, gathered(w, cache), order).stages[i] is Answered),
    ensures
        exists|j: int|
            0 <= j < w.ids.len() && (#[trigger] stepped(
                w,
                run(w, gathered(w, cache), order),
                j,
            )).stages != run(w, gathered(w, cache), order).stages,
{
    let c = run(w, gathered(w, cache), order);
    lemma_run(w, cache, order);
    if none_fetches(w, cache, c) {
        assert(c.stages[i] is Asking);
        assert(stepped(w, c, i).stages[i] is Fetching);
    } else if exists|f: int| #[trigger] one_fetches(w, cache, c, f) {
        let f = choose|f: int| #[trigger] one_fetches(w, cache, c, f);
        if c.stages[f] is Fetching {
            assert(stepped(w, c, f).stages[f] is Fetched);
        } else {
            assert(stepped(w, c, f).stages[f] is Kept);
        }
    } else {
        let f = choose|f: int| #[trigger] one_has_fetched(w, cache, c, f);
        if i == f {
            assert(stepped(w, c, f).stages[f] is Answered);
        } else {
            lemma_in_front(w, cache);
            assert(stepped(w, c, i).stages[i] is Answered);
        }
    }
}

} // verus!
