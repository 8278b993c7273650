//! Cached blocks in recency order, with constant-time lookup and promotion.
//!
//! The model of a cache is the sequence of its entries, the most recently used first. The
//! spec functions here say what each operation does to that sequence.
use std::collections::HashMap;
use std::sync::Arc;
use vstd::prelude::*;

verus! {

broadcast use vstd::std_specs::hash::group_hash_axioms;

/// Whether `block` is among the entries.
pub open spec fn held(entries: Seq<(u64, Seq<u8>)>, block: u64) -> bool {
    exists|k: int| 0 <= k < entries.len() && (#[trigger] entries[k]).0 == block
}

/// Where the entry for `block` stands.
pub open spec fn held_at(entries: Seq<(u64, Seq<u8>)>, block: u64) -> int {
    choose|k: int| 0 <= k < entries.len() && (#[trigger] entries[k]).0 == block
}

/// The bytes held for `block`.
pub open spec fn held_data(entries: Seq<(u64, Seq<u8>)>, block: u64) -> Seq<u8> {
    entries[held_at(entries, block)].1
}

/// No block occurs twice.
pub open spec fn distinct_blocks(entries: Seq<(u64, Seq<u8>)>) -> bool {
    forall|i: int, j: int|
        0 <= i < j < entries.len() ==> (#[trigger] entries[i]).0 != (#[trigger] entries[j]).0
}

/// Every entry but one for `block`.
pub open spec fn other_than(block: u64) -> spec_fn((u64, Seq<u8>)) -> bool {
    |e: (u64, Seq<u8>)| e.0 != block
}

/// The entries but the one for `block`.
pub open spec fn without(entries: Seq<(u64, Seq<u8>)>, block: u64) -> Seq<(u64, Seq<u8>)> {
    entries.filter(other_than(block))
}

/// The entries with the one for `block` moved to the front.
pub open spec fn promoted(entries: Seq<(u64, Seq<u8>)>, block: u64) -> Seq<(u64, Seq<u8>)> {
    seq![(block, held_data(entries, block))] + without(entries, block)
}

/// The entries after the least recently used has made room, where there is none left.
pub open spec fn evicted(entries: Seq<(u64, Seq<u8>)>, capacity: nat) -> Seq<(u64, Seq<u8>)> {
    if entries.len() >= capacity && entries.len() > 0 {
        entries.drop_last()
    } else {
        entries
    }
}

/// The entries after `block` has been put in front: what it replaces goes first, and only then
/// the least recently used, where the cache is still full. Even a capacity of zero holds one.
pub open spec fn inserted(
    entries: Seq<(u64, Seq<u8>)>,
    block: u64,
    data: Seq<u8>,
    capacity: nat,
) -> Seq<(u64, Seq<u8>)> {
    seq![(block, data)] + evicted(without(entries, block), capacity)
}

/// The entries whose block `kept` picks.
pub open spec fn picked(kept: spec_fn(u64) -> bool) -> spec_fn((u64, Seq<u8>)) -> bool {
    |e: (u64, Seq<u8>)| kept(e.0)
}

/// The block numbers of the entries, in their order.
pub open spec fn blocks_of(entries: Seq<(u64, Seq<u8>)>) -> Seq<u64> {
    Seq::new(entries.len(), |k: int| entries[k].0)
}

/// One cached block, and its neighbours in recency order.
struct Node {
    block_start: u64,
    data: Arc<Vec<u8>>,
    /// Toward the head: more recently used.
    newer: Option<usize>,
    /// Toward the tail: less recently used.
    older: Option<usize>,
}

/// A slab of nodes in a doubly linked recency list, and an index into it.
pub struct Lru {
    /// `None` is a free slot, kept so that live positions stay valid.
    slots: Vec<Option<Node>>,
    /// Slots to reuse before growing `slots`.
    free: Vec<usize>,
    index: HashMap<u64, usize>,
    /// Most recently used.
    newest: Option<usize>,
    /// Least recently used: the eviction end.
    oldest: Option<usize>,
    /// The slots in recency order, the newest first.
    order: Ghost<Seq<usize>>,
}

/// Slot `order[k]` is live and its links name its neighbours in `order`.
spec fn link_ok(slots: Seq<Option<Node>>, order: Seq<usize>, k: int) -> bool {
    &&& order[k] < slots.len()
    &&& slots[order[k] as int] is Some
    &&& slots[order[k] as int]->0.newer == if k == 0 {
        None
    } else {
        Some(order[k - 1])
    }
    &&& slots[order[k] as int]->0.older == if k == order.len() - 1 {
        None
    } else {
        Some(order[k + 1])
    }
}

/// The links of `slots` spell out `order`, forwards and backwards.
spec fn chained(
    slots: Seq<Option<Node>>,
    order: Seq<usize>,
    newest: Option<usize>,
    oldest: Option<usize>,
) -> bool {
    &&& order.no_duplicates()
    &&& forall|k: int| 0 <= k < order.len() ==> #[trigger] link_ok(slots, order, k)
    &&& newest == if order.len() == 0 {
        None
    } else {
        Some(order[0])
    }
    &&& oldest == if order.len() == 0 {
        None
    } else {
        Some(order[order.len() - 1])
    }
}

/// The same slots are live in both, with the same blocks and bytes.
spec fn same_payload(a: Seq<Option<Node>>, b: Seq<Option<Node>>) -> bool {
    &&& a.len() == b.len()
    &&& forall|j: int|
        0 <= j < a.len() ==> {
            &&& (#[trigger] a[j]) is Some <==> b[j] is Some
            &&& a[j] is Some ==> a[j]->0.block_start == b[j]->0.block_start && a[j]->0.data
                == b[j]->0.data
        }
}

/// `slots` with the link toward the head of slot `j` written.
spec fn with_newer(slots: Seq<Option<Node>>, j: usize, newer: Option<usize>) -> Seq<Option<Node>> {
    slots.update(j as int, Some(Node { newer, ..slots[j as int]->0 }))
}

/// `slots` with the link toward the tail of slot `j` written.
spec fn with_older(slots: Seq<Option<Node>>, j: usize, older: Option<usize>) -> Seq<Option<Node>> {
    slots.update(j as int, Some(Node { older, ..slots[j as int]->0 }))
}

/// `slots` after its neighbours have been joined over slot `order[k]`.
spec fn bridged(
    slots: Seq<Option<Node>>,
    i: usize,
    newer: Option<usize>,
    older: Option<usize>,
) -> Seq<Option<Node>> {
    let s1 = match newer {
        Some(j) => with_older(slots, j, older),
        None => slots,
    };
    let s2 = match older {
        Some(j) => with_newer(s1, j, newer),
        None => s1,
    };
    with_older(with_newer(s2, i, None), i, None)
}

proof fn lemma_unlinked(
    slots0: Seq<Option<Node>>,
    slots1: Seq<Option<Node>>,
    order0: Seq<usize>,
    k: int,
    newer: Option<usize>,
    older: Option<usize>,
)
    requires
        0 <= k < order0.len(),
        chained(
            slots0,
            order0,
            Some(order0[0]),
            Some(order0[order0.len() - 1]),
        ),
        newer == slots0[order0[k] as int]->0.newer,
        older == slots0[order0[k] as int]->0.older,
        slots1 == bridged(slots0, order0[k], newer, older),
    ensures
        same_payload(slots0, slots1),
        chained(
            slots1,
            order0.remove(k),
            if k == 0 {
                older
            } else {
                Some(order0[0])
            },
            if k == order0.len() - 1 {
                newer
            } else {
                Some(order0[order0.len() - 1])
            },
        ),
{
    let order1 = order0.remove(k);
    assert(link_ok(slots0, order0, k));
    assert forall|m: int| 0 <= m < order1.len() implies #[trigger] link_ok(slots1, order1, m) by {
        let p = if m < k { m } else { m + 1 };
        assert(link_ok(slots0, order0, p));
        assert(order1[m] == order0[p]);
        assert(order0[p] != order0[k]);
        if k > 0 {
            assert(link_ok(slots0, order0, k - 1));
            assert(order0[p] == order0[k - 1] <==> p == k - 1);
        }
        if k < order0.len() - 1 {
            assert(link_ok(slots0, order0, k + 1));
            assert(order0[p] == order0[k + 1] <==> p == k + 1);
        }
        if k > 0 && k < order0.len() - 1 {
            assert(order0[k + 1] != order0[k - 1]);
        }
    }
    assert(order1.no_duplicates());
    if k > 0 {
        assert(link_ok(slots0, order0, k - 1));
    }
    if k < order0.len() - 1 {
        assert(link_ok(slots0, order0, k + 1));
    }
}

impl View for Lru {
    type V = Seq<(u64, Seq<u8>)>;

    /// The entries, the most recently used first.
    closed spec fn view(&self) -> Seq<(u64, Seq<u8>)> {
        Seq::new(
            self.order@.len(),
            |k: int|
                (
                    self.slots@[self.order@[k] as int]->0.block_start,
                    self.slots@[self.order@[k] as int]->0.data@,
                ),
        )
    }
}

/// Taking out the block of entry `k` takes out entry `k` alone.
pub proof fn lemma_without_is_remove(entries: Seq<(u64, Seq<u8>)>, k: int)
    requires
        distinct_blocks(entries),
        0 <= k < entries.len(),
    ensures
        without(entries, entries[k].0) == entries.remove(k),
        held(entries, entries[k].0),
        held_data(entries, entries[k].0) == entries[k].1,
{
    let block = entries[k].0;
    let other = other_than(block);
    let head = entries.take(k);
    let tail = entries.skip(k + 1);
    assert(entries =~= head + seq![entries[k]] + tail);
    Seq::filter_distributes_over_add(head + seq![entries[k]], tail, other);
    Seq::filter_distributes_over_add(head, seq![entries[k]], other);
    lemma_filter_all(head, other);
    lemma_filter_all(tail, other);
    assert(seq![entries[k]].filter(other) =~= Seq::<(u64, Seq<u8>)>::empty()) by {
        reveal_with_fuel(Seq::filter, 2);
        assert(seq![entries[k]].last() == entries[k]);
        assert(seq![entries[k]].drop_last() =~= Seq::<(u64, Seq<u8>)>::empty());
    }
    assert(entries.filter(other) =~= entries.remove(k));
    assert(entries[k].0 == block);
}

/// A filter that everything passes changes nothing.
pub proof fn lemma_filter_all<A>(s: Seq<A>, keep: spec_fn(A) -> bool)
    requires
        forall|j: int| 0 <= j < s.len() ==> keep(#[trigger] s[j]),
    ensures
        s.filter(keep) == s,
    decreases s.len(),
{
    reveal(Seq::filter);
    if s.len() > 0 {
        assert forall|j: int| 0 <= j < s.drop_last().len() implies keep(
            #[trigger] s.drop_last()[j],
        ) by {
            assert(s.drop_last()[j] == s[j]);
        }
        lemma_filter_all(s.drop_last(), keep);
        assert(s.drop_last().push(s.last()) =~= s);
    } else {
        assert(s.filter(keep) =~= s);
    }
}

/// What a filter leaves was there before, and passes.
pub proof fn lemma_filter_members<A>(s: Seq<A>, keep: spec_fn(A) -> bool)
    ensures
        forall|j: int|
            0 <= j < s.filter(keep).len() ==> keep(#[trigger] s.filter(keep)[j]) && exists|i: int|
                0 <= i < s.len() && #[trigger] s[i] == s.filter(keep)[j],
    decreases s.len(),
{
    reveal(Seq::filter);
    if s.len() > 0 {
        let head = s.drop_last();
        lemma_filter_members(head, keep);
        assert forall|j: int| 0 <= j < s.filter(keep).len() implies keep(
            #[trigger] s.filter(keep)[j],
        ) && exists|i: int| 0 <= i < s.len() && #[trigger] s[i] == s.filter(keep)[j] by {
            if j < head.filter(keep).len() {
                assert(s.filter(keep)[j] == head.filter(keep)[j]);
                let i = choose|i: int|
                    0 <= i < head.len() && #[trigger] head[i] == head.filter(keep)[j];
                assert(s[i] == head[i]);
            } else {
                assert(s[s.len() - 1] == s.filter(keep)[j]);
            }
        }
    }
}

/// Two filters that agree on what is there leave the same.
pub proof fn lemma_filter_agree<A>(s: Seq<A>, p: spec_fn(A) -> bool, q: spec_fn(A) -> bool)
    requires
        forall|j: int| 0 <= j < s.len() ==> p(#[trigger] s[j]) == q(s[j]),
    ensures
        s.filter(p) == s.filter(q),
    decreases s.len(),
{
    reveal(Seq::filter);
    if s.len() > 0 {
        assert forall|j: int| 0 <= j < s.drop_last().len() implies p(#[trigger] s.drop_last()[j])
            == q(s.drop_last()[j]) by {
            assert(s.drop_last()[j] == s[j]);
        }
        lemma_filter_agree(s.drop_last(), p, q);
        assert(p(s[s.len() - 1]) == q(s[s.len() - 1]));
    }
}

/// What is held for a block is one of the entries.
pub proof fn lemma_held_entry(entries: Seq<(u64, Seq<u8>)>, block: u64) -> (at: int)
    requires
        held(entries, block),
    ensures
        0 <= at < entries.len(),
        entries[at] == (block, held_data(entries, block)),
{
    held_at(entries, block)
}

/// A block that is not held takes nothing with it.
pub proof fn lemma_without_absent(entries: Seq<(u64, Seq<u8>)>, block: u64)
    requires
        !held(entries, block),
    ensures
        without(entries, block) == entries,
{
    lemma_filter_all(entries, other_than(block));
}

/// An insertion never makes the cache longer than its capacity, or than one entry where the
/// capacity is zero; it holds what was put in, and of the others drops at most the least
/// recently used.
pub proof fn insertion_keeps_the_bound(
    entries: Seq<(u64, Seq<u8>)>,
    block: u64,
    data: Seq<u8>,
    capacity: nat,
)
    requires
        distinct_blocks(entries),
        entries.len() <= if capacity == 0 {
            1
        } else {
            capacity
        },
    ensures
        inserted(entries, block, data, capacity).len() <= if capacity == 0 {
            1
        } else {
            capacity
        },
        distinct_blocks(inserted(entries, block, data, capacity)),
        held(inserted(entries, block, data, capacity), block),
        held_data(inserted(entries, block, data, capacity), block) == data,
        forall|k: int|
            0 <= k < entries.len() - 1 && (#[trigger] entries[k]).0 != block ==> inserted(
                entries,
                block,
                data,
                capacity,
            ).contains(entries[k]),
{
    let rest = without(entries, block);
    let after = inserted(entries, block, data, capacity);
    if held(entries, block) {
        let k = choose|k: int| 0 <= k < entries.len() && (#[trigger] entries[k]).0 == block;
        lemma_without_is_remove(entries, k);
        assert forall|j: int| 0 <= j < rest.len() implies (#[trigger] rest[j]).0 != block && rest[j]
            == entries[if j < k {
            j
        } else {
            j + 1
        }] by {
            let p = if j < k {
                j
            } else {
                j + 1
            };
            assert(entries[p].0 != entries[k].0);
        }
        assert forall|q: int|
            0 <= q < entries.len() - 1 && (#[trigger] entries[q]).0 != block implies after.contains(
            entries[q],
        ) by {
            let j = if q < k {
                q
            } else {
                q - 1
            };
            assert(rest[j] == entries[q]);
            assert(after[j + 1] == entries[q]);
        }
    } else {
        lemma_without_absent(entries, block);
        assert forall|q: int|
            0 <= q < entries.len() - 1 && (#[trigger] entries[q]).0 != block implies after.contains(
            entries[q],
        ) by {
            assert(after[q + 1] == entries[q]);
        }
    }
    assert forall|j: int| 0 < j < after.len() implies (#[trigger] after[j]).0 != block && after[j]
        == rest[j - 1] by {}
    assert(distinct_blocks(after)) by {
        assert forall|i: int, j: int| 0 <= i < j < after.len() implies (#[trigger] after[i]).0 != (
        #[trigger] after[j]).0 by {
            if i > 0 {
                assert(rest[i - 1].0 != rest[j - 1].0);
            }
        }
    }
    assert(after[0].0 == block);
    lemma_without_is_remove(after, 0);
}

/// A block that is put in stands in front of the others, which keep their order. What was held for
/// it goes, wherever it stood; of the others only the least recently used goes, and only where the
/// cache is full without it.
pub proof fn insertion_evicts_the_least_recent_alone(
    entries: Seq<(u64, Seq<u8>)>,
    k: int,
    block: u64,
    data: Seq<u8>,
    capacity: nat,
)
    requires
        distinct_blocks(entries),
        0 <= k < entries.len() && entries[k].0 == block || k == entries.len() && forall|i: int|
            0 <= i < entries.len() ==> (#[trigger] entries[i]).0 != block,
    ensures
        ({
            let others = if k < entries.len() {
                entries.take(k) + entries.skip(k + 1)
            } else {
                entries
            };
            &&& others.len() < capacity || others.len() == 0 ==> inserted(
                entries,
                block,
                data,
                capacity,
            ) == seq![(block, data)] + others
            &&& others.len() >= capacity && others.len() > 0 ==> inserted(
                entries,
                block,
                data,
                capacity,
            ) == seq![(block, data)] + others.take(others.len() - 1)
        }),
{
    if k < entries.len() {
        lemma_without_is_remove(entries, k);
        assert(entries.remove(k) =~= entries.take(k) + entries.skip(k + 1));
    } else {
        assert(!held(entries, block));
        lemma_without_absent(entries, block);
    }
    let others = if k < entries.len() {
        entries.take(k) + entries.skip(k + 1)
    } else {
        entries
    };
    assert(without(entries, block) == others);
    if others.len() > 0 {
        assert(others.drop_last() =~= others.take(others.len() - 1));
    }
}

/// Promotion moves one entry to the front, as it is, and leaves the order of the others.
pub proof fn promotion_keeps_the_order(entries: Seq<(u64, Seq<u8>)>, k: int)
    requires
        distinct_blocks(entries),
        0 <= k < entries.len(),
    ensures
        promoted(entries, entries[k].0) == seq![entries[k]] + entries.take(k) + entries.skip(k + 1),
        without(entries, entries[k].0) == entries.take(k) + entries.skip(k + 1),
{
    lemma_without_is_remove(entries, k);
    assert(entries.remove(k) =~= entries.take(k) + entries.skip(k + 1));
    assert(promoted(entries, entries[k].0) =~= seq![entries[k]] + entries.take(k) + entries.skip(
        k + 1,
    ));
}

/// Promotion keeps the entries, and puts the block in front.
pub proof fn promotion_keeps_the_entries(entries: Seq<(u64, Seq<u8>)>, block: u64)
    requires
        distinct_blocks(entries),
        held(entries, block),
    ensures
        promoted(entries, block).len() == entries.len(),
        promoted(entries, block)[0] == (block, held_data(entries, block)),
        promoted(entries, block).to_multiset() == entries.to_multiset(),
        distinct_blocks(promoted(entries, block)),
{
    let k = choose|k: int| 0 <= k < entries.len() && (#[trigger] entries[k]).0 == block;
    lemma_without_is_remove(entries, k);
    let after = promoted(entries, block);
    assert(after =~= seq![entries[k]] + entries.remove(k));
    assert(distinct_blocks(after)) by {
        assert forall|i: int, j: int| 0 <= i < j < after.len() implies (#[trigger] after[i]).0 != (
        #[trigger] after[j]).0 by {
            let p = if i == 0 {
                k
            } else if i <= k {
                i - 1
            } else {
                i
            };
            let q = if j <= k {
                j - 1
            } else {
                j
            };
            assert(after[i] == entries[p] && after[j] == entries[q]);
            assert(p != q);
            if p < q {
                assert(entries[p].0 != entries[q].0);
            } else {
                assert(entries[q].0 != entries[p].0);
            }
        }
    }
    vstd::seq_lib::lemma_multiset_commutative(seq![entries[k]], entries.remove(k));
    entries.to_multiset_ensures();
    assert(entries.remove(k).insert(k, entries[k]) =~= entries);
    entries.remove(k).to_multiset_ensures();
    broadcast use vstd::seq_lib::group_to_multiset_ensures;

    assert(seq![entries[k]].to_multiset() =~= vstd::multiset::Multiset::singleton(entries[k])) by {
        assert(seq![entries[k]] =~= Seq::<(u64, Seq<u8>)>::empty().push(entries[k]));
    }
}

impl Lru {
    /// A well-formed cache holds no block twice.
    pub proof fn lemma_distinct(&self)
        requires
            self.wf(),
        ensures
            distinct_blocks(self@),
    {
        self.lemma_index_agrees();
    }

    /// The list holds each block that the index does, once.
    proof fn lemma_index_agrees(&self)
        requires
            self.wf(),
        ensures
            distinct_blocks(self@),
            self@.len() == self.order@.len(),
            forall|b: u64| held(self@, b) <==> self.index@.contains_key(b),
    {
        assert forall|i: int, j: int| 0 <= i < j < self@.len() implies (#[trigger] self@[i]).0 != (
        #[trigger] self@[j]).0 by {
            assert(self.order@[i] != self.order@[j]);
        }
        assert forall|b: u64| held(self@, b) <==> self.index@.contains_key(b) by {
            if held(self@, b) {
                let k = choose|k: int| 0 <= k < self@.len() && (#[trigger] self@[k]).0 == b;
                assert(self.index@.contains_key(
                    self.slots@[self.order@[k] as int]->0.block_start,
                ));
            }
            if self.index@.contains_key(b) {
                let i = self.index@[b];
                assert(self.slots@[i as int] is Some);
                let k = self.order@.index_of(i);
                assert(self.order@[k] == i);
                assert(self@[k].0 == b);
            }
        }
    }

    /// The list, the slab, the free slots and the index agree.
    pub closed spec fn wf(&self) -> bool {
        &&& chained(self.slots@, self.order@, self.newest, self.oldest)
        &&& forall|j: int|
            0 <= j < self.slots@.len() && (#[trigger] self.slots@[j]) is Some
                ==> self.order@.contains(j as usize)
        &&& self.free@.no_duplicates()
        &&& forall|f: int|
            0 <= f < self.free@.len() ==> (#[trigger] self.free@[f]) < self.slots@.len()
                && self.slots@[self.free@[f] as int] is None
        &&& self.slots@.len() == self.order@.len() + self.free@.len()
        &&& self.indexed()
    }

    spec fn indexed(&self) -> bool {
        &&& self.index@.dom().finite()
        &&& self.index@.len() == self.order@.len()
        &&& forall|k: int|
            0 <= k < self.order@.len() ==> self.index@.contains_key(
                self.slots@[(#[trigger] self.order@[k]) as int]->0.block_start,
            ) && self.index@[self.slots@[self.order@[k] as int]->0.block_start] == self.order@[k]
        &&& forall|b: u64| #[trigger]
            self.index@.contains_key(b) ==> self.index@[b] < self.slots@.len()
                && self.slots@[self.index@[b] as int] is Some
                && self.slots@[self.index@[b] as int]->0.block_start == b
    }

    /// How many slots the slab has, live and free.
    pub closed spec fn slots_allocated(&self) -> nat {
        self.slots@.len()
    }

    /// An empty cache. Room is made as blocks come in, up to the capacity that
    /// [`Lru::insert`] is given.
    pub fn with_capacity(_capacity: usize) -> (r: Lru)
        ensures
            r.wf(),
            r@ == Seq::<(u64, Seq<u8>)>::empty(),
            r.slots_allocated() == 0,
    {
        let r = Lru {
            slots: Vec::new(),
            free: Vec::new(),
            index: HashMap::new(),
            newest: None,
            oldest: None,
            order: Ghost(Seq::empty()),
        };
        assert(r@ =~= Seq::<(u64, Seq<u8>)>::empty());
        r
    }

    /// How many blocks are held.
    pub fn len(&self) -> (r: usize)
        requires
            self.wf(),
        ensures
            r == self@.len(),
    {
        self.index.len()
    }

    /// How many slots the slab has, live and free.
    pub fn slot_count(&self) -> (r: usize)
        ensures
            r == self.slots_allocated(),
    {
        self.slots.len()
    }

    /// Write the link toward the head of the node in slot `j`.
    fn set_newer(&mut self, j: usize, newer: Option<usize>)
        requires
            j < old(self).slots@.len(),
            old(self).slots@[j as int] is Some,
        ensures
            *final(self) == (Lru { slots: final(self).slots, ..*old(self) }),
            final(self).slots@ == with_newer(old(self).slots@, j, newer),
    {
        if let Some(n) = &mut self.slots[j] {
            n.newer = newer;
        }
    }

    /// Write the link toward the tail of the node in slot `j`.
    fn set_older(&mut self, j: usize, older: Option<usize>)
        requires
            j < old(self).slots@.len(),
            old(self).slots@[j as int] is Some,
        ensures
            *final(self) == (Lru { slots: final(self).slots, ..*old(self) }),
            final(self).slots@ == with_older(old(self).slots@, j, older),
    {
        if let Some(n) = &mut self.slots[j] {
            n.older = older;
        }
    }

    /// Take `i` out of the recency order, leaving the node in its slot.
    fn unlink(&mut self, i: usize)
        requires
            chained(old(self).slots@, old(self).order@, old(self).newest, old(self).oldest),
            old(self).order@.contains(i),
        ensures
            chained(final(self).slots@, final(self).order@, final(self).newest, final(self).oldest),
            final(self).order@ == old(self).order@.remove(old(self).order@.index_of(i)),
            same_payload(old(self).slots@, final(self).slots@),
            final(self).free == old(self).free,
            final(self).index == old(self).index,
    {
        let ghost k = self.order@.index_of(i);
        let ghost order0 = self.order@;
        let ghost slots0 = self.slots@;
        assert(order0[k] == i);
        assert(link_ok(slots0, order0, k));
        let mut newer: Option<usize> = None;
        let mut older: Option<usize> = None;
        if let Some(n) = &self.slots[i] {
            newer = n.newer;
            older = n.older;
        }
        match newer {
            Some(j) => {
                assert(link_ok(slots0, order0, k - 1));
                self.set_older(j, older);
            },
            None => {
                self.newest = older;
            },
        }
        match older {
            Some(j) => {
                assert(link_ok(slots0, order0, k + 1));
                self.set_newer(j, newer);
            },
            None => {
                self.oldest = newer;
            },
        }
        self.set_newer(i, None);
        self.set_older(i, None);
        self.order = Ghost(order0.remove(k));
        proof {
            lemma_unlinked(slots0, self.slots@, order0, k, newer, older);
        }
    }

    /// Put `i` at the head of the recency order.
    fn link_newest(&mut self, i: usize)
        requires
            chained(old(self).slots@, old(self).order@, old(self).newest, old(self).oldest),
            i < old(self).slots@.len(),
            old(self).slots@[i as int] is Some,
            !old(self).order@.contains(i),
        ensures
            chained(final(self).slots@, final(self).order@, final(self).newest, final(self).oldest),
            final(self).order@ == seq![i] + old(self).order@,
            same_payload(old(self).slots@, final(self).slots@),
            final(self).free == old(self).free,
            final(self).index == old(self).index,
    {
        let ghost order0 = self.order@;
        let old_head = self.newest;
        self.set_newer(i, None);
        self.set_older(i, old_head);
        if let Some(j) = old_head {
            assert(link_ok(old(self).slots@, order0, 0));
            self.set_newer(j, Some(i));
        } else {
            self.oldest = Some(i);
        }
        self.newest = Some(i);
        self.order = Ghost(seq![i] + order0);
        proof {
            let order1 = self.order@;
            assert forall|m: int| 0 <= m < order1.len() implies #[trigger] link_ok(self.slots@, order1, m) by {
                if m > 0 {
                    assert(link_ok(old(self).slots@, order0, m - 1));
                    assert(order1[m] == order0[m - 1]);
                    assert(order0.contains(order0[m - 1]));
                    assert(order0[m - 1] != i);
                }
            }
            assert(order1.no_duplicates());
        }
    }

    /// The block's data, promoted to most-recently-used.
    pub fn get(&mut self, block_start: u64) -> (r: Option<Arc<Vec<u8>>>)
        requires
            old(self).wf(),
        ensures
            final(self).wf(),
            final(self).slots_allocated() == old(self).slots_allocated(),
            match r {
                Some(data) => held(old(self)@, block_start) && data@ == held_data(
                    old(self)@,
                    block_start,
                ) && final(self)@ == promoted(old(self)@, block_start),
                None => !held(old(self)@, block_start) && final(self)@ == old(self)@,
            },
    {
        proof {
            self.lemma_index_agrees();
        }
        let i: usize = match self.index.get(&block_start) {
            Some(i) => *i,
            None => {
                return None;
            },
        };
        let ghost k = self.order@.index_of(i);
        assert(self.slots@[i as int] is Some);
        assert(self.order@[k] == i);
        assert(self@[k].0 == block_start);
        let mut found: Option<Arc<Vec<u8>>> = None;
        if let Some(n) = &self.slots[i] {
            found = Some(n.data.clone());
        }
        proof {
            lemma_without_is_remove(self@, k);
        }
        if self.newest != Some(i) {
            self.unlink(i);
            let ghost mid = *self;
            assert(!self.order@.contains(i)) by {
                if self.order@.contains(i) {
                    let q = self.order@.index_of(i);
                    let p = if q < k { q } else { q + 1 };
                    assert(self.order@[q] == old(self).order@[p]);
                }
            }
            self.link_newest(i);
            proof {
                self.lemma_moved_to_front(*old(self), k);
            }
        } else {
            assert(link_ok(self.slots@, self.order@, 0));
            assert(k == 0);
            assert(promoted(self@, block_start) =~= self@);
        }
        found
    }

    /// What a node's move to the front leaves.
    proof fn lemma_moved_to_front(&self, was: Lru, k: int)
        requires
            was.wf(),
            0 <= k < was.order@.len(),
            same_payload(was.slots@, self.slots@),
            self.free == was.free,
            self.index == was.index,
            self.order@ == seq![was.order@[k]] + was.order@.remove(k),
            chained(self.slots@, self.order@, self.newest, self.oldest),
        ensures
            self.wf(),
            self@ == promoted(was@, was@[k].0),
    {
        was.lemma_index_agrees();
        lemma_without_is_remove(was@, k);
        assert forall|m: int| 0 <= m < self.order@.len() implies link_ok(
            was.slots@,
            was.order@,
            if m == 0 {
                k
            } else if m <= k {
                m - 1
            } else {
                m
            },
        ) && self.order@[m] == was.order@[if m == 0 {
            k
        } else if m <= k {
            m - 1
        } else {
            m
        }] by {}
        assert forall|j: int| 0 <= j < self.slots@.len() && (
        #[trigger] self.slots@[j]) is Some implies self.order@.contains(j as usize) by {
            assert(was.slots.len() == was.slots@.len());
            assert(was.slots@[j] is Some);
            let p = was.order@.index_of(j as usize);
            assert(was.order@[p] == j);
            let m = if p == k {
                0
            } else if p < k {
                p + 1
            } else {
                p
            };
            assert(self.order@[m] == j);
        }
        assert forall|f: int| 0 <= f < self.free@.len() implies (#[trigger] self.free@[f])
            < self.slots@.len() && self.slots@[self.free@[f] as int] is None by {
            assert(was.slots@[was.free@[f] as int] is None);
        }
        assert(self@ =~= promoted(was@, was@[k].0));
    }

    /// Drop one block if it is held. Returns whether it was.
    pub fn remove(&mut self, block_start: u64) -> (r: bool)
        requires
            old(self).wf(),
        ensures
            final(self).wf(),
            r == held(old(self)@, block_start),
            final(self)@ == without(old(self)@, block_start),
            final(self).slots_allocated() == old(self).slots_allocated(),
    {
        proof {
            self.lemma_index_agrees();
        }
        let i: usize = match self.index.remove(&block_start) {
            Some(i) => i,
            None => {
                proof {
                    assert(self.index@ =~= old(self).index@);
                    lemma_without_absent(old(self)@, block_start);
                    assert(self@ =~= old(self)@);
                }
                return false;
            },
        };
        let ghost k = self.order@.index_of(i);
        assert(self.slots@[i as int] is Some);
        assert(self.order@[k] == i);
        assert(old(self)@[k].0 == block_start);
        self.unlink(i);
        let ghost apart = *self;
        self.slots[i] = None;
        self.free.push(i);
        proof {
            let was = *old(self);
            lemma_without_is_remove(was@, k);
            assert forall|m: int| 0 <= m < self.order@.len() implies self.order@[m] == was.order@[if m
                < k {
                m
            } else {
                m + 1
            }] && self.order@[m] != i by {
                let p = if m < k { m } else { m + 1 };
                assert(was.order@[p] != was.order@[k]);
            }
            assert forall|m: int| 0 <= m < self.order@.len() implies #[trigger] link_ok(
                self.slots@,
                self.order@,
                m,
            ) && link_ok(was.slots@, was.order@, if m < k { m } else { m + 1 }) by {
                assert(link_ok(apart.slots@, apart.order@, m));
            }
            assert forall|j: int| 0 <= j < self.slots@.len() && (
            #[trigger] self.slots@[j]) is Some implies self.order@.contains(j as usize) by {
                assert(was.slots.len() == was.slots@.len());
                assert(was.slots@[j] is Some);
                let p = was.order@.index_of(j as usize);
                assert(was.order@[p] == j);
                let m = if p < k { p } else { p - 1 };
                assert(self.order@[m] == j);
            }
            assert forall|f: int| 0 <= f < self.free@.len() implies (#[trigger] self.free@[f])
                < self.slots@.len() && self.slots@[self.free@[f] as int] is None by {
                if f < was.free@.len() {
                    assert(was.slots@[was.free@[f] as int] is None);
                }
            }
            assert(self.free@.no_duplicates()) by {
                assert forall|f: int, g: int|
                    0 <= f < self.free@.len() && 0 <= g < self.free@.len() && f
                        != g implies self.free@[f] != self.free@[g] by {
                    if f < was.free@.len() {
                        assert(was.slots@[was.free@[f] as int] is None);
                    }
                    if g < was.free@.len() {
                        assert(was.slots@[was.free@[g] as int] is None);
                    }
                }
            }
            assert forall|m: int| 0 <= m < self.order@.len() implies self.index@.contains_key(
                self.slots@[(#[trigger] self.order@[m]) as int]->0.block_start,
            ) && self.index@[self.slots@[self.order@[m] as int]->0.block_start]
                == self.order@[m] by {
                let p = if m < k { m } else { m + 1 };
                assert(was@[p].0 != was@[k].0);
                assert(was.slots@[was.order@[p] as int] is Some);
            }
            assert(self@ =~= was@.remove(k));
        }
        true
    }

    /// Insert at the head, evicting the least recently used first if the cache is already at
    /// `capacity`. A block that is already held is replaced.
    pub fn insert(&mut self, block_start: u64, data: Arc<Vec<u8>>, capacity: usize)
        requires
            old(self).wf(),
        ensures
            final(self).wf(),
            final(self)@ == inserted(old(self)@, block_start, data@, capacity as nat),
            final(self).slots_allocated() == if old(self).slots_allocated() > final(self)@.len() {
                old(self).slots_allocated()
            } else {
                final(self)@.len()
            },
    {
        let ghost was = *self;
        self.remove(block_start);
        proof {
            was.lemma_index_agrees();
            self.lemma_index_agrees();
            if held(was@, block_start) {
                let k = choose|k: int| 0 <= k < was@.len() && (#[trigger] was@[k]).0 == block_start;
                lemma_without_is_remove(was@, k);
                assert forall|m: int| 0 <= m < self@.len() implies (#[trigger] self@[m]).0
                    != block_start by {
                    let p = if m < k { m } else { m + 1 };
                    assert(self@[m] == was@[p]);
                    assert(was@[p].0 != was@[k].0);
                }
            } else {
                lemma_without_absent(was@, block_start);
            }
            assert(!held(self@, block_start));
        }
        let ghost rest = self@;
        if self.len() >= capacity {
            if let Some(oldest) = self.oldest {
                assert(link_ok(self.slots@, self.order@, self.order@.len() - 1));
                let mut victim: u64 = block_start;
                if let Some(n) = &self.slots[oldest] {
                    victim = n.block_start;
                }
                assert(rest[rest.len() - 1].0 == victim);
                self.remove(victim);
                proof {
                    lemma_without_is_remove(rest, rest.len() - 1);
                    assert(rest.remove(rest.len() - 1) =~= rest.drop_last());
                }
            }
        }
        assert(self@ == evicted(rest, capacity as nat));
        assert(!held(self@, block_start)) by {
            if held(self@, block_start) {
                let m = choose|m: int| 0 <= m < self@.len() && (#[trigger] self@[m]).0 == block_start;
                assert(rest[m].0 == block_start);
            }
        }
        let ghost mid = *self;
        let ghost payload = data@;
        proof {
            self.lemma_index_agrees();
        }
        let node = Node { block_start, data, newer: None, older: None };
        let i: usize = match self.free.pop() {
            Some(i) => {
                assert(i == mid.free@[mid.free@.len() - 1]);
                assert(mid.slots@[i as int] is None);
                self.slots[i] = Some(node);
                i
            },
            None => {
                self.slots.push(Some(node));
                self.slots.len() - 1
            },
        };
        self.index.insert(block_start, i);
        proof {
            assert(!mid.order@.contains(i)) by {
                if mid.order@.contains(i) {
                    let m = mid.order@.index_of(i);
                    assert(link_ok(mid.slots@, mid.order@, m));
                }
            }
            assert forall|m: int| 0 <= m < mid.order@.len() implies mid.order@[m] != i by {
                assert(mid.order@.contains(mid.order@[m]));
            }
            assert forall|m: int| 0 <= m < self.order@.len() implies #[trigger] link_ok(
                self.slots@,
                self.order@,
                m,
            ) by {
                assert(link_ok(mid.slots@, mid.order@, m));
            }
        }
        let ghost spare = *self;
        self.link_newest(i);
        proof {
            self.lemma_put_in_front(mid, spare.slots@, i, block_start, payload);
        }
    }

    /// What a new node at the front of `mid` leaves.
    proof fn lemma_put_in_front(
        &self,
        mid: Lru,
        spare: Seq<Option<Node>>,
        i: usize,
        block: u64,
        data: Seq<u8>,
    )
        requires
            mid.wf(),
            !held(mid@, block),
            i < spare.len(),
            spare[i as int] is Some,
            spare[i as int]->0.block_start == block,
            spare[i as int]->0.data@ == data,
            ({
                ||| {
                    &&& mid.free@.len() > 0
                    &&& i == mid.free@.last()
                    &&& spare == mid.slots@.update(i as int, spare[i as int])
                    &&& self.free@ == mid.free@.drop_last()
                }
                ||| {
                    &&& mid.free@.len() == 0
                    &&& i == mid.slots@.len()
                    &&& spare == mid.slots@.push(spare[i as int])
                    &&& self.free@ == mid.free@
                }
            }),
            same_payload(spare, self.slots@),
            self.order@ == seq![i] + mid.order@,
            chained(self.slots@, self.order@, self.newest, self.oldest),
            self.index@ == mid.index@.insert(block, i),
        ensures
            self.wf(),
            self@ == seq![(block, data)] + mid@,
            self.slots_allocated() == if mid.slots_allocated() > self@.len() {
                mid.slots_allocated()
            } else {
                self@.len()
            },
    {
        mid.lemma_index_agrees();
        if mid.free@.len() > 0 {
            assert(mid.slots@[mid.free@[mid.free@.len() - 1] as int] is None);
        }
        assert forall|m: int| 0 <= m < mid.order@.len() implies mid.order@[m] != i
            && mid.order@[m] < mid.slots@.len() && #[trigger] mid.slots@[mid.order@[m] as int] is Some
            && self.order@[m + 1] == mid.order@[m] by {
            assert(link_ok(mid.slots@, mid.order@, m));
        }
        assert forall|j: int| 0 <= j < self.slots@.len() && (
        #[trigger] self.slots@[j]) is Some implies self.order@.contains(j as usize) by {
            assert(self.slots.len() == self.slots@.len());
            assert(spare[j] is Some);
            if j == i {
                assert(self.order@[0] == j);
            } else {
                assert(mid.slots@[j] is Some);
                let m = mid.order@.index_of(j as usize);
                assert(mid.order@[m] == j);
                assert(mid.slots@[mid.order@[m] as int] is Some);
                assert(self.order@[m + 1] == j);
            }
        }
        assert forall|f: int| 0 <= f < self.free@.len() implies (#[trigger] self.free@[f])
            < self.slots@.len() && self.slots@[self.free@[f] as int] is None by {
            assert(mid.free@[f] == self.free@[f]);
            assert(mid.slots@[mid.free@[f] as int] is None);
            assert(self.free@[f] != i);
            assert(spare[self.free@[f] as int] is None);
        }
        assert(!mid.index@.contains_key(block));
        assert forall|m: int| 0 <= m < self.order@.len() implies self.index@.contains_key(
            self.slots@[(#[trigger] self.order@[m]) as int]->0.block_start,
        ) && self.index@[self.slots@[self.order@[m] as int]->0.block_start] == self.order@[m]
            && self@[m] == (seq![(block, data)] + mid@)[m] by {
            if m == 0 {
                assert(spare[self.order@[0] as int] is Some);
            } else {
                assert(mid.slots@[mid.order@[m - 1] as int] is Some);
                assert(spare[mid.order@[m - 1] as int] == mid.slots@[mid.order@[m - 1] as int]);
                assert(mid@[m - 1].0 != block);
            }
        }
        assert forall|b: u64| #[trigger] self.index@.contains_key(b) implies self.index@[b]
            < self.slots@.len() && self.slots@[self.index@[b] as int] is Some
            && self.slots@[self.index@[b] as int]->0.block_start == b by {
            if b != block {
                assert(mid.index@.contains_key(b));
                assert(mid.index@[b] != i);
                assert(spare[mid.index@[b] as int] == mid.slots@[mid.index@[b] as int]);
            } else {
                assert(spare[i as int] is Some);
            }
        }
        assert(self@ =~= seq![(block, data)] + mid@);
    }

    /// Drop every block.
    pub fn clear(&mut self)
        ensures
            final(self).wf(),
            final(self)@ == Seq::<(u64, Seq<u8>)>::empty(),
            final(self).slots_allocated() == 0,
    {
        self.slots.clear();
        self.free.clear();
        self.index.clear();
        self.newest = None;
        self.oldest = None;
        self.order = Ghost(Seq::empty());
        assert(self@ =~= Seq::<(u64, Seq<u8>)>::empty());
    }

    /// The blocks held, most-recently-used first.
    pub fn recency_order(&self) -> (r: Vec<u64>)
        requires
            self.wf(),
        ensures
            r@ == blocks_of(self@),
    {
        let mut out: Vec<u64> = Vec::new();
        let mut cur = self.newest;
        let ghost mut k: int = 0;
        while cur.is_some()
            invariant
                self.wf(),
                0 <= k <= self.order@.len(),
                cur == if k < self.order@.len() {
                    Some(self.order@[k])
                } else {
                    None
                },
                out@ =~= blocks_of(self@).take(k),
            decreases self.order@.len() - k,
        {
            assert(link_ok(self.slots@, self.order@, k));
            if let Some(i) = cur {
                if let Some(n) = &self.slots[i] {
                    out.push(n.block_start);
                    cur = n.older;
                }
            }
            proof {
                k = k + 1;
            }
        }
        assert(out@ =~= blocks_of(self@));
        out
    }

    /// The blocks held, least-recently-used first, walked from the eviction end.
    pub fn recency_order_reversed(&self) -> (r: Vec<u64>)
        requires
            self.wf(),
        ensures
            r@ == blocks_of(self@).reverse(),
    {
        let mut out: Vec<u64> = Vec::new();
        let mut cur = self.oldest;
        let ghost mut k: int = self.order@.len() as int;
        while cur.is_some()
            invariant
                self.wf(),
                0 <= k <= self.order@.len(),
                cur == if k > 0 {
                    Some(self.order@[k - 1])
                } else {
                    None
                },
                out@ =~= blocks_of(self@).skip(k).reverse(),
            decreases k,
        {
            assert(link_ok(self.slots@, self.order@, k - 1));
            if let Some(i) = cur {
                if let Some(n) = &self.slots[i] {
                    out.push(n.block_start);
                    cur = n.newer;
                }
            }
            proof {
                k = k - 1;
            }
        }
        assert(blocks_of(self@).skip(0) =~= blocks_of(self@));
        out
    }

    /// Drop every block for which `keep` is false.
    pub fn retain_blocks(&mut self, keep: impl Fn(u64) -> bool)
        requires
            old(self).wf(),
            forall|b: u64| call_requires(keep, (b,)),
        ensures
            final(self).wf(),
            final(self).slots_allocated() == old(self).slots_allocated(),
            exists|kept: spec_fn(u64) -> bool|
                {
                    &&& forall|k: int|
                        0 <= k < old(self)@.len() ==> call_ensures(
                            keep,
                            ((#[trigger] old(self)@[k]).0,),
                            kept(old(self)@[k].0),
                        )
                    &&& final(self)@ == old(self)@.filter(#[trigger] picked(kept))
                },
    {
        let order = self.recency_order();
        let ghost was = self@;
        let ghost mut kept: spec_fn(u64) -> bool = |b: u64| true;
        proof {
            self.lemma_index_agrees();
            assert(was.take(0).filter(picked(kept)) =~= Seq::<(u64, Seq<u8>)>::empty()) by {
                reveal(Seq::filter);
            }
            assert(self@ =~= was.take(0).filter(picked(kept)) + was.skip(0));
        }
        let mut j: usize = 0;
        while j < order.len()
            invariant
                self.wf(),
                self.slots_allocated() == old(self).slots_allocated(),
                order@ == blocks_of(was),
                distinct_blocks(was),
                forall|b: u64| call_requires(keep, (b,)),
                0 <= j <= order@.len(),
                self@ == was.take(j as int).filter(picked(kept)) + was.skip(j as int),
                forall|k: int|
                    0 <= k < j ==> call_ensures(
                        keep,
                        ((#[trigger] was[k]).0,),
                        kept(was[k].0),
                    ),
            decreases order@.len() - j,
        {
            let b: u64 = order[j];
            let ans = keep(b);
            let ghost before = kept;
            proof {
                kept = |x: u64| if x == b { ans } else { before(x) };
                assert forall|k: int| 0 <= k < was.take(j as int).len() implies picked(before)(
                    #[trigger] was.take(j as int)[k],
                ) == picked(kept)(was.take(j as int)[k]) by {
                    assert(was.take(j as int)[k] == was[k]);
                    assert(was[k].0 != was[j as int].0);
                }
                lemma_filter_agree(was.take(j as int), picked(before), picked(kept));
                let head = was.take(j as int);
                assert(was.take(j + 1) =~= head.push(was[j as int]));
                assert(was.take(j + 1).filter(picked(kept)) == if ans {
                    head.filter(picked(kept)).push(was[j as int])
                } else {
                    head.filter(picked(kept))
                }) by {
                    reveal(Seq::filter);
                    assert(was.take(j + 1).drop_last() =~= head);
                }
                assert(was.skip(j as int) =~= seq![was[j as int]] + was.skip(j + 1));
                let p = head.filter(picked(kept)).len() as int;
                assert(self@[p] == was[j as int]);
                self.lemma_index_agrees();
                lemma_without_is_remove(self@, p);
                if ans {
                    assert(self@ =~= was.take(j + 1).filter(picked(kept)) + was.skip(j + 1));
                } else {
                    assert(self@.remove(p) =~= was.take(j + 1).filter(picked(kept)) + was.skip(
                        j + 1,
                    ));
                }
            }
            if !ans {
                self.remove(b);
            }
            j = j + 1;
        }
        assert(was.take(j as int) =~= was);
        assert(self@ =~= was.filter(picked(kept)));
    }
}

/// The recency order names each entry's block, in the order of the entries, and what is held for
/// a block is what its entry holds.
pub proof fn entries_are_named_in_order(entries: Seq<(u64, Seq<u8>)>, k: int)
    requires
        distinct_blocks(entries),
        0 <= k < entries.len(),
    ensures
        blocks_of(entries).len() == entries.len(),
        blocks_of(entries)[k] == entries[k].0,
        held(entries, entries[k].0),
        held_data(entries, entries[k].0) == entries[k].1,
{
    lemma_without_is_remove(entries, k);
}

} // verus!
