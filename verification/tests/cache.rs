use fs_core::cache_state::{CacheState, Lookup};
use fs_core::caching_device::{
    answer_unasked, resize_sweep_start, write_sweep_end, CachingDevice, MAX_BLOCK_SIZE,
};
use fs_core::counting_device::CountingDevice;
use fs_core::lru::Lru;
use fs_core::test_device::{range_within, read_into, Bytes};
use fs_core::{BlockDevice, BlockRead, Error, OwnedRwSlice, ReadOnlyDevice};
use std::sync::atomic::{AtomicU64, AtomicUsize, Ordering};
use std::sync::{Arc, Mutex};

const BS: u64 = 512;

/// One device behind several handles.
struct Shared<T>(Arc<Mutex<T>>);

impl<T> Shared<T> {
    fn new(inner: T) -> Self {
        Shared(Arc::new(Mutex::new(inner)))
    }
}

impl<T> Clone for Shared<T> {
    fn clone(&self) -> Self {
        Shared(self.0.clone())
    }
}

impl<T: BlockRead> BlockRead for Shared<T> {
    fn read_at(&mut self, offset: u64, buf: &mut [u8]) -> Result<(), Error> {
        self.0.lock().unwrap().read_at(offset, buf)
    }
    fn size_bytes(&self) -> u64 {
        self.0.lock().unwrap().size_bytes()
    }
}

impl<T: BlockDevice> BlockDevice for Shared<T> {
    fn write_at(&mut self, offset: u64, buf: &[u8]) -> Result<(), Error> {
        self.0.lock().unwrap().write_at(offset, buf)
    }
    fn flush(&mut self) -> Result<(), Error> {
        self.0.lock().unwrap().flush()
    }
    fn is_writable(&self) -> bool {
        self.0.lock().unwrap().is_writable()
    }
    fn set_len(&mut self, new_len: u64) -> Result<(), Error> {
        self.0.lock().unwrap().set_len(new_len)
    }
    fn can_grow(&self) -> bool {
        self.0.lock().unwrap().can_grow()
    }
}

/// Bytes that count the reads and writes that reach them, and can be resized.
struct Mem {
    bytes: Vec<u8>,
    read_calls: u64,
    writes: u64,
    flushes: u64,
}

impl Mem {
    fn new(bytes: Vec<u8>) -> Self {
        Self {
            bytes,
            read_calls: 0,
            writes: 0,
            flushes: 0,
        }
    }
}

impl BlockRead for Mem {
    fn read_at(&mut self, offset: u64, buf: &mut [u8]) -> Result<(), Error> {
        self.read_calls += 1;
        read_into(&self.bytes, offset, buf)
    }
    fn size_bytes(&self) -> u64 {
        self.bytes.len() as u64
    }
}

impl BlockDevice for Mem {
    fn write_at(&mut self, offset: u64, buf: &[u8]) -> Result<(), Error> {
        self.writes += 1;
        let (start, end) = range_within(self.bytes.len(), offset, buf.len())?;
        self.bytes[start..end].copy_from_slice(buf);
        Ok(())
    }
    fn flush(&mut self) -> Result<(), Error> {
        self.flushes += 1;
        Ok(())
    }
    fn is_writable(&self) -> bool {
        true
    }
    fn set_len(&mut self, new_len: u64) -> Result<(), Error> {
        self.bytes.resize(new_len as usize, 0);
        Ok(())
    }
    fn can_grow(&self) -> bool {
        true
    }
}

fn backing() -> Bytes {
    Bytes::new((0..4096u32).map(|i| i as u8).collect())
}

fn pattern(len: usize) -> Vec<u8> {
    (0..len).map(|i| (i % 251) as u8).collect()
}

#[test]
fn a_read_only_device_can_be_cached() {
    let mut cache = CachingDevice::read_only(backing(), BS, 4);

    let mut first = vec![0u8; BS as usize];
    let mut again = vec![0u8; BS as usize];
    cache.read_at(0, &mut first).expect("first read");
    cache.read_at(0, &mut again).expect("second read");

    assert_eq!(first, again, "the cache must serve what the device held");
    assert_eq!(cache.stats(), (1, 1), "one hit after one miss");
}

#[test]
fn a_read_smaller_than_a_block_is_served_from_it() {
    let mut cache = CachingDevice::read_only(backing(), BS, 8);

    let mut whole = vec![0u8; BS as usize];
    cache.read_at(0, &mut whole).expect("warm the block");
    assert_eq!(cache.stats(), (0, 1), "one miss to fetch it");

    for at in [0u64, 8, 100, 504] {
        let mut small = [0u8; 8];
        cache.read_at(at, &mut small).expect("sub-block read");
        assert_eq!(
            &small[..],
            &whole[at as usize..at as usize + 8],
            "the bytes must be the block's own, at the right offset"
        );
    }
    assert_eq!(cache.stats(), (4, 1), "four hits, and no further misses");
}

#[test]
fn a_read_spanning_two_blocks_is_stitched() {
    let mut inner = backing();
    let mut direct = vec![0u8; 16];
    inner.read_at(BS - 8, &mut direct).expect("read it plainly");

    let mut cache = CachingDevice::read_only(backing(), BS, 8);
    let mut across = vec![0u8; 16];
    cache.read_at(BS - 8, &mut across).expect("spanning read");

    assert_eq!(across, direct, "the same bytes the device would give");
    assert_eq!(cache.stats(), (0, 2), "one miss per block touched");

    cache.read_at(BS - 8, &mut across).expect("again");
    assert_eq!(cache.stats(), (2, 2), "and both are held now");
}

#[test]
fn a_read_that_would_sweep_the_cache_passes_through() {
    let mut cache = CachingDevice::read_only(backing(), BS, 4);
    let mut big = vec![0u8; (BS * 4) as usize];
    cache.read_at(0, &mut big).expect("a large read");
    assert_eq!(
        cache.stats(),
        (0, 0),
        "neither hit nor miss: it never consulted the cache"
    );
    assert_eq!(big, backing().0[..big.len()]);
}

#[test]
fn a_read_of_half_the_cache_is_still_cached() {
    let mut cache = CachingDevice::read_only(backing(), BS, 4);
    let mut two = vec![0u8; (BS * 2) as usize];
    cache.read_at(0, &mut two).expect("two blocks of four");
    assert_eq!(cache.stats(), (0, 2));
    let mut three = vec![0u8; (BS * 3) as usize];
    cache.read_at(0, &mut three).expect("three blocks of four");
    assert_eq!(cache.stats(), (0, 2), "three of four pass through");
}

#[test]
fn a_device_shorter_than_a_block_still_reads() {
    let tiny = Bytes::new((0..100u32).map(|i| i as u8).collect());
    let mut cache = CachingDevice::read_only(tiny, BS, 4);

    let mut buf = vec![0u8; 40];
    cache
        .read_at(10, &mut buf)
        .expect("a read inside the device");
    assert_eq!(buf[0], 10, "the wrong bytes came back");
    assert_eq!(buf[39], 49);

    cache.read_at(10, &mut buf).expect("again");
    assert_eq!(cache.stats(), (1, 1));
}

#[test]
fn a_read_past_the_end_is_still_an_error() {
    let tiny = Bytes::new(vec![0u8; 100]);
    let mut cache = CachingDevice::read_only(tiny, BS, 4);

    let mut buf = vec![0u8; 40];
    assert!(
        cache.read_at(80, &mut buf).is_err(),
        "80 + 40 is past the end of a 100-byte device"
    );
}

#[test]
fn writing_through_a_read_only_cache_is_refused() {
    let mut cache = CachingDevice::read_only(backing(), BS, 4);
    assert!(!cache.is_writable());
    assert!(matches!(
        cache.write_at(0, &[1u8; 8]),
        Err(Error::ReadOnly)
    ));
    // And flushing is not an error: a caller that flushes defensively must not fail on a volume
    // it never wrote.
    assert!(cache.flush().is_ok());
}

fn block(n: u8) -> Arc<Vec<u8>> {
    Arc::new(vec![n; 4])
}

/// The list has to be walkable both ways and agree with itself.
fn assert_consistent(lru: &Lru) {
    let forward = lru.recency_order();
    let mut backward = lru.recency_order_reversed();
    backward.reverse();
    assert_eq!(
        forward, backward,
        "the recency list disagrees with itself walked the other way"
    );
    assert_eq!(
        forward.len(),
        lru.len(),
        "the list holds {} nodes and the index {} -- they have drifted",
        forward.len(),
        lru.len()
    );
}

#[test]
fn a_hit_promotes_to_most_recently_used() {
    let mut lru = Lru::with_capacity(4);
    for i in 0..4u64 {
        lru.insert(i * 100, block(i as u8), 4);
    }
    assert_eq!(lru.recency_order(), vec![300, 200, 100, 0]);
    assert!(lru.get(100).is_some());
    assert_eq!(lru.recency_order(), vec![100, 300, 200, 0]);
    assert_consistent(&lru);

    // Promoting what is already newest must not corrupt the ends.
    assert!(lru.get(100).is_some());
    assert_eq!(lru.recency_order(), vec![100, 300, 200, 0]);
    assert_consistent(&lru);

    // Nor must promoting the oldest.
    assert!(lru.get(0).is_some());
    assert_eq!(lru.recency_order(), vec![0, 100, 300, 200]);
    assert_consistent(&lru);
}

#[test]
fn the_least_recently_used_is_what_gets_evicted() {
    let mut lru = Lru::with_capacity(3);
    for i in 0..3u64 {
        lru.insert(i * 100, block(i as u8), 3);
    }
    // Touch the oldest so it is no longer the victim.
    assert!(lru.get(0).is_some());
    lru.insert(999, block(9), 3);
    assert_eq!(lru.len(), 3);
    assert_eq!(
        lru.recency_order(),
        vec![999, 0, 200],
        "100 was least recently used and is the one that should be gone"
    );
    assert!(lru.get(100).is_none());
    assert_consistent(&lru);
}

#[test]
fn evicted_slots_are_reused_rather_than_growing_the_slab() {
    let mut lru = Lru::with_capacity(2);
    for i in 0..20u64 {
        lru.insert(i, block(i as u8), 2);
        assert_consistent(&lru);
    }
    assert_eq!(lru.len(), 2);
    assert!(
        lru.slot_count() <= 3,
        "twenty inserts at capacity 2 left {} slots: freed slots are not being \
         reused, so the slab grows without bound",
        lru.slot_count()
    );
}

#[test]
fn a_re_insert_replaces_and_does_not_leave_the_old_node_linked() {
    let mut lru = Lru::with_capacity(4);
    lru.insert(10, block(1), 4);
    lru.insert(20, block(2), 4);
    lru.insert(10, block(3), 4);
    assert_eq!(lru.len(), 1 + 1, "one entry per block, not one per insert");
    assert_eq!(lru.recency_order(), vec![10, 20]);
    assert_eq!(
        lru.get(10).as_deref().map(|v| v[0]),
        Some(3),
        "the newer data wins"
    );
    assert_consistent(&lru);
}

#[test]
fn removing_and_retaining_keep_the_list_consistent() {
    let mut lru = Lru::with_capacity(8);
    for i in 0..8u64 {
        lru.insert(i, block(i as u8), 8);
    }
    assert!(lru.remove(0), "the tail");
    assert_consistent(&lru);
    assert!(lru.remove(7), "the head");
    assert_consistent(&lru);
    assert!(lru.remove(4), "the middle");
    assert_consistent(&lru);
    assert!(!lru.remove(4), "already gone");

    lru.retain_blocks(|b| b % 2 == 0);
    assert_consistent(&lru);
    assert_eq!(lru.recency_order(), vec![6, 2]);

    lru.clear();
    assert_eq!(lru.len(), 0);
    assert!(lru.recency_order().is_empty());
    assert_consistent(&lru);
}

#[test]
fn capacity_zero_behaves_as_it_did_before() {
    let mut lru = Lru::with_capacity(0);
    lru.insert(1, block(1), 0);
    assert_eq!(lru.len(), 1);
    lru.insert(2, block(2), 0);
    assert_eq!(lru.len(), 1);
    assert_eq!(lru.recency_order(), vec![2]);
    assert_consistent(&lru);
}

#[test]
fn caching_device_caches_repeated_reads() {
    let bytes = (0u8..=255u8).cycle().take(64 * 1024).collect::<Vec<_>>();
    let inner = Shared::new(Mem::new(bytes.clone()));
    let mut dev = CachingDevice::new(inner.clone(), 4096, 4);

    let mut buf = vec![0u8; 4096];
    dev.read_at(0, &mut buf).unwrap();
    assert_eq!(&buf, &bytes[0..4096]);
    dev.read_at(0, &mut buf).unwrap();
    dev.read_at(0, &mut buf).unwrap();

    assert_eq!(inner.0.lock().unwrap().read_calls, 1);
    let (hits, misses) = dev.stats();
    assert_eq!((hits, misses), (2, 1));
}

#[test]
fn caching_device_invalidates_on_write() {
    let inner = Shared::new(Mem::new(vec![0u8; 8192]));
    let mut dev = CachingDevice::new(inner, 4096, 4);

    let mut buf = vec![0u8; 4096];
    dev.read_at(0, &mut buf).unwrap();
    dev.write_at(0, &[0xABu8; 4096]).unwrap();
    dev.read_at(0, &mut buf).unwrap();
    assert_eq!(buf[0], 0xAB);

    let (hits, misses) = dev.stats();
    assert_eq!(hits, 0);
    assert_eq!(misses, 2);
}

#[test]
fn a_zero_block_size_is_refused_rather_than_divided_by() {
    let mut cache = CachingDevice::read_only(backing(), 0, 4);
    let mut buf = [0u8; 8];
    let result = cache.read_at(0, &mut buf);
    assert!(
        result.is_err(),
        "a zero block size must be refused, not divided by; got {result:?}"
    );
    assert_eq!(result.unwrap_err().message(), "cache block size is zero");
}

#[test]
fn an_absurd_block_size_is_refused_rather_than_allocated_for() {
    let mut cache = CachingDevice::read_only(backing(), 1 << 40, 4);
    let mut buf = [0u8; 8];
    let result = cache.read_at(0, &mut buf);
    assert!(
        result.is_err(),
        "a block size no device could justify must be refused; got {result:?}"
    );
    assert_eq!(
        result.unwrap_err().message(),
        "cache block size 1099511627776 exceeds the 67108864-byte ceiling"
    );
}

#[test]
fn an_ordinary_block_size_still_works() {
    let small = Bytes::new(vec![0xAB; 4096]);
    let mut cache = CachingDevice::read_only(small, 128 * 1024, 4);
    let mut buf = [0u8; 8];
    cache
        .read_at(0, &mut buf)
        .expect("128 KiB blocks over a 4 KiB image");
    assert_eq!(buf, [0xAB; 8]);
}

#[test]
fn a_zero_block_size_refuses_a_write_before_it_reaches_the_device() {
    let dev = Shared::new(Mem::new(vec![0xAA; 64]));
    let mut cache = CachingDevice::new(dev.clone(), 0, 4);

    let result = cache.write_at(0, &[0xBB; 8]);

    assert!(
        result.is_err(),
        "a zero block size must refuse a write; got {result:?}"
    );
    assert_eq!(
        dev.0.lock().unwrap().writes,
        0,
        "the refusal must happen before the device is reached"
    );
    assert_eq!(
        dev.0.lock().unwrap().bytes,
        vec![0xAA; 64],
        "and nothing may have been written"
    );
}

#[test]
fn an_ordinary_block_size_still_writes() {
    let dev = Shared::new(Mem::new(vec![0xAA; 64]));
    let mut cache = CachingDevice::new(dev.clone(), 16, 4);

    cache.write_at(0, &[0xBB; 8]).expect("an ordinary write");

    assert_eq!(dev.0.lock().unwrap().writes, 1);
    assert_eq!(&dev.0.lock().unwrap().bytes[..8], &[0xBB; 8]);
}

#[test]
fn a_read_only_cache_refuses_a_write_with_read_only_whatever_the_block_size() {
    for block_size in [0u64, MAX_BLOCK_SIZE + 1] {
        let mut cache = CachingDevice::read_only(Mem::new(vec![0xAA; 64]), block_size, 4);
        let result = cache.write_at(0, &[0xBB; 8]);
        assert!(
            matches!(result, Err(Error::ReadOnly)),
            "a read-only cache with block size {block_size} must refuse a write \
             with ReadOnly, or an io consumer sees Other instead of \
             PermissionDenied; got {result:?}"
        );
    }
}

#[test]
fn a_writable_cache_with_a_bad_block_size_still_reports_the_block_size() {
    for block_size in [0u64, MAX_BLOCK_SIZE + 1] {
        let dev = Shared::new(Mem::new(vec![0xAA; 64]));
        let mut cache = CachingDevice::new(dev.clone(), block_size, 4);
        let result = cache.write_at(0, &[0xBB; 8]);
        assert!(
            matches!(result, Err(Error::Custom(_))),
            "a WRITABLE cache with block size {block_size} must report the block \
             size, not claim the device is read-only; got {result:?}"
        );
        assert_eq!(
            dev.0.lock().unwrap().writes,
            0,
            "and still nothing may reach the device"
        );
    }
}

#[test]
fn a_write_refused_on_a_read_only_cache_does_not_empty_the_cache() {
    let dev = Shared::new(Mem::new(vec![0xAA; 64]));
    let mut cache = CachingDevice::read_only(dev.clone(), 16, 4);
    let mut buf = [0u8; 8];

    cache.read_at(0, &mut buf).expect("prime the entry");
    let primed = dev.0.lock().unwrap().read_calls;
    assert!(primed > 0, "priming must have reached the device");

    cache.read_at(0, &mut buf).expect("served from the cache");
    assert_eq!(
        dev.0.lock().unwrap().read_calls,
        primed,
        "the second read must be a hit, or this test cannot tell a surviving \
         entry from an absent one"
    );

    let refused = cache.write_at(0, &[0xBB; 8]);
    assert!(
        matches!(refused, Err(Error::ReadOnly)),
        "the write must be refused; got {refused:?}"
    );

    cache.read_at(0, &mut buf).expect("still cached");
    assert_eq!(
        dev.0.lock().unwrap().read_calls,
        primed,
        "a refused write swept the cache: the entry had to be fetched again, \
         though the write it was swept for never reached the device"
    );
    assert_eq!(buf, [0xAA; 8], "and the bytes are the device's own");
}

fn populate<D: BlockRead>(cache: &mut CachingDevice<D>, block_size: u64, block_indices: &[u64]) {
    let mut buf = vec![0u8; block_size as usize];
    for &i in block_indices {
        cache.read_at(i * block_size, &mut buf).unwrap();
    }
}

#[test]
fn write_spanning_two_blocks_invalidates_both() {
    let bs = 4096u64;
    let mut cache = CachingDevice::new(Mem::new(vec![0u8; 8 * bs as usize]), bs, 8);

    populate(&mut cache, bs, &[0, 1, 2]);
    let (h0, m0) = cache.stats();
    assert_eq!((h0, m0), (0, 3));

    let write_offset = bs - 8;
    cache.write_at(write_offset, &[0xFFu8; 32]).unwrap();

    let mut buf = vec![0u8; bs as usize];
    cache.read_at(0, &mut buf).unwrap(); // miss
    cache.read_at(bs, &mut buf).unwrap(); // miss
    cache.read_at(2 * bs, &mut buf).unwrap(); // hit

    let (h, m) = cache.stats();
    assert_eq!((h - h0, m - m0), (1, 2));
}

#[test]
fn write_spanning_three_blocks_invalidates_all_three() {
    let bs = 1024u64;
    let mut cache = CachingDevice::new(Mem::new(vec![0u8; 16 * bs as usize]), bs, 8);

    populate(&mut cache, bs, &[0, 1, 2, 3, 4]);
    let (h0, m0) = cache.stats();
    assert_eq!((h0, m0), (0, 5));

    let write_offset = bs + 100;
    let write_len = (bs * 2 + 200) as usize;
    cache
        .write_at(write_offset, &vec![0xAAu8; write_len])
        .unwrap();

    let mut buf = vec![0u8; bs as usize];
    cache.read_at(0, &mut buf).unwrap(); // hit (block 0 untouched)
    cache.read_at(4 * bs, &mut buf).unwrap(); // hit (block 4 untouched)
    cache.read_at(bs, &mut buf).unwrap(); // miss (block 1 invalidated)
    cache.read_at(2 * bs, &mut buf).unwrap(); // miss (block 2)
    cache.read_at(3 * bs, &mut buf).unwrap(); // miss (block 3)

    let (h, m) = cache.stats();
    assert_eq!((h - h0, m - m0), (2, 3));
}

#[test]
fn write_entirely_outside_any_cached_block_leaves_cache_intact() {
    let bs = 512u64;
    let mut cache = CachingDevice::new(Mem::new(vec![0u8; 16 * bs as usize]), bs, 8);

    populate(&mut cache, bs, &[0, 1, 2]);
    let (h0, m0) = cache.stats();

    cache.write_at(8 * bs, &[0xFFu8; 16]).unwrap();

    let mut buf = vec![0u8; bs as usize];
    cache.read_at(0, &mut buf).unwrap(); // hit
    cache.read_at(bs, &mut buf).unwrap(); // hit
    cache.read_at(2 * bs, &mut buf).unwrap(); // hit

    let (h, m) = cache.stats();
    assert_eq!((h - h0, m - m0), (3, 0));
}

#[test]
fn write_exactly_at_block_boundary_invalidates_only_that_block() {
    let bs = 4096u64;
    let mut cache = CachingDevice::new(Mem::new(vec![0u8; 8 * bs as usize]), bs, 8);

    populate(&mut cache, bs, &[0, 1, 2]);
    let (h0, m0) = cache.stats();

    cache.write_at(bs, &vec![0x55u8; bs as usize]).unwrap();

    let mut buf = vec![0u8; bs as usize];
    cache.read_at(0, &mut buf).unwrap(); // hit
    cache.read_at(2 * bs, &mut buf).unwrap(); // hit
    cache.read_at(bs, &mut buf).unwrap(); // miss (was invalidated)

    let (h, m) = cache.stats();
    assert_eq!((h - h0, m - m0), (2, 1));
}

#[test]
fn write_touching_only_the_end_byte_of_a_block_still_invalidates() {
    let bs = 1024u64;
    let mut cache = CachingDevice::new(Mem::new(vec![0u8; 8 * bs as usize]), bs, 8);

    populate(&mut cache, bs, &[0, 1]);
    let (h0, m0) = cache.stats();

    cache.write_at(bs - 1, &[0xFFu8; 1]).unwrap();

    let mut buf = vec![0u8; bs as usize];
    cache.read_at(bs, &mut buf).unwrap(); // hit
    cache.read_at(0, &mut buf).unwrap(); // miss

    let (h, m) = cache.stats();
    assert_eq!((h - h0, m - m0), (1, 1));
}

#[test]
fn capacity_one_evicts_on_every_new_block() {
    let inner = Shared::new(Mem::new(pattern(16 * 1024)));
    let bs = 4096u64;
    let mut cache = CachingDevice::new(inner.clone(), bs, 1);

    let mut buf = vec![0u8; bs as usize];
    cache.read_at(0, &mut buf).unwrap(); // miss
    cache.read_at(0, &mut buf).unwrap(); // hit
    cache.read_at(bs, &mut buf).unwrap(); // miss; evicts block 0
    cache.read_at(0, &mut buf).unwrap(); // miss; block 0 was evicted

    let (hits, misses) = cache.stats();
    assert_eq!((hits, misses), (1, 3));
    assert_eq!(inner.0.lock().unwrap().read_calls, 3);
}

#[test]
fn lru_evicts_least_recently_used_not_first_inserted() {
    let bs = 4096u64;
    let mut cache = CachingDevice::new(Mem::new(pattern(64 * 1024)), bs, 2);

    let mut buf = vec![0u8; bs as usize];
    cache.read_at(0, &mut buf).unwrap(); // miss, cache=[0]
    cache.read_at(bs, &mut buf).unwrap(); // miss, cache=[bs, 0]
    cache.read_at(0, &mut buf).unwrap(); // hit, cache=[0, bs]  (0 is now MRU)
    cache.read_at(2 * bs, &mut buf).unwrap(); // miss, evicts bs (LRU), cache=[2bs, 0]
    cache.read_at(0, &mut buf).unwrap(); // hit, still cached
    cache.read_at(bs, &mut buf).unwrap(); // miss, was evicted

    let (hits, misses) = cache.stats();
    assert_eq!((hits, misses), (2, 4));
}

#[test]
fn invalidate_all_clears_cache() {
    let bs = 4096u64;
    let mut cache = CachingDevice::new(Mem::new(pattern(8192)), bs, 4);

    let mut buf = vec![0u8; bs as usize];
    cache.read_at(0, &mut buf).unwrap();
    cache.read_at(0, &mut buf).unwrap();
    let (h1, m1) = cache.stats();
    assert_eq!((h1, m1), (1, 1));

    cache.invalidate_all();
    cache.read_at(0, &mut buf).unwrap(); // miss again

    let (h2, m2) = cache.stats();
    assert_eq!((h2, m2), (1, 2));
}

#[test]
fn write_invalidates_overlapping_cache_blocks() {
    let bs = 4096u64;
    let mut cache = CachingDevice::new(Mem::new(pattern(16 * 1024)), bs, 4);

    let mut buf = vec![0u8; bs as usize];
    cache.read_at(0, &mut buf).unwrap(); // populate block 0
    cache.read_at(bs, &mut buf).unwrap(); // populate block 1
    cache.read_at(2 * bs, &mut buf).unwrap(); // populate block 2

    cache.write_at(100, &[0xFFu8; 32]).unwrap();
    cache.read_at(bs, &mut buf).unwrap(); // hit
    cache.read_at(2 * bs, &mut buf).unwrap(); // hit
    cache.read_at(0, &mut buf).unwrap(); // miss (invalidated)

    let (hits, misses) = cache.stats();
    assert_eq!((hits, misses), (2, 4));
}

#[test]
fn non_aligned_and_partial_reads_go_through_the_cache() {
    let inner = Shared::new(Mem::new(pattern(8192)));
    let bs = 4096u64;
    let mut cache = CachingDevice::new(inner.clone(), bs, 4);

    let mut buf = vec![0u8; bs as usize];
    cache.read_at(123, &mut buf).unwrap();
    assert_eq!(cache.stats(), (0, 2), "two blocks, neither held yet");

    let mut small = vec![0u8; 64];
    cache.read_at(0, &mut small).unwrap();
    assert_eq!(&small[..], &pattern(8192)[0..64]);

    let (hits, misses) = cache.stats();
    assert_eq!((hits, misses), (1, 2));
    assert_eq!(inner.0.lock().unwrap().read_calls, 2);
}

#[test]
fn forwards_size_bytes_and_is_writable_from_inner() {
    let cache = CachingDevice::new(Mem::new(pattern(4096)), 4096, 2);
    assert_eq!(cache.size_bytes(), 4096);
    assert!(cache.is_writable());
}

/// Reports whatever size it was last told.
struct ResizingDevice {
    data: Vec<u8>,
    reported: Arc<AtomicU64>,
}

impl BlockRead for ResizingDevice {
    fn read_at(&mut self, offset: u64, buf: &mut [u8]) -> Result<(), Error> {
        read_into(&self.data, offset, buf)
    }
    fn size_bytes(&self) -> u64 {
        self.reported.load(Ordering::SeqCst)
    }
}

#[test]
fn a_read_the_cache_could_not_fill_is_an_error_not_a_short_ok() {
    let reported = Arc::new(AtomicU64::new(8));
    let dev = ResizingDevice {
        data: (0..64u8).collect(),
        reported: reported.clone(),
    };
    let mut cache = CachingDevice::read_only(dev, 16, 8);

    let mut warm = [0u8; 8];
    cache.read_at(0, &mut warm).expect("warming read");
    assert_eq!(warm, [0, 1, 2, 3, 4, 5, 6, 7]);

    reported.store(64, Ordering::SeqCst);

    let mut buf = [0xEEu8; 16];
    let result = cache.read_at(0, &mut buf);

    assert!(
        result.is_err(),
        "read_at returned {result:?} over a buffer it filled only half of: {buf:?}"
    );
    match result {
        Err(Error::ShortRead { offset, want, got }) => assert_eq!((offset, want, got), (0, 16, 8)),
        other => panic!("expected ShortRead, got {other:?}"),
    }
}

/// Counts its reads where the test can see them.
struct Counted {
    data: Vec<u8>,
    reads: Arc<AtomicUsize>,
}

impl BlockRead for Counted {
    fn read_at(&mut self, offset: u64, buf: &mut [u8]) -> Result<(), Error> {
        self.reads.fetch_add(1, Ordering::SeqCst);
        let start = usize::try_from(offset).unwrap_or(usize::MAX);
        let end = start.saturating_add(buf.len());
        if end > self.data.len() || start > self.data.len() {
            return Err(Error::ShortRead {
                offset,
                want: buf.len(),
                got: self.data.len().saturating_sub(start),
            });
        }
        buf.copy_from_slice(&self.data[start..end]);
        Ok(())
    }
    fn size_bytes(&self) -> u64 {
        self.data.len() as u64
    }
}

fn counted_cache() -> (CachingDevice<ReadOnlyDevice<Counted>>, Arc<AtomicUsize>) {
    let reads = Arc::new(AtomicUsize::new(0));
    let inner = Counted {
        data: (0..4096u32).map(|i| i as u8).collect(),
        reads: reads.clone(),
    };
    (CachingDevice::read_only(inner, 512, 4), reads)
}

#[test]
fn a_read_at_the_very_top_of_the_address_space_is_refused() {
    let (mut cache, reads) = counted_cache();
    let mut buf = [0xEEu8; 8];

    let result = cache.read_at(u64::MAX, &mut buf);

    match result {
        Err(Error::ShortRead { offset, want, got }) => {
            assert_eq!((offset, want, got), (u64::MAX, 8, 0));
        }
        other => panic!("expected ShortRead, got {other:?}"),
    }
    assert_eq!(
        reads.load(Ordering::SeqCst),
        0,
        "the cache forwarded the wild offset to the device instead of refusing it"
    );
    assert_eq!(buf, [0xEEu8; 8], "a refused read leaves the buffer alone");
}

#[test]
fn a_read_whose_end_wraps_past_the_top_is_refused() {
    let (mut cache, reads) = counted_cache();
    let mut buf = [0xEEu8; 64];

    let result = cache.read_at(u64::MAX - 4, &mut buf);

    match result {
        Err(Error::ShortRead { offset, want, got }) => {
            assert_eq!((offset, want, got), (u64::MAX - 4, 64, 0));
        }
        other => panic!("expected ShortRead, got {other:?}"),
    }
    assert_eq!(
        reads.load(Ordering::SeqCst),
        0,
        "the cache forwarded the wrapping offset to the device instead of refusing it"
    );
    assert_eq!(buf, [0xEEu8; 64], "a refused read leaves the buffer alone");
}

#[test]
fn an_ordinary_read_consults_the_device() {
    let (mut cache, reads) = counted_cache();
    let mut buf = [0u8; 8];

    cache.read_at(16, &mut buf).expect("an ordinary read");

    assert_eq!(buf, [16, 17, 18, 19, 20, 21, 22, 23]);
    assert!(
        reads.load(Ordering::SeqCst) >= 1,
        "an ordinary read must reach the device, or the zero above proves nothing"
    );
}

#[test]
fn an_empty_read_asks_nothing() {
    let (mut cache, reads) = counted_cache();
    let mut buf = [0u8; 0];
    assert!(cache.read_at(u64::MAX, &mut buf).is_ok());
    assert_eq!(reads.load(Ordering::SeqCst), 0);
    assert_eq!(cache.stats(), (0, 0));
}

#[test]
fn a_wrapper_forwards_its_inner_devices_size_rather_than_snapshotting_it() {
    let reported = Arc::new(AtomicU64::new(4096));
    let device = || ResizingDevice {
        data: vec![0u8; 4096],
        reported: reported.clone(),
    };

    let counting = CountingDevice::new(device());
    let readonly = ReadOnlyDevice::new(device());
    let caching = CachingDevice::read_only(device(), 512, 4);
    let boxed = Box::new(device());
    let mut borrowed = device();
    let by_ref = &mut borrowed;

    assert_eq!(counting.size_bytes(), 4096, "control: before the move");
    assert_eq!(readonly.size_bytes(), 4096, "control: before the move");
    assert_eq!(caching.size_bytes(), 4096, "control: before the move");
    assert_eq!(BlockRead::size_bytes(&boxed), 4096, "control: before the move");
    assert_eq!(
        BlockRead::size_bytes(&by_ref),
        4096,
        "control: before the move"
    );

    reported.store(2048, Ordering::SeqCst);

    for (name, got) in [
        ("CountingDevice", counting.size_bytes()),
        ("ReadOnlyDevice", readonly.size_bytes()),
        ("CachingDevice", caching.size_bytes()),
        ("Box<T>", BlockRead::size_bytes(&boxed)),
        ("&mut T", BlockRead::size_bytes(&by_ref)),
    ] {
        assert_eq!(
            got, 2048,
            "{name} must report the device's CURRENT size, not one snapshotted at \
             construction."
        );
    }
}

#[test]
fn a_resize_through_the_cache_is_what_is_read_back() {
    let mut cache = CachingDevice::new(Mem::new(vec![0x11u8; 6000]), 4096, 16);
    let mut warm = [0u8; 1000];
    cache.read_at(5000, &mut warm).expect("warm the last block");
    assert_eq!(warm, [0x11u8; 1000]);
    assert_eq!(cache.stats(), (0, 1));

    assert!(cache.can_grow());
    cache.set_len(8192).expect("grow through the cache");
    assert_eq!(cache.size_bytes(), 8192);

    let mut back = [0x5Au8; 3000];
    cache.read_at(5000, &mut back).expect("across the old end");
    assert_eq!(&back[..1000], &[0x11u8; 1000]);
    assert_eq!(&back[1000..], &[0u8; 2000]);
    assert_eq!(cache.stats(), (0, 2), "the short block was fetched again");

    cache.set_len(6000).expect("shrink");
    assert!(cache.read_at(5000, &mut back).is_err());
    cache.set_len(8192).expect("and grow back");
    cache.read_at(5000, &mut back).expect("the whole range");
    assert_eq!(&back[1000..], &[0u8; 2000]);
}

#[test]
fn a_read_only_cache_does_not_grow_and_keeps_what_it_held() {
    let mut cache = CachingDevice::read_only(Mem::new(vec![0x44u8; 4096]), 4096, 16);
    let mut warm = [0u8; 512];
    cache.read_at(0, &mut warm).unwrap();
    let (_, misses) = cache.stats();

    assert!(!cache.can_grow());
    assert!(matches!(cache.set_len(8192), Err(Error::ReadOnly)));
    assert_eq!(cache.size_bytes(), 4096);

    cache.read_at(0, &mut warm).unwrap();
    assert_eq!(cache.stats().1, misses);
}

#[test]
fn a_flush_reaches_the_device_through_the_cache() {
    let mut cache = CachingDevice::new(Mem::new(vec![0u8; 16]), 16, 4);
    cache.flush().unwrap();
    assert_eq!(cache.inner().flushes, 1);
}

#[test]
fn a_slice_over_a_cache_reads_back_what_it_wrote() {
    let cache = CachingDevice::new(Mem::new(vec![0u8; 64]), 16, 4);
    let mut slice = OwnedRwSlice::new(cache, 8, 32);
    let mut buf = [0u8; 4];
    slice.read_at(6, &mut buf).unwrap();
    assert_eq!(buf, [0; 4]);
    slice.write_at(7, &[1, 2]).unwrap();
    slice.read_at(6, &mut buf).unwrap();
    assert_eq!(buf, [0, 1, 2, 0]);
}

#[test]
fn misses_are_the_reads_that_reach_the_device() {
    let counted = CountingDevice::new(backing());
    let mut cache = CachingDevice::read_only(counted, BS, 2);
    let mut buf = [0u8; 8];
    for at in [0u64, 600, 1200, 0, 4, 1200, 8] {
        cache.read_at(at, &mut buf).unwrap();
    }
    let (hits, misses) = cache.stats();
    assert_eq!(hits + misses, 7);
    assert_eq!(cache.inner().inner().reads(), misses);
}

#[test]
fn a_second_reader_waits_and_a_reader_that_fetches_does_not() {
    let mut state = CacheState::new(4);
    let generation = match state.lookup(0, 1) {
        Lookup::Fetch(g) => g,
        _ => panic!("the first reader fetches"),
    };
    assert!(matches!(state.lookup(0, 2), Lookup::Wait));
    // A reader that is fetching something never waits, not even for its own block.
    assert!(matches!(state.lookup(0, 1), Lookup::Fetch(_)));
    state.release(0, 1);
    // One marker was cleared, not both.
    assert!(matches!(state.lookup(0, 2), Lookup::Wait));

    let kept = state.complete(0, block(7), generation, 4);
    assert_eq!(*kept, vec![7; 4]);
    state.release(0, 1);
    match state.lookup(0, 2) {
        Lookup::Hit(data) => assert_eq!(*data, vec![7; 4]),
        _ => panic!("the fetched block is held"),
    }
    assert_eq!(state.stats(), (1, 2));
}

#[test]
fn two_readers_fetching_for_each_other_do_not_wait() {
    let mut state = CacheState::new(4);
    assert!(matches!(state.lookup(0, 1), Lookup::Fetch(_)));
    assert!(matches!(state.lookup(512, 2), Lookup::Fetch(_)));
    assert!(matches!(state.lookup(512, 1), Lookup::Fetch(_)));
    assert!(matches!(state.lookup(0, 2), Lookup::Fetch(_)));
}

#[test]
fn a_fetch_that_an_invalidation_overtook_is_used_and_not_kept() {
    let mut state = CacheState::new(4);
    let generation = match state.lookup(0, 1) {
        Lookup::Fetch(g) => g,
        _ => panic!("a miss"),
    };
    state.invalidate_range(4096, 4097, 512);
    let used = state.complete(0, block(3), generation, 4);
    assert_eq!(*used, vec![3; 4]);
    state.release(0, 1);
    assert!(matches!(state.lookup(0, 1), Lookup::Fetch(_)));
}

#[test]
fn a_block_that_came_in_meanwhile_is_the_one_used() {
    let mut state = CacheState::new(4);
    let first = match state.lookup(0, 1) {
        Lookup::Fetch(g) => g,
        _ => panic!("a miss"),
    };
    let second = match state.lookup(0, 1) {
        Lookup::Fetch(g) => g,
        _ => panic!("a reader that fetches does not wait"),
    };
    assert_eq!(*state.complete(0, block(1), second, 4), vec![1; 4]);
    assert_eq!(*state.complete(0, block(2), first, 4), vec![1; 4]);
}

#[test]
fn a_fetch_that_ends_inside_a_write_does_not_outlive_it() {
    let mut state = CacheState::new(4);
    // The write has swept once; a read then misses, and is done before the write returns.
    state.invalidate_range(0, 8, 512);
    let generation = match state.lookup(0, 1) {
        Lookup::Fetch(g) => g,
        _ => panic!("a miss"),
    };
    state.complete(0, block(3), generation, 4);
    state.release(0, 1);
    assert!(matches!(state.lookup(0, 2), Lookup::Hit(_)));
    // The second sweep drops what the read put there.
    state.invalidate_range(0, 8, 512);
    assert!(matches!(state.lookup(0, 2), Lookup::Fetch(_)));
}

#[test]
fn a_sweep_drops_exactly_what_it_touches() {
    let mut state = CacheState::new(8);
    for start in [0u64, 512, 1024, 1536] {
        let generation = match state.lookup(start, 1) {
            Lookup::Fetch(g) => g,
            _ => panic!("a miss"),
        };
        state.complete(start, block(1), generation, 8);
        state.release(start, 1);
    }
    state.invalidate_range(1023, 1025, 512);
    assert!(matches!(state.lookup(0, 1), Lookup::Hit(_)));
    assert!(matches!(state.lookup(1536, 1), Lookup::Hit(_)));
    assert!(matches!(state.lookup(512, 1), Lookup::Fetch(_)));
    assert!(matches!(state.lookup(1024, 1), Lookup::Fetch(_)));
}

/// A device that costs nothing to read.
struct Zeros(u64);

impl BlockRead for Zeros {
    fn read_at(&mut self, _offset: u64, buf: &mut [u8]) -> Result<(), Error> {
        buf.fill(0xAB);
        Ok(())
    }
    fn size_bytes(&self) -> u64 {
        self.0
    }
}

const READ_LEN: usize = 64;
/// Blocks held by each arm, and reads per sample.
const ENTRIES: usize = 4096;
const SMALL: usize = 64;
const SAMPLES: usize = 50;

/// `ENTRIES` blocks held across `ENTRIES / capacity` caches of `capacity` each, warmed.
struct Arm {
    capacity: usize,
    caches: Vec<CachingDevice<ReadOnlyDevice<CountingDevice<Zeros>>>>,
    buf: Vec<u8>,
}

impl Arm {
    fn new(capacity: usize) -> Self {
        let caches: Vec<_> = (0..ENTRIES / capacity)
            .map(|_| {
                let counting = CountingDevice::new(Zeros(BS * 8192));
                CachingDevice::read_only(counting, BS, capacity)
            })
            .collect();
        let mut arm = Arm {
            capacity,
            caches,
            buf: vec![0u8; READ_LEN],
        };
        arm.sweep();
        arm
    }

    /// One read of every held block, round-robin across the caches.
    fn sweep(&mut self) {
        let n = self.caches.len();
        for i in 0..ENTRIES {
            self.caches[i % n]
                .read_at((i / n) as u64 * BS, &mut self.buf)
                .unwrap();
        }
    }

    fn device_reads(&self) -> u64 {
        self.caches.iter().map(|c| c.inner().inner().reads()).sum()
    }

    fn stats(&self) -> (u64, u64) {
        self.caches.iter().fold((0, 0), |(h, m), cache| {
            let (ch, cm) = cache.stats();
            (h + ch, m + cm)
        })
    }

    /// Microseconds per read over one sweep.
    fn sample(&mut self) -> f64 {
        let started = std::time::Instant::now();
        self.sweep();
        started.elapsed().as_secs_f64() * 1e6 / ENTRIES as f64
    }
}

#[test]
fn the_cost_of_a_cached_read_does_not_grow_with_the_capacity() {
    let mut small = Arm::new(SMALL);
    let mut large = Arm::new(ENTRIES);
    let before = [
        (small.device_reads(), small.stats()),
        (large.device_reads(), large.stats()),
    ];

    let (mut small_best, mut large_best) = (f64::MAX, f64::MAX);
    for _ in 0..SAMPLES {
        small_best = small_best.min(small.sample());
        large_best = large_best.min(large.sample());
    }

    for (arm, (reads, (h0, m0))) in [&small, &large].into_iter().zip(before) {
        let capacity = arm.capacity;
        let (h1, m1) = arm.stats();
        assert_eq!(
            m1, m0,
            "capacity {capacity}: sampling must be all hits, or this measures \
             device traffic rather than the cache's own bookkeeping"
        );
        assert_eq!(
            arm.device_reads(),
            reads,
            "capacity {capacity}: no device read may happen while sampling"
        );
        assert_eq!(
            h1 - h0,
            (SAMPLES * ENTRIES) as u64,
            "capacity {capacity}: every read a hit"
        );
    }

    let ratio = large_best / small_best.max(f64::MIN_POSITIVE);
    assert!(
        ratio < 3.0,
        "a cached read at capacity {ENTRIES} cost {large_best:.4} us against \
         {small_best:.4} us at capacity {SMALL}, both holding {ENTRIES} blocks -- \
         {ratio:.1}x. The per-read cost is growing with the capacity."
    );
}

/// A device that writes the first half of what it is given, then fails.
struct HalfWrites(Mem);

impl BlockRead for HalfWrites {
    fn read_at(&mut self, offset: u64, buf: &mut [u8]) -> Result<(), Error> {
        self.0.read_at(offset, buf)
    }
    fn size_bytes(&self) -> u64 {
        self.0.size_bytes()
    }
}

impl BlockDevice for HalfWrites {
    fn write_at(&mut self, offset: u64, buf: &[u8]) -> Result<(), Error> {
        self.0.write_at(offset, &buf[..buf.len() / 2])?;
        Err(Error::Custom("torn".into()))
    }
    fn flush(&mut self) -> Result<(), Error> {
        self.0.flush()
    }
    fn is_writable(&self) -> bool {
        true
    }
    fn set_len(&mut self, new_len: u64) -> Result<(), Error> {
        self.0.set_len(new_len)
    }
    fn can_grow(&self) -> bool {
        true
    }
}

#[test]
fn a_torn_write_is_what_the_cache_reads_back() {
    let mut cache = CachingDevice::new(HalfWrites(Mem::new(vec![0u8; 64])), 16, 8);
    let mut before = [9u8; 64];
    cache.read_at(0, &mut before).unwrap();
    assert_eq!(before, [0u8; 64]);

    let torn = cache.write_at(8, &[7u8; 32]);
    assert_eq!(torn.unwrap_err().message(), "torn");

    let mut after = [9u8; 64];
    cache.read_at(0, &mut after).unwrap();
    let mut held = [0u8; 64];
    held[8..24].fill(7);
    assert_eq!(after, held);
    assert_eq!(cache.inner().0.bytes, held.to_vec());
}

/// A device whose first reads fail.
struct FailsFirst {
    failures: u32,
    bytes: Bytes,
}

impl BlockRead for FailsFirst {
    fn read_at(&mut self, offset: u64, buf: &mut [u8]) -> Result<(), Error> {
        if self.failures > 0 {
            self.failures -= 1;
            return Err(Error::Custom("not yet".into()));
        }
        self.bytes.read_at(offset, buf)
    }
    fn size_bytes(&self) -> u64 {
        self.bytes.size_bytes()
    }
}

#[test]
fn a_failed_fetch_leaves_nothing_behind() {
    let bytes = Bytes::new((0..64u8).collect());
    let mut cache = CachingDevice::read_only(FailsFirst { failures: 2, bytes }, 16, 8);
    let mut buf = [9u8; 4];
    for misses in 1..=2 {
        let refused = cache.read_at(20, &mut buf);
        assert_eq!(refused.unwrap_err().message(), "not yet");
        assert_eq!(buf, [9u8; 4]);
        assert_eq!(cache.stats(), (0, misses));
    }
    cache.read_at(20, &mut buf).unwrap();
    assert_eq!(buf, [20, 21, 22, 23]);
    assert_eq!(cache.stats(), (0, 3));
    cache.read_at(20, &mut buf).unwrap();
    assert_eq!(cache.stats(), (1, 3));
}

#[test]
fn a_given_up_fetch_keeps_no_one_waiting() {
    let mut state = CacheState::new(4);
    assert!(matches!(state.lookup(0, 1), Lookup::Fetch(_)));
    assert!(matches!(state.lookup(0, 2), Lookup::Wait));
    state.release(0, 1);
    assert!(matches!(state.lookup(0, 2), Lookup::Fetch(_)));
    assert_eq!(state.stats(), (0, 2));
}

#[test]
fn a_crowd_on_one_block_fetches_it_once() {
    let mut state = CacheState::new(4);
    let generation = match state.lookup(0, 0) {
        Lookup::Fetch(generation) => generation,
        _ => panic!("the first reader fetches"),
    };
    for reader in 1..8 {
        assert!(matches!(state.lookup(0, reader), Lookup::Wait));
    }
    let used = state.complete(0, block(5), generation, 4);
    state.release(0, 0);
    for reader in 1..8 {
        match state.lookup(0, reader) {
            Lookup::Hit(data) => assert_eq!(data, used),
            _ => panic!("the block is there"),
        }
    }
    assert_eq!(state.stats(), (7, 1));
}

#[test]
fn a_device_that_does_not_grow_refuses_a_length_as_read_only() {
    let mut cached_slice = CachingDevice::new(
        OwnedRwSlice::new(Mem::new(pattern(64)), 16, 32),
        16,
        8,
    );
    assert!(!cached_slice.can_grow());
    assert!(matches!(cached_slice.set_len(8), Err(Error::ReadOnly)));
    assert_eq!(cached_slice.size_bytes(), 32);
    assert_eq!(cached_slice.inner().parent().bytes, pattern(64));

    let growable = Mem::new(pattern(64));
    assert!(growable.can_grow());
    let mut slice = OwnedRwSlice::new(growable, 16, 32);
    assert!(!slice.can_grow());
    assert!(matches!(slice.set_len(64), Err(Error::ReadOnly)));
    assert_eq!(slice.size_bytes(), 32);
    assert_eq!(slice.into_parent().bytes, pattern(64));

    let mut read_only = ReadOnlyDevice::new(Mem::new(pattern(64)));
    assert!(matches!(read_only.set_len(8), Err(Error::ReadOnly)));
    assert_eq!(read_only.into_inner().bytes, pattern(64));
}

#[test]
fn sweeps_reach_as_far_as_the_change() {
    assert_eq!(resize_sweep_start(100, 40), 40);
    assert_eq!(resize_sweep_start(40, 100), 40);
    assert_eq!(resize_sweep_start(7, 7), 7);
    assert_eq!(write_sweep_end(100, 28), 128);
    assert_eq!(write_sweep_end(u64::MAX - 3, 16), u64::MAX);
}

/// A device that must not be asked anything.
struct NeverAsked;

impl BlockRead for NeverAsked {
    fn read_at(&mut self, _offset: u64, _buf: &mut [u8]) -> Result<(), Error> {
        panic!("read");
    }
    fn size_bytes(&self) -> u64 {
        panic!("asked its size");
    }
}

#[test]
fn a_read_that_needs_no_device_asks_it_nothing() {
    let mut buf = [9u8; 4];

    let mut cache = CachingDevice::read_only(NeverAsked, 0, 8);
    let refused = cache.read_at(0, &mut buf).unwrap_err();
    assert_eq!(refused.message(), "cache block size is zero");
    assert!(cache.read_at(0, &mut []).is_err());

    let mut cache = CachingDevice::read_only(NeverAsked, MAX_BLOCK_SIZE + 1, 8);
    assert!(matches!(cache.read_at(0, &mut buf), Err(Error::Custom(_))));

    let mut cache = CachingDevice::read_only(NeverAsked, 16, 8);
    assert!(cache.read_at(u64::MAX, &mut []).is_ok());
    assert!(matches!(
        cache.read_at(u64::MAX, &mut buf),
        Err(Error::ShortRead { offset: u64::MAX, want: 4, got: 0 })
    ));
    assert_eq!(buf, [9u8; 4]);
    assert_eq!(cache.stats(), (0, 0));

    assert!(answer_unasked(0, 4, 16).is_none());
    assert!(matches!(answer_unasked(0, 0, 16), Some(Ok(()))));
}
