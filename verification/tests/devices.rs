use fs_core::counting_device::CountingDevice;
use fs_core::test_device::{range_within, read_into, Bytes, RwBytes};
use fs_core::{BlockDevice, BlockRead, Error, ReadOnlyDevice};
use std::sync::{Arc, Mutex};

/// One device behind several handles.
struct Shared<T>(Arc<Mutex<T>>);

impl<T> Shared<T> {
    fn new(inner: T) -> Self {
        Shared(Arc::new(Mutex::new(inner)))
    }
}

impl<T> Clone for Shared<T> {
    fn clone(&self) -> Self {
        Shared(self.0.clone())
    }
}

impl<T: BlockRead> BlockRead for Shared<T> {
    fn read_at(&mut self, offset: u64, buf: &mut [u8]) -> Result<(), Error> {
        self.0.lock().unwrap().read_at(offset, buf)
    }
    fn size_bytes(&self) -> u64 {
        self.0.lock().unwrap().size_bytes()
    }
}

impl<T: BlockDevice> BlockDevice for Shared<T> {
    fn write_at(&mut self, offset: u64, buf: &[u8]) -> Result<(), Error> {
        self.0.lock().unwrap().write_at(offset, buf)
    }
    fn flush(&mut self) -> Result<(), Error> {
        self.0.lock().unwrap().flush()
    }
    fn is_writable(&self) -> bool {
        self.0.lock().unwrap().is_writable()
    }
    fn set_len(&mut self, new_len: u64) -> Result<(), Error> {
        self.0.lock().unwrap().set_len(new_len)
    }
    fn can_grow(&self) -> bool {
        self.0.lock().unwrap().can_grow()
    }
}

/// Counts what reaches it, and can be resized where it can be written.
struct Tracker {
    bytes: Vec<u8>,
    reads: u64,
    writes: u64,
    flushes: u64,
    grows: u64,
    writable: bool,
}

impl Tracker {
    fn new(bytes: Vec<u8>, writable: bool) -> Self {
        Self {
            bytes,
            reads: 0,
            writes: 0,
            flushes: 0,
            grows: 0,
            writable,
        }
    }
}

impl BlockRead for Tracker {
    fn read_at(&mut self, offset: u64, buf: &mut [u8]) -> Result<(), Error> {
        self.reads += 1;
        read_into(&self.bytes, offset, buf)
    }
    fn size_bytes(&self) -> u64 {
        self.bytes.len() as u64
    }
}

impl BlockDevice for Tracker {
    fn write_at(&mut self, offset: u64, buf: &[u8]) -> Result<(), Error> {
        if !self.writable {
            return Err(Error::ReadOnly);
        }
        self.writes += 1;
        let (start, end) = range_within(self.bytes.len(), offset, buf.len())?;
        self.bytes[start..end].copy_from_slice(buf);
        Ok(())
    }
    fn flush(&mut self) -> Result<(), Error> {
        self.flushes += 1;
        Ok(())
    }
    fn is_writable(&self) -> bool {
        self.writable
    }
    fn set_len(&mut self, new_len: u64) -> Result<(), Error> {
        if !self.writable {
            return Err(Error::ReadOnly);
        }
        self.grows += 1;
        self.bytes.resize(new_len as usize, 0);
        Ok(())
    }
    fn can_grow(&self) -> bool {
        self.writable
    }
}

fn counting(len: usize) -> CountingDevice<Bytes> {
    CountingDevice::new(Bytes::new(vec![7u8; len]))
}

#[test]
fn it_counts_calls_and_the_bytes_they_asked_for() {
    let mut dev = counting(4096);
    let mut small = [0u8; 8];
    let mut block = [0u8; 512];

    dev.read_at(0, &mut small).expect("read");
    assert_eq!((dev.reads(), dev.bytes()), (1, 8));

    dev.read_at(1024, &mut block).expect("read");
    assert_eq!(
        (dev.reads(), dev.bytes()),
        (2, 520),
        "two calls, and the bytes are the sum of both buffers"
    );
}

#[test]
fn a_failed_read_still_counts() {
    let mut dev = counting(16);
    let mut buf = [0u8; 64];
    assert!(dev.read_at(0, &mut buf).is_err(), "past the end");
    assert_eq!(dev.reads(), 1, "the driver asked, so it counts");
}

#[test]
fn bytes_counts_what_was_asked_for_including_a_failed_read() {
    let mut dev = counting(16);
    let mut buf = [0u8; 64];

    assert!(dev.read_at(0, &mut buf).is_err(), "past the end");
    assert_eq!(
        dev.bytes(),
        64,
        "the whole buffer the driver presented, not the 16 bytes \
         available and not the 0 bytes delivered"
    );
    assert_eq!(
        buf, [0u8; 64],
        "this device refused without copying, so 64 bytes were \
         charged for a transfer of none"
    );
}

#[test]
fn resetting_starts_the_measurement_where_the_work_does() {
    let mut dev = counting(4096);
    let mut buf = [0u8; 64];
    dev.read_at(0, &mut buf).expect("the mount's own reads");
    dev.reset();
    assert_eq!((dev.reads(), dev.bytes()), (0, 0));

    dev.read_at(64, &mut buf).expect("the work being measured");
    assert_eq!((dev.reads(), dev.bytes()), (1, 64));
    assert_eq!(dev.size_bytes(), 4096);
    assert_eq!(dev.inner().size_bytes(), 4096);
}

#[test]
fn read_through_works() {
    let mut v = vec![0u8; 16];
    v[4..8].copy_from_slice(&[0xAA, 0xBB, 0xCC, 0xDD]);
    let mut wrapped = ReadOnlyDevice::new(RwBytes::new(v));

    let mut buf = [0u8; 4];
    wrapped.read_at(4, &mut buf).unwrap();
    assert_eq!(buf, [0xAA, 0xBB, 0xCC, 0xDD]);
}

#[test]
fn writes_rejected_even_though_inner_is_writable() {
    let mut wrapped = ReadOnlyDevice::new(RwBytes::new(vec![0u8; 16]));
    assert!(!BlockDevice::is_writable(&wrapped));

    match BlockDevice::write_at(&mut wrapped, 0, &[0xFFu8; 4]) {
        Err(Error::ReadOnly) => {}
        other => panic!("expected ReadOnly, got {other:?}"),
    }
}

#[test]
fn into_inner_returns_unchanged() {
    let inner = RwBytes::new(vec![0u8; 8]);
    let wrapped = ReadOnlyDevice::new(inner);
    let mut back = wrapped.into_inner();
    // Inner should still be writable when accessed directly.
    assert!(BlockDevice::is_writable(&back));
    // The recovered inner still accepts a direct write + read-back.
    back.write_at(0, &[0x42; 4]).unwrap();
    let mut buf = [0u8; 4];
    back.read_at(0, &mut buf).unwrap();
    assert_eq!(buf, [0x42; 4]);
}

#[test]
fn inner_borrows_without_consuming() {
    let mut v = vec![0u8; 8];
    v[0..2].copy_from_slice(&[0x9A, 0xBC]);
    let mut wrapped = ReadOnlyDevice::new(RwBytes::new(v));

    assert!(BlockDevice::is_writable(wrapped.inner()));
    assert_eq!(wrapped.inner().size_bytes(), 8);

    // Wrapper still usable after borrowing the inner.
    let mut buf = [0u8; 2];
    wrapped.read_at(0, &mut buf).unwrap();
    assert_eq!(buf, [0x9A, 0xBC]);
}

#[test]
fn test_device_a_read_at_a_wild_offset_is_a_short_read_not_a_panic() {
    let mut dev = Bytes::new(vec![0xAB; 8]);
    for offset in [u64::MAX, u64::MAX - 7, 1 << 40, 9] {
        let mut buf = [0u8; 8];
        match dev.read_at(offset, &mut buf).expect_err("past the end") {
            Error::ShortRead {
                offset: o,
                want,
                got,
            } => {
                assert_eq!((o, want), (offset, 8));
                assert_eq!(got, 0, "nothing is available at {offset}");
            }
            other => panic!("expected ShortRead at {offset}, got {other:?}"),
        }
        assert_eq!(buf, [0u8; 8], "a refused read leaves the buffer alone");
    }
}

#[test]
fn test_device_a_write_at_a_wild_offset_is_refused_rather_than_panicking() {
    let mut dev = RwBytes::new(vec![0u8; 8]);
    for offset in [u64::MAX, u64::MAX - 7, 1 << 40, 9] {
        match dev.write_at(offset, &[1u8; 8]).expect_err("past the end") {
            Error::ShortRead {
                offset: o, want, ..
            } => {
                assert_eq!((o, want), (offset, 8))
            }
            other => panic!("expected ShortRead at {offset}, got {other:?}"),
        }
    }
    let mut buf = [0u8; 8];
    dev.read_at(0, &mut buf).unwrap();
    assert_eq!(buf, [0u8; 8], "no refused write touched the buffer");
}

#[test]
fn test_device_a_length_that_overflows_when_added_to_the_offset_is_refused() {
    let mut dev = Bytes::new(vec![0xAB; 8]);
    let mut buf = vec![0u8; 16];
    let offset = (usize::MAX - 8) as u64;
    match dev.read_at(offset, &mut buf).expect_err("cannot fit") {
        Error::ShortRead { want, got, .. } => {
            assert_eq!(want, 16);
            assert_eq!(got, 0);
        }
        other => panic!("expected ShortRead, got {other:?}"),
    }
}

#[test]
fn a_read_past_the_end_is_a_short_read_not_a_panic() {
    let mut dev = Bytes::new(vec![0xAB; 8]);
    let mut buf = [0u8; 16];
    match dev.read_at(0, &mut buf).expect_err("past the end") {
        Error::ShortRead { offset, want, got } => assert_eq!((offset, want, got), (0, 16, 0)),
        other => panic!("expected ShortRead, got {other:?}"),
    }
    assert_eq!(buf, [0u8; 16], "a refused read leaves the buffer alone");
}

#[test]
fn the_writable_one_reads_the_same_way() {
    let mut dev = RwBytes::new(vec![0xAB; 8]);
    let mut buf = [0u8; 16];
    assert!(dev.read_at(0, &mut buf).is_err());
    assert!(dev.is_writable());
}

#[test]
fn a_write_past_the_end_is_refused_rather_than_growing_the_buffer() {
    let mut dev = RwBytes::new(vec![0u8; 4]);
    assert!(dev.write_at(2, &[1, 2, 3, 4]).is_err());
    assert_eq!(dev.size_bytes(), 4, "the device did not grow");
    assert!(!dev.can_grow());
    assert!(matches!(dev.set_len(8), Err(Error::ReadOnly)));
    assert_eq!(dev.size_bytes(), 4);
}

#[test]
fn reads_and_writes_inside_the_buffer_round_trip() {
    let mut dev = RwBytes::new(vec![0u8; 16]);
    dev.write_at(4, &[1, 2, 3, 4]).unwrap();
    let mut buf = [0u8; 4];
    dev.read_at(4, &mut buf).unwrap();
    assert_eq!(buf, [1, 2, 3, 4]);
}

#[test]
fn shared_double_bounds_a_read_at_a_wild_offset_is_a_short_read_not_a_panic() {
    let bytes = [0xABu8; 8];
    for offset in [u64::MAX, u64::MAX - 7, 1 << 40, 9] {
        let mut buf = [0u8; 8];
        match read_into(&bytes, offset, &mut buf).expect_err("past the end") {
            Error::ShortRead {
                offset: o,
                want,
                got,
            } => {
                assert_eq!((o, want), (offset, 8));
                assert_eq!(got, 0, "nothing is available at {offset}");
            }
            other => panic!("expected ShortRead at {offset}, got {other:?}"),
        }
        assert_eq!(buf, [0u8; 8], "a refused read leaves the buffer alone");
    }
}

#[test]
fn shared_double_bounds_a_length_that_overflows_when_added_to_the_offset_is_refused() {
    let bytes = [0xABu8; 8];
    let mut buf = vec![0u8; 16];
    let offset = u64::MAX - 8;
    match read_into(&bytes, offset, &mut buf).expect_err("cannot fit") {
        Error::ShortRead { want, got, .. } => assert_eq!((want, got), (16, 0)),
        other => panic!("expected ShortRead, got {other:?}"),
    }
}

#[test]
fn a_read_beginning_inside_the_buffer_that_overruns_it_copies_nothing() {
    let bytes = [0xABu8; 8];
    for (offset, available) in [(0u64, 8usize), (1, 7), (7, 1)] {
        let mut buf = [0u8; 16];
        match read_into(&bytes, offset, &mut buf).expect_err("overruns the end") {
            Error::ShortRead {
                offset: o,
                want,
                got,
            } => {
                assert_eq!((o, want), (offset, 16));
                assert_eq!(
                    got, 0,
                    "{available} bytes were available from {offset}, and none of them \
                     were copied -- got counts the buffer, not the source"
                );
            }
            other => panic!("expected ShortRead at {offset}, got {other:?}"),
        }
        assert_eq!(buf, [0u8; 16], "a refused read leaves the buffer alone");
    }
}

#[test]
fn a_write_beginning_inside_the_buffer_that_overruns_it_writes_nothing() {
    for offset in [0u64, 1, 7] {
        let mut dev = RwBytes::new(vec![0u8; 8]);
        match dev.write_at(offset, &[1u8; 16]).expect_err("overruns the end") {
            Error::ShortRead {
                offset: o,
                want,
                got,
            } => {
                assert_eq!((o, want), (offset, 16));
                assert_eq!(got, 0, "a refused write transfers nothing");
            }
            other => panic!("expected ShortRead at {offset}, got {other:?}"),
        }
        assert_eq!(dev.0, [0u8; 8], "no refused write reached the buffer");
    }
}

#[test]
fn box_blockread_forwards() {
    let mut dev: Box<Tracker> = Box::new(Tracker::new(vec![1, 2, 3, 4, 5], false));
    assert_eq!(BlockRead::size_bytes(&dev), 5);
    let mut buf = [0u8; 3];
    BlockRead::read_at(&mut dev, 1, &mut buf).unwrap();
    assert_eq!(buf, [2, 3, 4]);
}

#[test]
fn box_blockdevice_forwards_write() {
    let mut dev: Box<Tracker> = Box::new(Tracker::new(vec![0u8; 4], true));
    assert!(BlockDevice::is_writable(&dev));
    BlockDevice::write_at(&mut dev, 0, &[9, 8, 7, 6]).unwrap();
    let mut buf = [0u8; 4];
    BlockRead::read_at(&mut dev, 0, &mut buf).unwrap();
    assert_eq!(buf, [9, 8, 7, 6]);
}

#[test]
fn box_blockdevice_forwards_readonly_rejection() {
    let mut dev: Box<Tracker> = Box::new(Tracker::new(vec![0u8; 4], false));
    assert!(!BlockDevice::is_writable(&dev));
    match BlockDevice::write_at(&mut dev, 0, &[1]) {
        Err(Error::ReadOnly) => {}
        other => panic!("expected ReadOnly, got {other:?}"),
    }
}

#[test]
fn ref_blockread_forwards() {
    let mut owned = Tracker::new(vec![10, 20, 30, 40], false);
    {
        let mut r = &mut owned;
        assert_eq!(BlockRead::size_bytes(&r), 4);
        let mut buf = [0u8; 2];
        BlockRead::read_at(&mut r, 2, &mut buf).unwrap();
        assert_eq!(buf, [30, 40]);
    }
    assert_eq!(owned.size_bytes(), 4);
    assert_eq!(owned.reads, 1);
}

#[test]
fn a_borrowed_device_forwards_everything() {
    let mut owned = Tracker::new(vec![0u8; 8], true);
    {
        let mut r = &mut owned;
        assert!(BlockDevice::is_writable(&r));
        assert!(BlockDevice::can_grow(&r));
        BlockDevice::write_at(&mut r, 2, &[0xAA, 0xBB]).unwrap();
        BlockDevice::flush(&mut r).unwrap();
        BlockDevice::set_len(&mut r, 12).unwrap();
    }
    assert_eq!((owned.writes, owned.flushes, owned.grows), (1, 1, 1));
    assert_eq!(owned.size_bytes(), 12);
}

#[test]
fn box_blockdevice_forwards_set_len_and_can_grow() {
    let mut dev: Box<Tracker> = Box::new(Tracker::new(vec![0u8; 4], true));

    assert!(
        BlockDevice::can_grow(&dev),
        "Box<T> did not forward can_grow"
    );
    BlockDevice::set_len(&mut dev, 12)
        .expect("Box<T> must forward set_len");
    assert_eq!(BlockRead::size_bytes(&dev), 12);
}

#[test]
fn the_forwarding_impls_do_not_invent_a_growth_capability() {
    let inner = Shared::new(Tracker::new(vec![0u8; 8], false));
    let mut dev = Box::new(inner.clone());

    assert!(!BlockDevice::can_grow(&dev));
    match BlockDevice::set_len(&mut dev, 24) {
        Err(Error::ReadOnly) => {}
        other => panic!("expected ReadOnly, got {other:?}"),
    }
    assert_eq!(inner.0.lock().unwrap().grows, 0);
    assert_eq!(BlockRead::size_bytes(&dev), 8, "and the device was not resized");
}

#[test]
fn wrapping_arc_dyn_blockread_works() {
    let inner = Shared::new(Tracker::new(vec![1, 2, 3, 4, 5, 6, 7, 8], true));
    let mut wrapped = ReadOnlyDevice::new(inner);
    assert_eq!(wrapped.size_bytes(), 8);
    let mut buf = [0u8; 4];
    wrapped.read_at(2, &mut buf).unwrap();
    assert_eq!(buf, [3, 4, 5, 6]);
    assert!(!BlockDevice::is_writable(&wrapped));
}

#[test]
fn wrapping_arc_dyn_blockdevice_hides_writability() {
    // Parent IS writable, but the wrapper must report otherwise.
    let parent_inner = Shared::new(Tracker::new(vec![0u8; 16], true));
    let parent = Box::new(parent_inner.clone());
    let mut wrapped = ReadOnlyDevice::new(parent);

    assert!(!BlockDevice::is_writable(&wrapped));
    let err = BlockDevice::write_at(&mut wrapped, 0, &[1u8; 4]).unwrap_err();
    assert!(matches!(err, Error::ReadOnly));

    // Underlying device was never mutated by the wrapper.
    let inner = parent_inner.0.lock().unwrap();
    assert_eq!(inner.bytes, vec![0u8; 16]);
}

#[test]
fn flush_default_impl_is_noop_ok() {
    let inner = Shared::new(Tracker::new(vec![0u8; 4], true));
    let mut wrapped = ReadOnlyDevice::new(inner.clone());
    BlockDevice::flush(&mut wrapped).unwrap();
    assert_eq!(inner.0.lock().unwrap().flushes, 0, "the wrapper does not delegate");
}

#[test]
fn inner_borrow_does_not_consume_wrapper() {
    let mut wrapped = ReadOnlyDevice::new(Tracker::new(vec![9, 8, 7, 6], true));
    {
        let inner_ref = wrapped.inner();
        assert_eq!(inner_ref.size_bytes(), 4);
    }
    // Wrapper still usable.
    let mut buf = [0u8; 2];
    wrapped.read_at(0, &mut buf).unwrap();
    assert_eq!(buf, [9, 8]);
}

#[test]
fn into_inner_round_trips_and_recovers_writability() {
    let wrapped = ReadOnlyDevice::new(Tracker::new(vec![0u8; 4], true));
    let mut inner = wrapped.into_inner();
    assert!(inner.is_writable());
    inner.write_at(0, &[1, 2, 3, 4]).unwrap();
    let mut buf = [0u8; 4];
    inner.read_at(0, &mut buf).unwrap();
    assert_eq!(buf, [1, 2, 3, 4]);
}

#[test]
fn read_only_wrapper_is_send_sync() {
    fn assert_send_sync<T: Send + Sync>() {}
    assert_send_sync::<ReadOnlyDevice<Tracker>>();
    assert_send_sync::<ReadOnlyDevice<Box<Tracker>>>();
}

#[test]
fn a_read_only_wrapper_does_not_grow() {
    let mut wrapped = ReadOnlyDevice::new(Tracker::new(vec![0u8; 4], true));
    assert!(!wrapped.can_grow());
    assert!(matches!(wrapped.set_len(8), Err(Error::ReadOnly)));
    assert_eq!(wrapped.size_bytes(), 4);
}

#[test]
fn shared_double_bounds_a_write_at_a_wild_offset_is_refused_rather_than_panicking() {
    let mut bytes = RwBytes::new(vec![0u8; 8]);
    for offset in [u64::MAX, u64::MAX - 7, 1 << 40, 9] {
        match bytes.write_at(offset, &[1u8; 8]).expect_err("past the end") {
            Error::ShortRead {
                offset: o, want, ..
            } => assert_eq!((o, want), (offset, 8)),
            other => panic!("expected ShortRead at {offset}, got {other:?}"),
        }
    }
    assert_eq!(bytes.0, [0u8; 8], "no refused write reached the buffer");

    bytes.write_at(4, &[9u8; 4]).expect("inside the buffer");
    assert_eq!(bytes.0, [0, 0, 0, 0, 9, 9, 9, 9]);
}
