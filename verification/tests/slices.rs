use fs_core::counting_device::CountingDevice;
use fs_core::slice::window_on_parent;
use fs_core::test_device::{Bytes, RwBytes};
use fs_core::{BlockDevice, BlockRead, Error, OwnedRwSlice, OwnedSlice, SliceReader};
use std::sync::{Arc, Mutex};

/// One device behind several handles.
struct Shared<T>(Arc<Mutex<T>>);

impl<T> Shared<T> {
    fn new(inner: T) -> Self {
        Shared(Arc::new(Mutex::new(inner)))
    }
}

impl<T> Clone for Shared<T> {
    fn clone(&self) -> Self {
        Shared(self.0.clone())
    }
}

impl<T: BlockRead> BlockRead for Shared<T> {
    fn read_at(&mut self, offset: u64, buf: &mut [u8]) -> Result<(), Error> {
        self.0.lock().unwrap().read_at(offset, buf)
    }
    fn size_bytes(&self) -> u64 {
        self.0.lock().unwrap().size_bytes()
    }
}

impl<T: BlockDevice> BlockDevice for Shared<T> {
    fn write_at(&mut self, offset: u64, buf: &[u8]) -> Result<(), Error> {
        self.0.lock().unwrap().write_at(offset, buf)
    }
    fn flush(&mut self) -> Result<(), Error> {
        self.0.lock().unwrap().flush()
    }
    fn is_writable(&self) -> bool {
        self.0.lock().unwrap().is_writable()
    }
    fn set_len(&mut self, new_len: u64) -> Result<(), Error> {
        self.0.lock().unwrap().set_len(new_len)
    }
    fn can_grow(&self) -> bool {
        self.0.lock().unwrap().can_grow()
    }
}

/// Bytes that count their flushes, and may refuse writes.
struct Storage {
    storage: Vec<u8>,
    flushes: u32,
    writable: bool,
}

impl Storage {
    fn new(bytes: Vec<u8>, writable: bool) -> Self {
        Self {
            storage: bytes,
            flushes: 0,
            writable,
        }
    }
}

impl BlockRead for Storage {
    fn read_at(&mut self, offset: u64, buf: &mut [u8]) -> Result<(), Error> {
        let s = offset as usize;
        let end = s + buf.len();
        if end > self.storage.len() {
            return Err(Error::ShortRead {
                offset,
                want: buf.len(),
                got: self.storage.len().saturating_sub(s),
            });
        }
        buf.copy_from_slice(&self.storage[s..end]);
        Ok(())
    }
    fn size_bytes(&self) -> u64 {
        self.storage.len() as u64
    }
}

impl BlockDevice for Storage {
    fn write_at(&mut self, offset: u64, buf: &[u8]) -> Result<(), Error> {
        if !self.writable {
            return Err(Error::ReadOnly);
        }
        let s = offset as usize;
        self.storage[s..s + buf.len()].copy_from_slice(buf);
        Ok(())
    }
    fn flush(&mut self) -> Result<(), Error> {
        self.flushes += 1;
        Ok(())
    }
    fn is_writable(&self) -> bool {
        self.writable
    }
    fn set_len(&mut self, _new_len: u64) -> Result<(), Error> {
        Err(Error::ReadOnly)
    }
    fn can_grow(&self) -> bool {
        false
    }
}

#[test]
fn slice_reader_rebases_offsets() {
    let mut v = vec![0u8; 4096];
    v[2000..2004].copy_from_slice(&[0xAB, 0xCD, 0xEF, 0x01]);
    let mut dev = Bytes::new(v);

    let mut slice = SliceReader::new(&mut dev, 2000, 4);
    assert_eq!(slice.size_bytes(), 4);
    assert_eq!(slice.start(), 2000);
    assert_eq!(slice.length(), 4);

    let mut buf = [0u8; 4];
    slice.read_at(0, &mut buf).unwrap();
    assert_eq!(buf, [0xAB, 0xCD, 0xEF, 0x01]);
}

#[test]
fn a_slice_whose_start_plus_offset_leaves_the_parent_reads_nothing() {
    let mut v = vec![0u8; 64 * 1024];
    v[5000..5008].copy_from_slice(b"SECRET!!");
    let dev = Shared::new(Bytes::new(v));

    let mut slice = OwnedSlice::new(dev, 1 << 63, (1 << 63) + 51200);
    assert_eq!(
        slice.size_bytes(),
        0,
        "the window begins past the parent, so none of it is there"
    );
    let mut buf = [0u8; 8];
    let inside_the_declared_length = (1u64 << 63) + 5000;

    let outcome = slice.read_at(inside_the_declared_length, &mut buf);
    assert!(
        outcome.is_err(),
        "the read succeeded and returned {:?}, which is the parent's \
         bytes from offset 5000",
        std::str::from_utf8(&buf)
    );
    assert_ne!(&buf, b"SECRET!!");
}

#[test]
fn slice_reader_rejects_out_of_bounds() {
    let mut dev = Bytes::new(vec![0u8; 4096]);
    let mut slice = SliceReader::new(&mut dev, 0, 16);
    let mut buf = [0u8; 8];
    match slice.read_at(12, &mut buf) {
        Err(Error::ShortRead { .. }) => {}
        other => panic!("expected ShortRead, got {other:?}"),
    }
}

#[test]
fn owned_slice_works_through_arc() {
    let mut v = vec![0u8; 4096];
    v[100..104].copy_from_slice(&[0x11, 0x22, 0x33, 0x44]);
    let dev = Shared::new(Bytes::new(v));

    let mut slice = OwnedSlice::new(dev, 100, 4);
    assert_eq!(slice.size_bytes(), 4);
    let mut buf = [0u8; 4];
    slice.read_at(0, &mut buf).unwrap();
    assert_eq!(buf, [0x11, 0x22, 0x33, 0x44]);
}

#[test]
fn slices_reject_writes_via_blockdevice_default() {
    let mut dev = Bytes::new(vec![0u8; 16]);
    let mut slice = SliceReader::new(&mut dev, 0, 8);
    let err = BlockDevice::write_at(&mut slice, 0, &[1u8; 4]).unwrap_err();
    assert!(matches!(err, Error::ReadOnly));
    assert!(!slice.is_writable());
    assert!(!slice.can_grow());
    assert!(matches!(slice.set_len(16), Err(Error::ReadOnly)));
    assert!(slice.flush().is_ok());
}

#[test]
fn owned_slice_accessors_report_geometry() {
    let dev = Shared::new(Bytes::new(vec![0u8; 4096]));
    let slice = OwnedSlice::new(dev, 512, 256);
    assert_eq!(slice.start(), 512);
    assert_eq!(slice.length(), 256);
    assert_eq!(slice.size_bytes(), 256);
}

#[test]
fn owned_rw_slice_accessors_report_geometry() {
    let dev = Shared::new(RwBytes::new(vec![0u8; 64]));
    let slice = OwnedRwSlice::new(dev, 16, 32);
    assert_eq!(slice.start(), 16);
    assert_eq!(slice.length(), 32);
    assert_eq!(slice.size_bytes(), 32);
    assert!(slice.is_writable());
}

#[test]
fn owned_rw_slice_rebases_reads_and_writes() {
    let mut dev = Shared::new(RwBytes::new(vec![0u8; 64]));
    let mut slice = OwnedRwSlice::new(dev.clone(), 16, 32);

    // Write through the slice lands at parent offset 16.
    slice.write_at(0, &[0xDE, 0xAD, 0xBE, 0xEF]).unwrap();
    let mut buf = [0u8; 4];
    slice.read_at(0, &mut buf).unwrap();
    assert_eq!(buf, [0xDE, 0xAD, 0xBE, 0xEF]);

    // Confirm rebasing against the parent directly.
    let mut pbuf = [0u8; 4];
    dev.read_at(16, &mut pbuf).unwrap();
    assert_eq!(pbuf, [0xDE, 0xAD, 0xBE, 0xEF]);
}

#[test]
fn owned_rw_slice_rejects_out_of_bounds_write() {
    let dev = Shared::new(RwBytes::new(vec![0u8; 64]));
    let mut slice = OwnedRwSlice::new(dev, 0, 8);
    match slice.write_at(6, &[0u8; 4]) {
        Err(Error::OutOfBounds { .. }) => {}
        other => panic!("expected OutOfBounds, got {other:?}"),
    }
}

#[test]
fn same_out_of_range_span_is_short_read_for_a_read_and_out_of_bounds_for_a_write() {
    let dev = Shared::new(RwBytes::new(vec![0u8; 64]));
    let mut slice = OwnedRwSlice::new(dev, 16, 8);

    let mut buf = [0u8; 4];
    match slice.read_at(6, &mut buf) {
        Err(Error::ShortRead { offset, want, got }) => {
            assert_eq!((offset, want, got), (6, 4, 0));
        }
        other => panic!("expected ShortRead, got {other:?}"),
    }

    match slice.write_at(6, &[0u8; 4]) {
        Err(Error::OutOfBounds { offset, len, size }) => {
            assert_eq!((offset, len, size), (6, 4, 8));
        }
        other => panic!("expected OutOfBounds, got {other:?}"),
    }
}

#[test]
fn window_on_parent_clamps_the_length_and_refuses_only_a_start_past_the_end() {
    // Wholly inside: untouched.
    assert_eq!(window_on_parent(1024, 0, 1024), Some(1024));
    assert_eq!(window_on_parent(1024, 512, 512), Some(512));
    assert_eq!(window_on_parent(1024, 1023, 1), Some(1));

    // Running off the end: as much of it as is there.
    assert_eq!(window_on_parent(1024, 512, 513), Some(512));
    assert_eq!(window_on_parent(1024, 0, u64::MAX), Some(1024));

    // Beginning at or past the end: nothing on the parent to slice.
    assert_eq!(window_on_parent(1024, 1024, 1), None);
    assert_eq!(window_on_parent(1024, 4096, 1), None);
    assert_eq!(window_on_parent(0, 0, 8), None);

    // The sum leaves a u64 entirely, and the start alone is already past the parent.
    assert_eq!(
        window_on_parent(64 * 1024, 1 << 63, (1 << 63) + 51200),
        None
    );

    // From the top of the address space: 4 bytes rebase to exactly `u64::MAX`.
    assert_eq!(window_on_parent(u64::MAX, u64::MAX - 4, 8), Some(4));
}

#[test]
fn a_borrowed_slice_cannot_claim_more_than_its_parent_holds() {
    let mut dev = Bytes::new(vec![0xEE; 100]);
    let mut slice = SliceReader::new(&mut dev, 50, 100);

    assert_eq!(slice.size_bytes(), 50);
    assert_eq!(slice.length(), 50);
    assert_eq!(
        slice.start(),
        50,
        "the start is not clamped, only the length"
    );

    let mut buf = [0u8; 8];
    match slice.read_at(45, &mut buf) {
        Err(Error::ShortRead { offset, want, got }) => {
            assert_eq!((offset, want, got), (45, 8, 0));
        }
        other => panic!("expected the slice's own ShortRead, got {other:?}"),
    }
    assert_eq!(buf, [0u8; 8], "a refused read leaves the buffer alone");
}

#[test]
fn an_owned_slice_cannot_claim_more_than_its_parent_holds() {
    let mut v = vec![0u8; 100];
    v[50..58].copy_from_slice(b"LASTHALF");
    let dev = Shared::new(Bytes::new(v));
    let mut slice = OwnedSlice::new(dev, 50, 100);

    assert_eq!(slice.size_bytes(), 50);
    assert_eq!(slice.length(), 50);

    // What is there still reads.
    let mut buf = [0u8; 8];
    slice.read_at(0, &mut buf).unwrap();
    assert_eq!(&buf, b"LASTHALF");

    match slice.read_at(45, &mut buf) {
        Err(Error::ShortRead { offset, want, got }) => {
            assert_eq!((offset, want, got), (45, 8, 0));
        }
        other => panic!("expected the slice's own ShortRead, got {other:?}"),
    }
}

#[test]
fn an_rw_slice_refuses_a_write_past_its_parents_end_as_out_of_bounds() {
    let mut dev = Shared::new(RwBytes::new(vec![0u8; 64]));
    let mut slice = OwnedRwSlice::new(dev.clone(), 32, 4096);

    assert_eq!(slice.size_bytes(), 32);

    // Inside the clamped window still writes through.
    slice.write_at(0, &[0xAB; 4]).unwrap();
    let mut pbuf = [0u8; 4];
    dev.read_at(32, &mut pbuf).unwrap();
    assert_eq!(pbuf, [0xAB; 4]);

    match slice.write_at(32, &[0xCD; 8]) {
        Err(Error::OutOfBounds { offset, len, size }) => {
            assert_eq!((offset, len, size), (32, 8, 32));
        }
        other => panic!("expected the slice's own OutOfBounds, got {other:?}"),
    }
    assert_eq!(dev.size_bytes(), 64, "the parent did not grow");
}

#[test]
fn a_slice_starting_past_its_parents_end_is_empty() {
    let mut v = vec![0u8; 100];
    v[0..8].copy_from_slice(b"NOTYOURS");
    let dev = Shared::new(Bytes::new(v));
    let mut slice = OwnedSlice::new(dev, 200, 64);

    assert_eq!(slice.size_bytes(), 0);

    let mut buf = [0u8; 8];
    match slice.read_at(0, &mut buf) {
        Err(Error::ShortRead { offset, want, got }) => {
            assert_eq!((offset, want, got), (0, 8, 0));
        }
        other => panic!("expected ShortRead, got {other:?}"),
    }
    assert_eq!(buf, [0u8; 8]);
}

#[test]
fn owned_rw_slice_flush_delegates_to_parent() {
    let dev = Shared::new(RwBytes::new(vec![0u8; 8]));
    let mut slice = OwnedRwSlice::new(dev, 0, 8);
    slice.flush().unwrap();
}

#[test]
fn owned_rw_slice_writes_land_on_parent_at_offset() {
    let parent_inner = Shared::new(Storage::new(vec![0u8; 32], true));
    let parent = parent_inner.clone();
    let mut slice = OwnedRwSlice::new(parent, 8, 16);

    assert_eq!(slice.size_bytes(), 16);
    assert_eq!(slice.start(), 8);
    assert_eq!(slice.length(), 16);
    assert!(slice.is_writable());

    slice.write_at(4, &[0xAA, 0xBB, 0xCC, 0xDD]).unwrap();

    let mut buf = [0u8; 4];
    slice.read_at(4, &mut buf).unwrap();
    assert_eq!(buf, [0xAA, 0xBB, 0xCC, 0xDD]);

    let raw = parent_inner.0.lock().unwrap();
    assert_eq!(&raw.storage[12..16], &[0xAA, 0xBB, 0xCC, 0xDD]);
}

#[test]
fn owned_rw_slice_write_past_length_returns_out_of_bounds() {
    let parent = Shared::new(Storage::new(vec![0u8; 32], true));
    let mut slice = OwnedRwSlice::new(parent, 0, 8);
    let err = slice.write_at(6, &[1, 2, 3, 4]).unwrap_err();
    match err {
        Error::OutOfBounds { offset, len, size } => {
            assert_eq!(offset, 6);
            assert_eq!(len, 4);
            assert_eq!(size, 8);
        }
        other => panic!("expected OutOfBounds, got {other:?}"),
    }
}

#[test]
fn owned_rw_slice_write_through_readonly_parent_returns_readonly() {
    let parent = Shared::new(Storage::new(vec![0u8; 32], false));
    let mut slice = OwnedRwSlice::new(parent, 0, 16);
    assert!(!slice.is_writable());
    let err = slice.write_at(0, &[1, 2, 3, 4]).unwrap_err();
    assert!(matches!(err, Error::ReadOnly));
}

#[test]
fn the_range_is_looked_at_before_the_parent() {
    let parent = Shared::new(Storage::new(vec![0u8; 32], false));
    let mut slice = OwnedRwSlice::new(parent, 0, 16);
    let err = slice.write_at(15, &[1, 2]).unwrap_err();
    assert!(matches!(err, Error::OutOfBounds { .. }));
}

#[test]
fn owned_rw_slice_flush_propagates_to_parent() {
    let parent_inner = Shared::new(Storage::new(vec![0u8; 16], true));
    let parent = parent_inner.clone();
    let mut slice = OwnedRwSlice::new(parent, 0, 16);
    slice.flush().unwrap();
    slice.flush().unwrap();
    assert_eq!(parent_inner.0.lock().unwrap().flushes, 2);
}

#[test]
fn owned_rw_slice_read_past_length_returns_short_read() {
    let parent = Shared::new(Storage::new(vec![0u8; 32], true));
    let mut slice = OwnedRwSlice::new(parent, 0, 8);
    let mut buf = [0u8; 4];
    match slice.read_at(6, &mut buf) {
        Err(Error::ShortRead { offset, want, got }) => {
            assert_eq!(offset, 6);
            assert_eq!(want, 4);
            assert_eq!(got, 0);
        }
        other => panic!("expected ShortRead, got {other:?}"),
    }
}

#[test]
fn slice_reader_nested_in_owned_slice_rebases_correctly() {
    let mut v = vec![0u8; 32];
    for (i, b) in v.iter_mut().enumerate() {
        *b = i as u8;
    }
    let parent = Shared::new(Storage::new(v, false));
    let mut outer = OwnedSlice::new(parent, 8, 16);
    assert_eq!(outer.size_bytes(), 16);

    let mut inner = SliceReader::new(&mut outer, 4, 8);
    assert_eq!(inner.size_bytes(), 8);
    let mut buf = [0u8; 8];
    inner.read_at(0, &mut buf).unwrap();
    assert_eq!(buf, [12, 13, 14, 15, 16, 17, 18, 19]);
}

#[test]
fn owned_rw_slice_is_send_sync() {
    fn assert_send_sync<T: Send + Sync>() {}
    assert_send_sync::<OwnedRwSlice<RwBytes>>();
}

#[test]
fn owned_rw_slice_write_offset_overflow_is_out_of_bounds() {
    let parent = Shared::new(Storage::new(vec![0u8; 32], true));
    let mut slice = OwnedRwSlice::new(parent, 0, 8);
    let err = slice.write_at(u64::MAX - 1, &[1, 2, 3, 4]).unwrap_err();
    assert!(matches!(err, Error::OutOfBounds { .. }));
}

#[test]
fn a_slice_gives_its_parent_back_with_what_was_written() {
    let mut slice = OwnedRwSlice::new(RwBytes::new(vec![0u8; 8]), 2, 4);
    slice.write_at(1, &[5, 6]).unwrap();
    assert_eq!(slice.parent().0, vec![0, 0, 0, 5, 6, 0, 0, 0]);
    assert_eq!(slice.into_parent().0, vec![0, 0, 0, 5, 6, 0, 0, 0]);
}

#[test]
fn a_write_to_a_slice_leaves_the_rest_of_the_parent() {
    let mut parent = RwBytes::new(vec![9u8; 8]);
    {
        let mut slice = OwnedRwSlice::new(&mut parent, 2, 4);
        slice.write_at(0, &[1, 2, 3, 4]).unwrap();
    }
    assert_eq!(parent.0, vec![9, 9, 1, 2, 3, 4, 9, 9]);
}

#[test]
fn a_slice_does_not_change_its_length() {
    let mut slice = OwnedRwSlice::new(RwBytes::new(vec![0u8; 64]), 16, 32);
    assert!(!slice.can_grow());
    assert!(matches!(slice.set_len(64), Err(Error::ReadOnly)));
    assert_eq!(slice.size_bytes(), 32);
}

#[test]
fn closing_a_slice_gives_the_parent_back_as_it_stands() {
    let mut counted = CountingDevice::new(Bytes::new((0..64u8).collect()));
    let mut slice = SliceReader::new(&mut counted, 16, 8);
    let mut buf = [0u8; 4];
    slice.read_at(2, &mut buf).unwrap();
    assert_eq!(buf, [18, 19, 20, 21]);
    assert!(slice.read_at(6, &mut buf).is_err());
    slice.close();
    assert_eq!(counted.reads(), 1);
    assert_eq!(counted.bytes(), 4);
}
