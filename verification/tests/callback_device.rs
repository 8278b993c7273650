use fs_core::{BlockDevice, BlockRead, CallbackDevice, Error};
use std::io;
use std::sync::atomic::{AtomicU32, Ordering};
use std::sync::{Arc, Mutex};

type ReadCb = Box<dyn Fn(u64, &mut [u8]) -> io::Result<()> + Send + Sync>;
type WriteCb = Box<dyn Fn(u64, &[u8]) -> io::Result<()> + Send + Sync>;
type FlushCb = Box<dyn Fn() -> io::Result<()> + Send + Sync>;
type Callbacks = CallbackDevice<ReadCb, WriteCb, FlushCb>;

#[test]
fn with_writer_is_writable_and_dispatches_writes() {
    let storage: Arc<Mutex<Vec<u8>>> = Arc::new(Mutex::new(vec![0u8; 64]));
    let r = storage.clone();
    let w = storage.clone();
    let mut dev: Callbacks = CallbackDevice {
        size: 64,
        read: Box::new(move |off, buf| {
            let b = r.lock().unwrap();
            let s = off as usize;
            buf.copy_from_slice(&b[s..s + buf.len()]);
            Ok(())
        }),
        write: Some(Box::new(move |off, buf| {
            let mut b = w.lock().unwrap();
            let s = off as usize;
            b[s..s + buf.len()].copy_from_slice(buf);
            Ok(())
        })),
        flush: None,
    };
    assert!(dev.is_writable());
    dev.write_at(8, &[0xAA, 0xBB, 0xCC]).unwrap();
    let mut buf = [0u8; 3];
    dev.read_at(8, &mut buf).unwrap();
    assert_eq!(buf, [0xAA, 0xBB, 0xCC]);
}

#[test]
fn flush_callback_invoked_when_present() {
    let flushes = Arc::new(AtomicU32::new(0));
    let f = flushes.clone();
    let mut dev: Callbacks = CallbackDevice {
        size: 4,
        read: Box::new(|_, buf| {
            buf.fill(0);
            Ok(())
        }),
        write: None,
        flush: Some(Box::new(move || {
            f.fetch_add(1, Ordering::Relaxed);
            Ok(())
        })),
    };
    dev.flush().unwrap();
    dev.flush().unwrap();
    assert_eq!(flushes.load(Ordering::Relaxed), 2);
}

#[test]
fn flush_without_callback_is_noop_ok() {
    let mut dev: Callbacks = CallbackDevice {
        size: 4,
        read: Box::new(|_, buf| {
            buf.fill(0);
            Ok(())
        }),
        write: None,
        flush: None,
    };
    dev.flush().unwrap();
}

#[test]
fn read_callback_io_error_propagates_via_io_variant() {
    let mut dev: Callbacks = CallbackDevice {
        size: 16,
        read: Box::new(|_, _| Err(io::Error::new(io::ErrorKind::UnexpectedEof, "boom"))),
        write: None,
        flush: None,
    };
    let mut buf = [0u8; 8];
    let err = dev.read_at(0, &mut buf).unwrap_err();
    match err {
        Error::Io(inner) => assert_eq!(inner.kind(), io::ErrorKind::UnexpectedEof),
        other => panic!("expected Error::Io, got {other:?}"),
    }
}

#[test]
fn write_callback_io_error_propagates_via_io_variant() {
    let mut dev: Callbacks = CallbackDevice {
        size: 8,
        read: Box::new(|_, buf| {
            buf.fill(0);
            Ok(())
        }),
        write: Some(Box::new(|_, _| {
            Err(io::Error::new(io::ErrorKind::PermissionDenied, "ro"))
        })),
        flush: None,
    };
    assert!(dev.is_writable());
    let err = dev.write_at(0, &[1, 2, 3]).unwrap_err();
    match err {
        Error::Io(inner) => assert_eq!(inner.kind(), io::ErrorKind::PermissionDenied),
        other => panic!("expected Error::Io, got {other:?}"),
    }
}

#[test]
fn size_bytes_matches_declared_size() {
    let dev: Callbacks = CallbackDevice {
        size: 12345,
        read: Box::new(|_, buf| {
            buf.fill(0);
            Ok(())
        }),
        write: None,
        flush: None,
    };
    assert_eq!(dev.size_bytes(), 12345);
}

#[test]
fn callback_device_without_writer_rejects_writes() {
    let mut dev: Callbacks = CallbackDevice {
        size: 4096,
        read: Box::new(|_, buf| {
            buf.fill(0);
            Ok(())
        }),
        write: None,
        flush: None,
    };
    assert!(!dev.is_writable());
    assert!(dev.write_at(0, &[0u8; 4]).is_err());
    assert!(matches!(dev.write_at(0, &[0u8; 4]), Err(Error::ReadOnly)));
    assert!(!dev.can_grow());
    assert!(matches!(dev.set_len(8192), Err(Error::ReadOnly)));
}

#[test]
fn callback_devices_size_is_a_field_the_caller_owns() {
    let mut dev: Callbacks = CallbackDevice {
        size: 12345,
        read: Box::new(|_, _| Ok(())),
        write: None,
        flush: None,
    };
    assert_eq!(dev.size_bytes(), 12345, "control: as constructed");

    dev.size = 99;
    assert_eq!(
        dev.size_bytes(),
        99,
        "the field is public and size_bytes reads it, so a caller can move the \
         reported size after construction."
    );
}

#[test]
fn what_a_failing_callback_left_in_the_buffer_stays_there() {
    let mut dev: Callbacks = CallbackDevice {
        size: 16,
        read: Box::new(|off, buf| {
            buf[0] = off as u8;
            Err(io::Error::other("half way"))
        }),
        write: None,
        flush: None,
    };
    let mut buf = [7u8; 3];
    assert!(dev.read_at(5, &mut buf).is_err());
    assert_eq!(buf, [5, 7, 7]);
}
