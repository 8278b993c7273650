use fs_core::ffi::{
    accept_callbacks, accept_opened, accept_path, cb_result, check_arguments, ffi_guard,
    ffi_guard_or, panic_message, slice_ro, slice_rw, slice_window, Ended, FsCoreDevice,
    FsCoreErrorCode, LastError, PanicPayload, PathArgument,
};
use fs_core::file_device::{reported_size, FileKind, FileState, ReadNext, ReadProgress};
use fs_core::test_device::RwBytes;
use fs_core::{BlockDevice, BlockRead, Error};
use std::io;

#[test]
fn the_error_codes_still_have_the_numbers_they_were_published_with() {
    assert_eq!(FsCoreErrorCode::Success as i32, 0);
    assert_eq!(FsCoreErrorCode::Io as i32, 1);
    assert_eq!(FsCoreErrorCode::ShortRead as i32, 2);
    assert_eq!(FsCoreErrorCode::ReadOnly as i32, 3);
    assert_eq!(FsCoreErrorCode::OutOfBounds as i32, 4);
    assert_eq!(FsCoreErrorCode::Custom as i32, 5);
    assert_eq!(FsCoreErrorCode::NullArg as i32, 6);
    assert_eq!(FsCoreErrorCode::Panic as i32, 7);
    assert_eq!(FsCoreErrorCode::BadString as i32, 8);
    for code in [
        FsCoreErrorCode::Success,
        FsCoreErrorCode::Io,
        FsCoreErrorCode::ShortRead,
        FsCoreErrorCode::ReadOnly,
        FsCoreErrorCode::OutOfBounds,
        FsCoreErrorCode::Custom,
        FsCoreErrorCode::NullArg,
        FsCoreErrorCode::Panic,
        FsCoreErrorCode::BadString,
    ] {
        assert_eq!(code.number(), code as i32);
    }
}

#[test]
fn every_error_has_its_code() {
    let cases = [
        (Error::Io(io::Error::other("x")), FsCoreErrorCode::Io),
        (
            Error::ShortRead {
                offset: 0,
                want: 1,
                got: 0,
            },
            FsCoreErrorCode::ShortRead,
        ),
        (Error::ReadOnly, FsCoreErrorCode::ReadOnly),
        (
            Error::OutOfBounds {
                offset: 0,
                len: 1,
                size: 0,
            },
            FsCoreErrorCode::OutOfBounds,
        ),
        (Error::Custom("y".into()), FsCoreErrorCode::Custom),
    ];
    for (error, code) in cases {
        assert_eq!(FsCoreErrorCode::from_error(&error), code);
    }
}

#[test]
fn a_caught_panic_reports_what_it_said() {
    assert_eq!(
        panic_message(&PanicPayload::Text("a literal message".into())),
        "a literal message"
    );
    assert_eq!(panic_message(&PanicPayload::Other), "panic in FFI");
}

#[test]
fn a_panic_computing_the_size_is_reported_not_just_swallowed() {
    let mut last = LastError::new();
    let size = ffi_guard_or(
        &mut last,
        0u64,
        Ended::Panicked(PanicPayload::Text("no size".into())),
    );
    assert_eq!(size, 0);
    assert_eq!(last.last_error_message(), Some("no size"));
    let code = ffi_guard(
        &mut last,
        Ended::Panicked(PanicPayload::Other),
    );
    assert_eq!(code, FsCoreErrorCode::Panic);
    assert_eq!(last.last_error_message(), Some("panic in FFI"));
}

#[test]
fn a_guarded_value_is_handed_back() {
    let mut last = LastError::new();
    last.set_last_error("kept");
    assert_eq!(ffi_guard_or(&mut last, 0u64, Ended::Returned(7)), 7);
    assert_eq!(last.last_error_message(), Some("kept"));
}

#[test]
fn a_successful_call_clears_the_previous_error() {
    let mut last = LastError::new();
    last.set_last_error("before");
    assert_eq!(last.last_error_message(), Some("before"));
    let mut device = FsCoreDevice::into_handle(RwBytes::new(vec![0u8; 16]));
    assert_eq!(FsCoreDevice::size_bytes(Some(&*device), &mut last), 16);
    assert_eq!(last.last_error_message(), None);

    last.set_last_error("before");
    let mut buf = [9u8; 4];
    assert_eq!(device.read_at(&mut last, 0, &mut buf), FsCoreErrorCode::Success);
    assert_eq!(last.last_error_message(), None);
    last.set_last_error("before");
    assert_eq!(device.write_at(&mut last, 0, &buf), FsCoreErrorCode::Success);
    assert_eq!(last.last_error_message(), None);
    last.set_last_error("before");
    assert_eq!(device.flush(&mut last), FsCoreErrorCode::Success);
    assert_eq!(last.last_error_message(), None);
}

#[test]
fn a_message_that_a_successful_call_left_stays() {
    let mut last = LastError::new();
    last.clear_last_error();
    last.set_last_error("left by the call");
    let code = ffi_guard(&mut last, Ended::Returned(Ok(())));
    assert_eq!(code, FsCoreErrorCode::Success);
    assert_eq!(last.last_error_message(), Some("left by the call"));
    let code = ffi_guard(&mut last, Ended::Returned(Err(Error::ReadOnly)));
    assert_eq!(code, FsCoreErrorCode::ReadOnly);
    assert_eq!(last.last_error_message(), Some("device is read-only"));
}

#[test]
fn a_nul_in_a_message_becomes_a_question_mark() {
    let mut last = LastError::new();
    last.set_last_error("a\0b\0");
    assert_eq!(last.last_error_message(), Some("a?b?"));
    last.clear_last_error();
    assert_eq!(last.last_error_message(), None);
}

#[test]
fn a_null_handle_to_size_bytes_names_the_argument() {
    let mut last = LastError::new();
    assert_eq!(FsCoreDevice::<RwBytes>::size_bytes(None, &mut last), 0);
    assert_eq!(
        last.last_error_message(),
        Some("fs_core_device_size_bytes: handle is null")
    );
}

#[test]
fn a_null_handle_to_is_writable_names_the_argument() {
    let mut last = LastError::new();
    assert!(!FsCoreDevice::<RwBytes>::is_writable(None, &mut last));
    assert_eq!(
        last.last_error_message(),
        Some("fs_core_device_is_writable: handle is null")
    );
}

#[test]
fn a_null_argument_to_read_at_names_which_one() {
    let mut last = LastError::new();
    let code = check_arguments(&mut last, "fs_core_device_read_at", true, true);
    assert_eq!(code, Some(FsCoreErrorCode::NullArg));
    assert_eq!(
        last.last_error_message(),
        Some("fs_core_device_read_at: handle is null")
    );
    let code = check_arguments(&mut last, "fs_core_device_read_at", false, true);
    assert_eq!(code, Some(FsCoreErrorCode::NullArg));
    assert_eq!(
        last.last_error_message(),
        Some("fs_core_device_read_at: buf is null")
    );
    last.clear_last_error();
    assert_eq!(
        check_arguments(&mut last, "fs_core_device_read_at", false, false),
        None
    );
    assert_eq!(last.last_error_message(), None);
}

#[test]
fn a_handle_reads_and_writes_its_device() {
    let mut last = LastError::new();
    let mut handle = FsCoreDevice::into_handle(RwBytes::new(vec![0u8; 8]));
    assert_eq!(FsCoreDevice::size_bytes(Some(&*handle), &mut last), 8);
    assert!(FsCoreDevice::is_writable(Some(&*handle), &mut last));
    assert_eq!(handle.write_at(&mut last, 2, &[1, 2]), FsCoreErrorCode::Success);
    let mut buf = [9u8; 4];
    assert_eq!(handle.read_at(&mut last, 1, &mut buf), FsCoreErrorCode::Success);
    assert_eq!(buf, [0, 1, 2, 0]);
    assert_eq!(handle.flush(&mut last), FsCoreErrorCode::Success);
    assert_eq!(last.last_error_message(), None);
    assert_eq!(handle.inner().0, vec![0, 0, 1, 2, 0, 0, 0, 0]);

    assert_eq!(
        handle.read_at(&mut last, 6, &mut buf),
        FsCoreErrorCode::ShortRead
    );
    assert_eq!(
        last.last_error_message(),
        Some("short read at 6: wanted 4 got 0")
    );
}

#[test]
fn slice_ro_null_parent_returns_null_and_sets_last_error() {
    let mut last = LastError::new();
    assert!(slice_ro::<RwBytes>(&mut last, None, 0, 16).is_none());
    assert_eq!(last.last_error_message(), Some("parent is null"));
}

#[test]
fn slice_rw_null_parent_returns_null_and_sets_last_error() {
    let mut last = LastError::new();
    assert!(slice_rw::<RwBytes>(&mut last, None, 0, 16).is_none());
    assert_eq!(last.last_error_message(), Some("parent is null"));
}

#[test]
fn a_window_with_nothing_in_it_is_refused_with_the_numbers() {
    let mut last = LastError::new();
    assert_eq!(slice_window(&mut last, 64, 64, 8, "slice_ro"), None);
    assert_eq!(
        last.last_error_message(),
        Some(
            "fs_core_device_slice_ro: start 64 is at or past the end of the parent device \
             (64 bytes), so there is nothing to slice"
        )
    );
    last.clear_last_error();
    assert_eq!(slice_window(&mut last, 64, 60, 8, "slice_ro"), Some(4));
    assert_eq!(last.last_error_message(), None);

    assert!(slice_rw(&mut last, Some(RwBytes::new(vec![0; 4])), 4, 1).is_none());
    assert_eq!(
        last.last_error_message(),
        Some(
            "fs_core_device_slice_rw: start 4 is at or past the end of the parent device \
             (4 bytes), so there is nothing to slice"
        )
    );
    let mut slice = slice_rw(&mut last, Some(RwBytes::new(vec![0; 4])), 3, 9).expect("one byte");
    assert_eq!(slice.size_bytes(), 1);
    assert_eq!(last.last_error_message(), None);
    slice.write_at(0, &[5]).unwrap();
    assert_eq!(slice.into_parent().0, vec![0, 0, 0, 5]);

    let mut ro = slice_ro(&mut last, Some(RwBytes::new(vec![1, 2, 3])), 1, 2).expect("two bytes");
    assert!(!ro.is_writable());
    let mut buf = [0u8; 2];
    ro.read_at(0, &mut buf).unwrap();
    assert_eq!(buf, [2, 3]);
}

#[test]
fn paths_and_opened_devices_are_accepted_or_explained() {
    let mut last = LastError::new();
    assert_eq!(accept_path(&mut last, PathArgument::Null), None);
    assert_eq!(last.last_error_message(), Some("path is null"));
    assert_eq!(accept_path(&mut last, PathArgument::NotText), None);
    assert_eq!(last.last_error_message(), Some("path is not valid UTF-8"));
    assert_eq!(accept_path(&mut last, PathArgument::Path("/x")), Some("/x"));
    assert_eq!(last.last_error_message(), None);

    assert_eq!(accept_opened(&mut last, Ok::<u8, Error>(3)), Some(3));
    let failed: Result<u8, Error> = Err(Error::Io(io::Error::other("gone")));
    assert_eq!(accept_opened(&mut last, failed), None);
    assert_eq!(last.last_error_message(), Some("io: gone"));
}

#[test]
fn callback_device_null_cfg_returns_null() {
    let mut last = LastError::new();
    assert!(!accept_callbacks(&mut last, true, true));
    assert_eq!(last.last_error_message(), Some("cfg is null"));
    assert!(!accept_callbacks(&mut last, false, true));
    assert_eq!(last.last_error_message(), Some("cfg.read is null"));
    assert!(accept_callbacks(&mut last, false, false));
    assert_eq!(last.last_error_message(), None);
}

#[test]
fn a_callbacks_return_code_is_named() {
    assert!(cb_result(0, "read").is_ok());
    let err = cb_result(-5, "read").unwrap_err().into_io_error();
    assert_eq!(err.kind(), io::ErrorKind::Other);
    assert_eq!(err.to_string(), "callback read returned -5");
    let err = cb_result(i32::MIN, "write").unwrap_err().into_io_error();
    assert_eq!(err.to_string(), "callback write returned -2147483648");
}

#[test]
fn a_file_device_refuses_what_it_cannot_write() {
    let ro = FileState::new(100, false, FileKind::Regular);
    assert!(matches!(ro.check_write(0, 1), Err(Error::ReadOnly)));
    assert!(!ro.needs_flush());
    let rw = FileState::new(100, true, FileKind::Regular);
    assert!(rw.check_write(0, 100).is_ok());
    match rw.check_write(94, 8) {
        Err(Error::OutOfBounds { offset, len, size }) => {
            assert_eq!((offset, len, size), (94, 8, 100));
        }
        other => panic!("expected OutOfBounds, got {other:?}"),
    }
    assert!(matches!(
        rw.check_write(u64::MAX - 3, 8),
        Err(Error::OutOfBounds { .. })
    ));
    assert!(rw.is_writable());
}

#[test]
fn a_file_device_reports_the_narrower_length_while_it_is_resized() {
    let mut file = FileState::new(4096, true, FileKind::Regular);
    assert!(file.can_grow());
    let was = file.begin_set_len(8192).expect("a regular file grows");
    assert_eq!((was, file.size_bytes()), (4096, 4096));
    file.finish_set_len(was, 8192, true);
    assert_eq!(file.size_bytes(), 8192);

    let was = file.begin_set_len(1000).expect("and shrinks");
    assert_eq!((was, file.size_bytes()), (8192, 1000));
    file.finish_set_len(was, 1000, false);
    assert_eq!(file.size_bytes(), 8192, "a refused shrink is undone");

    let mut node = FileState::new(4096, true, FileKind::Node);
    assert!(!node.can_grow());
    assert!(matches!(node.begin_set_len(1), Err(Error::ReadOnly)));
    let mut ro = FileState::new(4096, false, FileKind::Regular);
    assert!(matches!(ro.begin_set_len(1), Err(Error::ReadOnly)));
    assert_eq!(ro.size_bytes(), 4096);
}

#[test]
fn a_device_node_is_measured_or_not_opened() {
    assert_eq!(reported_size(FileKind::Regular, 3000, None), Some(3000));
    assert_eq!(reported_size(FileKind::Regular, 0, Some(5)), Some(0));
    assert_eq!(reported_size(FileKind::Node, 0, Some(512)), Some(512));
    assert_eq!(reported_size(FileKind::Node, 0, None), None);
}

#[test]
fn a_read_of_a_file_asks_for_the_rest_until_it_is_full_or_short() {
    let mut read = ReadProgress::new(10, 8);
    assert!(matches!(read.next(), ReadNext::Ask { at: 10, from: 0 }));
    assert!(matches!(read.got(5), ReadNext::Ask { at: 15, from: 5 }));
    assert!(matches!(read.got(3), ReadNext::Done));

    let mut read = ReadProgress::new(10, 8);
    read.got(5);
    match read.got(0) {
        ReadNext::Fail(Error::ShortRead { offset, want, got }) => {
            assert_eq!((offset, want, got), (10, 8, 5));
        }
        _ => panic!("expected a short read"),
    }
    assert!(matches!(ReadProgress::new(3, 0).next(), ReadNext::Done));
    let mut read = ReadProgress::new(u64::MAX, 8);
    assert!(matches!(
        read.got(1),
        ReadNext::Fail(Error::ShortRead { got: 1, .. })
    ));
}

#[test]
fn null_args_return_null_arg() {
    let mut last = LastError::new();
    assert_eq!(
        check_arguments(&mut last, "fs_core_device_read_at", true, false),
        Some(FsCoreErrorCode::NullArg)
    );
    assert_eq!(
        check_arguments(&mut last, "fs_core_device_flush", true, false),
        Some(FsCoreErrorCode::NullArg)
    );
}

#[test]
fn a_panic_probing_writability_is_reported() {
    let mut last = LastError::new();
    let writable = ffi_guard_or(&mut last, false, Ended::Panicked(PanicPayload::Other));
    assert!(!writable, "the fallback value is still returned");
    assert!(
        last.last_error_message().is_some(),
        "a caught panic must leave a message"
    );
}

#[test]
fn a_null_handle_to_flush_names_the_argument() {
    let mut last = LastError::new();
    last.set_last_error("left over");
    let rc = check_arguments(&mut last, "fs_core_device_flush", true, false);
    assert_eq!(rc, Some(FsCoreErrorCode::NullArg), "the code is still NullArg");
    assert_eq!(
        last.last_error_message(),
        Some("fs_core_device_flush: handle is null")
    );
}

#[test]
fn a_null_argument_to_write_at_names_which_one() {
    let mut last = LastError::new();
    last.set_last_error("left over");
    let rc = check_arguments(&mut last, "fs_core_device_write_at", true, false);
    assert_eq!(rc, Some(FsCoreErrorCode::NullArg));
    assert_eq!(
        last.last_error_message(),
        Some("fs_core_device_write_at: handle is null")
    );

    last.set_last_error("left over");
    let rc = check_arguments(&mut last, "fs_core_device_write_at", false, true);
    assert_eq!(rc, Some(FsCoreErrorCode::NullArg));
    assert_eq!(
        last.last_error_message(),
        Some("fs_core_device_write_at: buf is null")
    );
}

#[test]
fn a_failing_callback_is_named_in_the_last_error() {
    let mut last = LastError::new();
    let failed = cb_result(5, "read").unwrap_err().into_io_error();
    assert_eq!(failed.kind(), io::ErrorKind::Other);
    let code = ffi_guard(&mut last, Ended::Returned(Err(Error::Io(failed))));
    assert_eq!(code.number(), FsCoreErrorCode::Io.number());
    assert_eq!(last.last_error_message(), Some("io: callback read returned 5"));
}
