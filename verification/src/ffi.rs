//! What a C interface to a device answers: error codes, the message of the last failure, and the
//! refusals of arguments that are not there. Pointers are the caller's.
use crate::block::{BlockDevice, BlockRead};
use crate::chars::{chars_of, text_of};
use crate::error::{io_text, says, Error};
use crate::slice::{window, window_on_parent, OwnedRwSlice, OwnedSlice};
use crate::stream::{is_new, made_io_error, FailureKind, IoFailure};
use crate::text::{
    decimal_text, decimals_read_back, digits_of, lemma_mentions, mentions, push_decimal,
    signed_decimal, signed_decimal_text,
};
use vstd::prelude::*;
use vstd::string::*;

verus! {

/// The codes that cross the C interface. Their numbers are published, in this order from zero.
#[derive(Debug, Clone, Copy, PartialEq, Eq, Structural)]
pub enum FsCoreErrorCode {
    Success,
    Io,
    ShortRead,
    ReadOnly,
    OutOfBounds,
    Custom,
    NullArg,
    Panic,
    BadString,
}

/// The number of a code.
pub open spec fn code_number(code: FsCoreErrorCode) -> i32 {
    match code {
        FsCoreErrorCode::Success => 0,
        FsCoreErrorCode::Io => 1,
        FsCoreErrorCode::ShortRead => 2,
        FsCoreErrorCode::ReadOnly => 3,
        FsCoreErrorCode::OutOfBounds => 4,
        FsCoreErrorCode::Custom => 5,
        FsCoreErrorCode::NullArg => 6,
        FsCoreErrorCode::Panic => 7,
        FsCoreErrorCode::BadString => 8,
    }
}

/// The code of an error.
pub open spec fn code_of(e: Error) -> FsCoreErrorCode {
    match e {
        Error::Io(_) => FsCoreErrorCode::Io,
        Error::ShortRead { .. } => FsCoreErrorCode::ShortRead,
        Error::ReadOnly => FsCoreErrorCode::ReadOnly,
        Error::OutOfBounds { .. } => FsCoreErrorCode::OutOfBounds,
        Error::Custom(_) => FsCoreErrorCode::Custom,
    }
}

impl FsCoreErrorCode {
    /// The code of an error.
    pub fn from_error(e: &Error) -> (r: Self)
        ensures
            r == code_of(*e),
    {
        match e {
            Error::Io(_) => FsCoreErrorCode::Io,
            Error::ShortRead { .. } => FsCoreErrorCode::ShortRead,
            Error::ReadOnly => FsCoreErrorCode::ReadOnly,
            Error::OutOfBounds { .. } => FsCoreErrorCode::OutOfBounds,
            Error::Custom(_) => FsCoreErrorCode::Custom,
        }
    }

    /// The number of the code.
    pub fn number(self) -> (r: i32)
        ensures
            r == code_number(self),
    {
        match self {
            FsCoreErrorCode::Success => 0,
            FsCoreErrorCode::Io => 1,
            FsCoreErrorCode::ShortRead => 2,
            FsCoreErrorCode::ReadOnly => 3,
            FsCoreErrorCode::OutOfBounds => 4,
            FsCoreErrorCode::Custom => 5,
            FsCoreErrorCode::NullArg => 6,
            FsCoreErrorCode::Panic => 7,
            FsCoreErrorCode::BadString => 8,
        }
    }
}

/// `text` with a question mark for every NUL, so that C can carry it.
pub open spec fn without_nul(text: Seq<char>) -> Seq<char> {
    text.map_values(
        |c: char|
            if c == '\0' {
                '?'
            } else {
                c
            },
    )
}

/// The message of the last failure, where there was one.
pub struct LastError {
    message: Option<String>,
}

impl View for LastError {
    type V = Option<Seq<char>>;

    closed spec fn view(&self) -> Option<Seq<char>> {
        match self.message {
            Some(m) => Some(m@),
            None => None,
        }
    }
}

impl LastError {
    /// No failure so far.
    pub fn new() -> (r: Self)
        ensures
            r@ is None,
    {
        LastError { message: None }
    }

    /// Keep a message.
    pub fn set_last_error(&mut self, message: &str)
        ensures
            final(self)@ == Some(without_nul(message@)),
    {
        let chars = chars_of(message);
        let mut out: Vec<char> = Vec::new();
        let mut i: usize = 0;
        while i < chars.len()
            invariant
                0 <= i <= chars@.len(),
                out@ == without_nul(chars@).take(i as int),
            decreases chars@.len() - i,
        {
            let c: char = chars[i];
            let kept: char = if c == '\0' {
                '?'
            } else {
                c
            };
            out.push(kept);
            i = i + 1;
            assert(out@ =~= without_nul(chars@).take(i as int));
        }
        assert(out@ =~= without_nul(chars@));
        self.message = Some(text_of(out.as_slice()));
    }

    /// Forget the message.
    pub fn clear_last_error(&mut self)
        ensures
            final(self)@ is None,
    {
        self.message = None;
    }

    /// The message of the last failure.
    pub fn last_error_message(&self) -> (r: Option<&str>)
        ensures
            match r {
                Some(m) => self@ == Some(m@),
                None => self@ is None,
            },
    {
        match &self.message {
            Some(m) => Some(m.as_str()),
            None => None,
        }
    }
}

/// What a panic carried: a text, or something else.
pub enum PanicPayload {
    Text(String),
    Other,
}

/// What is said of a panic.
pub open spec fn panic_text(payload: PanicPayload) -> Seq<char> {
    match payload {
        PanicPayload::Text(text) => text@,
        PanicPayload::Other => "panic in FFI"@,
    }
}

/// What a panic said, or that there was one.
pub fn panic_message(payload: &PanicPayload) -> (r: String)
    ensures
        r@ == panic_text(*payload),
{
    match payload {
        PanicPayload::Text(text) => text.clone(),
        PanicPayload::Other => "panic in FFI".to_owned(),
    }
}

/// How a guarded call ended.
pub enum Ended<T> {
    Returned(T),
    Panicked(PanicPayload),
}

/// What a call that answers a code leaves, given what the device answered.
pub open spec fn reported(
    answer: Result<(), Error>,
    r: FsCoreErrorCode,
    message: Option<Seq<char>>,
) -> bool {
    match answer {
        Ok(_) => r == FsCoreErrorCode::Success && message is None,
        Err(e) => r == code_of(e) && exists|text: Seq<char>| #[trigger]
            says(e, text) && message == Some(without_nul(text)),
    }
}

/// The code of a guarded call. The message that it leaves is what the failure or the panic said;
/// where the call succeeded, it is the one that stood in `last` when the call returned. Whoever
/// runs the call clears `last` before it.
pub fn ffi_guard(last: &mut LastError, ended: Ended<Result<(), Error>>) -> (r: FsCoreErrorCode)
    ensures
        match ended {
            Ended::Returned(Ok(_)) => r == FsCoreErrorCode::Success && final(last)@ == old(last)@,
            Ended::Returned(Err(e)) => reported(Err(e), r, final(last)@),
            Ended::Panicked(payload) => r == FsCoreErrorCode::Panic && final(last)@ == Some(
                without_nul(panic_text(payload)),
            ),
        },
{
    match ended {
        Ended::Returned(Ok(_)) => FsCoreErrorCode::Success,
        Ended::Returned(Err(e)) => {
            let code = FsCoreErrorCode::from_error(&e);
            let text = e.message();
            last.set_last_error(text.as_str());
            code
        },
        Ended::Panicked(payload) => {
            let text = panic_message(&payload);
            last.set_last_error(text.as_str());
            FsCoreErrorCode::Panic
        },
    }
}

/// The value of a guarded call, or `fail` where it panicked; the message that it leaves is the
/// panic's, and otherwise the one that stood in `last` when the call returned.
pub fn ffi_guard_or<T>(last: &mut LastError, fail: T, ended: Ended<T>) -> (r: T)
    ensures
        match ended {
            Ended::Returned(value) => r == value && final(last)@ == old(last)@,
            Ended::Panicked(payload) => r == fail && final(last)@ == Some(
                without_nul(panic_text(payload)),
            ),
        },
{
    match ended {
        Ended::Returned(value) => value,
        Ended::Panicked(payload) => {
            let text = panic_message(&payload);
            last.set_last_error(text.as_str());
            fail
        },
    }
}

/// What is said of an argument that is not there.
pub open spec fn null_text(call: Seq<char>, argument: Seq<char>) -> Seq<char> {
    call + ": "@ + argument + " is null"@
}

/// Refuses a call over an argument that is not there, naming both.
pub fn refuse_null(last: &mut LastError, call: &str, argument: &str) -> (r: FsCoreErrorCode)
    ensures
        r == FsCoreErrorCode::NullArg,
        final(last)@ == Some(without_nul(null_text(call@, argument@))),
{
    let mut text = call.to_owned();
    text.append(": ");
    text.append(argument);
    text.append(" is null");
    last.set_last_error(text.as_str());
    FsCoreErrorCode::NullArg
}

/// A device behind a handle.
pub struct FsCoreDevice<D> {
    inner: D,
}

impl<D> FsCoreDevice<D> {
    /// The device behind the handle.
    pub closed spec fn device(self) -> D {
        self.inner
    }

    /// A handle to a device.
    pub fn into_handle(inner: D) -> (r: Box<FsCoreDevice<D>>)
        ensures
            r.device() == inner,
    {
        Box::new(FsCoreDevice { inner })
    }

    /// Borrow the device behind the handle.
    pub fn inner(&self) -> (r: &D)
        ensures
            *r == self.device(),
    {
        &self.inner
    }
}

impl<D: BlockDevice> FsCoreDevice<D> {
    /// The size of the device; zero, and a message, without a handle.
    pub fn size_bytes(handle: Option<&Self>, last: &mut LastError) -> (r: u64)
        requires
            handle matches Some(h) ==> h.device().wf(),
        ensures
            match handle {
                Some(h) => r == h.device().size() && final(last)@ is None,
                None => r == 0 && final(last)@ == Some(
                    without_nul(null_text("fs_core_device_size_bytes"@, "handle"@)),
                ),
            },
    {
        match handle {
            None => {
                refuse_null(last, "fs_core_device_size_bytes", "handle");
                0
            },
            Some(h) => {
                last.clear_last_error();
                h.inner.size_bytes()
            },
        }
    }

    /// Whether the device takes writes; `false`, and a message, without a handle.
    pub fn is_writable(handle: Option<&Self>, last: &mut LastError) -> (r: bool)
        requires
            handle matches Some(h) ==> h.device().wf(),
        ensures
            match handle {
                Some(h) => r == h.device().writable() && final(last)@ is None,
                None => !r && final(last)@ == Some(
                    without_nul(null_text("fs_core_device_is_writable"@, "handle"@)),
                ),
            },
    {
        match handle {
            None => {
                refuse_null(last, "fs_core_device_is_writable", "handle");
                false
            },
            Some(h) => {
                last.clear_last_error();
                h.inner.is_writable()
            },
        }
    }

    /// Read from the device behind the handle.
    pub fn read_at(&mut self, last: &mut LastError, offset: u64, buf: &mut [u8]) -> (r:
        FsCoreErrorCode)
        requires
            old(self).device().wf(),
        ensures
            final(self).device().wf(),
            final(buf)@.len() == old(buf)@.len(),
            exists|answer: Result<(), Error>|
                D::read_step(
                    &old(self).device(),
                    offset,
                    old(buf)@,
                    answer,
                    final(buf)@,
                    &final(self).device(),
                ) && #[trigger] reported(answer, r, final(last)@),
    {
        last.clear_last_error();
        let answer = self.inner.read_at(offset, buf);
        let r = ffi_guard(last, Ended::Returned(answer));
        assert(reported(answer, r, last@));
        r
    }

    /// Write to the device behind the handle.
    pub fn write_at(&mut self, last: &mut LastError, offset: u64, buf: &[u8]) -> (r:
        FsCoreErrorCode)
        requires
            old(self).device().wf(),
        ensures
            final(self).device().wf(),
            exists|answer: Result<(), Error>|
                D::write_step(
                    &old(self).device(),
                    offset,
                    buf@,
                    answer,
                    &final(self).device(),
                ) && #[trigger] reported(answer, r, final(last)@),
    {
        last.clear_last_error();
        let answer = self.inner.write_at(offset, buf);
        let r = ffi_guard(last, Ended::Returned(answer));
        assert(reported(answer, r, last@));
        r
    }

    /// Flush the device behind the handle.
    pub fn flush(&mut self, last: &mut LastError) -> (r: FsCoreErrorCode)
        requires
            old(self).device().wf(),
        ensures
            final(self).device().wf(),
            exists|answer: Result<(), Error>|
                D::flush_step(&old(self).device(), answer, &final(self).device())
                    && #[trigger] reported(answer, r, final(last)@),
    {
        last.clear_last_error();
        let answer = self.inner.flush();
        let r = ffi_guard(last, Ended::Returned(answer));
        assert(reported(answer, r, last@));
        r
    }
}

/// The code that refuses a call over the first of its arguments that is not there, the handle
/// before the buffer; `None` where both are there.
pub fn check_arguments(last: &mut LastError, call: &str, no_handle: bool, no_buffer: bool) -> (r:
    Option<FsCoreErrorCode>)
    ensures
        no_handle ==> r == Some(FsCoreErrorCode::NullArg) && final(last)@ == Some(
            without_nul(null_text(call@, "handle"@)),
        ),
        !no_handle && no_buffer ==> r == Some(FsCoreErrorCode::NullArg) && final(last)@ == Some(
            without_nul(null_text(call@, "buf"@)),
        ),
        !no_handle && !no_buffer ==> r is None && final(last)@ == old(last)@,
{
    if no_handle {
        return Some(refuse_null(last, call, "handle"));
    }
    if no_buffer {
        return Some(refuse_null(last, call, "buf"));
    }
    None
}

/// What is said of a window with nothing in it.
pub open spec fn no_window_text(what: Seq<char>, start: u64, parent_size: u64) -> Seq<char> {
    "fs_core_device_"@ + what + ": start "@ + decimal_text(start as nat)
        + " is at or past the end of the parent device ("@ + decimal_text(parent_size as nat)
        + " bytes), so there is nothing to slice"@
}

/// How much of a window the parent has; a window with nothing in it is refused, with a message.
pub fn slice_window(
    last: &mut LastError,
    parent_size: u64,
    start: u64,
    length: u64,
    what: &str,
) -> (r: Option<u64>)
    ensures
        r == window(parent_size, start, length),
        final(last)@ == match r {
            Some(_) => old(last)@,
            None => Some(without_nul(no_window_text(what@, start, parent_size))),
        },
{
    match window_on_parent(parent_size, start, length) {
        Some(clamped) => Some(clamped),
        None => {
            let mut text = "fs_core_device_".to_owned();
            text.append(what);
            text.append(": start ");
            push_decimal(&mut text, start);
            text.append(" is at or past the end of the parent device (");
            push_decimal(&mut text, parent_size);
            text.append(" bytes), so there is nothing to slice");
            last.set_last_error(text.as_str());
            None
        },
    }
}

/// A read-only window on a device; none, and a message, where the parent is not there or has
/// nothing of it.
pub fn slice_ro<D: BlockRead>(
    last: &mut LastError,
    parent: Option<D>,
    start: u64,
    length: u64,
) -> (r: Option<OwnedSlice<D>>)
    requires
        parent matches Some(p) ==> p.wf(),
    ensures
        match parent {
            None => r is None && final(last)@ == Some(without_nul("parent is null"@)),
            Some(p) => match window(p.size(), start, length) {
                None => r is None && final(last)@ == Some(
                    without_nul(no_window_text("slice_ro"@, start, p.size())),
                ),
                Some(there) => final(last)@ is None && (r matches Some(s) && s.wf() && s@.parent
                    == p && s@.geom.start == start && s@.geom.length == there),
            },
        },
{
    match parent {
        None => {
            last.set_last_error("parent is null");
            None
        },
        Some(parent) => {
            last.clear_last_error();
            match slice_window(last, parent.size_bytes(), start, length, "slice_ro") {
                Some(length) => Some(OwnedSlice::new(parent, start, length)),
                None => None,
            }
        },
    }
}

/// A window on a device, written through it; none, and a message, where the parent is not there
/// or has nothing of it.
pub fn slice_rw<D: BlockDevice>(
    last: &mut LastError,
    parent: Option<D>,
    start: u64,
    length: u64,
) -> (r: Option<OwnedRwSlice<D>>)
    requires
        parent matches Some(p) ==> p.wf(),
    ensures
        match parent {
            None => r is None && final(last)@ == Some(without_nul("parent is null"@)),
            Some(p) => match window(p.size(), start, length) {
                None => r is None && final(last)@ == Some(
                    without_nul(no_window_text("slice_rw"@, start, p.size())),
                ),
                Some(there) => final(last)@ is None && (r matches Some(s) && s.wf() && s@.parent
                    == p && s@.geom.start == start && s@.geom.length == there),
            },
        },
{
    match parent {
        None => {
            last.set_last_error("parent is null");
            None
        },
        Some(parent) => {
            last.clear_last_error();
            match slice_window(last, parent.size_bytes(), start, length, "slice_rw") {
                Some(length) => Some(OwnedRwSlice::new(parent, start, length)),
                None => None,
            }
        },
    }
}

/// A path that came across the C interface.
pub enum PathArgument<'a> {
    Null,
    NotText,
    Path(&'a str),
}

/// The path to open; none, and a message, where there is none or it is not text.
pub fn accept_path<'a>(last: &mut LastError, path: PathArgument<'a>) -> (r: Option<&'a str>)
    ensures
        match path {
            PathArgument::Null => r is None && final(last)@ == Some(without_nul("path is null"@)),
            PathArgument::NotText => r is None && final(last)@ == Some(
                without_nul("path is not valid UTF-8"@),
            ),
            PathArgument::Path(p) => r == Some(p) && final(last)@ is None,
        },
{
    match path {
        PathArgument::Null => {
            last.set_last_error("path is null");
            None
        },
        PathArgument::NotText => {
            last.set_last_error("path is not valid UTF-8");
            None
        },
        PathArgument::Path(p) => {
            last.clear_last_error();
            Some(p)
        },
    }
}

/// The device that was opened; none, and what the failure says, where it was not.
pub fn accept_opened<D>(last: &mut LastError, opened: Result<D, Error>) -> (r: Option<D>)
    ensures
        match opened {
            Ok(d) => r == Some(d) && final(last)@ == old(last)@,
            Err(e) => r is None && exists|text: Seq<char>| #[trigger]
                says(e, text) && final(last)@ == Some(without_nul(text)),
        },
{
    match opened {
        Ok(d) => Some(d),
        Err(e) => {
            let text = e.message();
            last.set_last_error(text.as_str());
            None
        },
    }
}

/// Whether a device can be made of callbacks: not without a configuration, nor without the one
/// that reads.
pub fn accept_callbacks(last: &mut LastError, no_config: bool, no_read: bool) -> (r: bool)
    ensures
        r == (!no_config && !no_read),
        no_config ==> final(last)@ == Some(without_nul("cfg is null"@)),
        !no_config && no_read ==> final(last)@ == Some(without_nul("cfg.read is null"@)),
        r ==> final(last)@ is None,
{
    if no_config {
        last.set_last_error("cfg is null");
        return false;
    }
    if no_read {
        last.set_last_error("cfg.read is null");
        return false;
    }
    last.clear_last_error();
    true
}

/// What is said of a callback that failed.
pub open spec fn callback_text(op: Seq<char>, rc: i32) -> Seq<char> {
    "callback "@ + op + " returned "@ + signed_decimal_text(rc as int)
}

/// What a callback's return code means: zero is success, and anything else a failure that names
/// the callback and the code.
pub fn cb_result(rc: i32, op: &str) -> (r: Result<(), IoFailure>)
    ensures
        rc == 0 <==> r is Ok,
        r matches Err(f) ==> is_new(f, FailureKind::Other, callback_text(op@, rc)),
{
    if rc == 0 {
        return Ok(());
    }
    let mut text = "callback ".to_owned();
    text.append(op);
    text.append(" returned ");
    let number = signed_decimal(rc as i64);
    text.append(number.as_str());
    Err(IoFailure::New { kind: FailureKind::Other, message: text })
}

/// A callback's failure is told in its own words: the device's error says "io: ", the callback
/// and the code that it returned.
pub proof fn callback_failures_are_named(op: Seq<char>, rc: i32, text: Seq<char>)
    requires
        says(Error::Io(made_io_error(FailureKind::Other, callback_text(op, rc))), text),
    ensures
        text == io_text(callback_text(op, rc)),
{
}

/// A message that holds no NUL is kept as it is.
pub proof fn plain_messages_are_kept(text: Seq<char>)
    requires
        !text.contains('\0'),
    ensures
        without_nul(text) == text,
{
    assert forall|i: int| 0 <= i < text.len() implies without_nul(text)[i] == text[i] by {
        assert(text.contains(text[i]));
    }
    assert(without_nul(text) =~= text);
}

/// No message that is kept holds a NUL.
pub proof fn kept_messages_hold_no_nul(text: Seq<char>)
    ensures
        !without_nul(text).contains('\0'),
{
}

/// Different codes have different numbers.
pub proof fn code_numbers_are_distinct(a: FsCoreErrorCode, b: FsCoreErrorCode)
    ensures
        code_number(a) == code_number(b) ==> a == b,
{
}

/// The published numbers: zero is success and nothing else is, and every error has its own number,
/// the same for every error of its sort.
pub proof fn errors_keep_their_numbers(e: Error, code: FsCoreErrorCode)
    ensures
        code_number(code) == 0 <==> code is Success,
        code_number(code_of(e)) == if e is Io {
            1int
        } else if e is ShortRead {
            2
        } else if e is ReadOnly {
            3
        } else if e is OutOfBounds {
            4
        } else {
            5
        },
        code is NullArg ==> code_number(code) == 6,
        code is Panic ==> code_number(code) == 7,
        code is BadString ==> code_number(code) == 8,
        0 <= code_number(code) <= 8,
{
}

/// A kept message is as long as what was said, and has each of its characters in its place, but
/// for a question mark where C would see an end.
pub proof fn kept_messages_say_what_was_said(text: Seq<char>, i: int)
    requires
        0 <= i < text.len(),
    ensures
        without_nul(text).len() == text.len(),
        text[i] != '\0' ==> without_nul(text)[i] == text[i],
        text[i] == '\0' ==> without_nul(text)[i] == '?',
{
}

/// A call that reports success leaves no message and answers zero; one that reports an error
/// answers its number and leaves what the error says of itself, whatever its sort.
pub proof fn calls_report_what_the_device_answered(
    answer: Result<(), Error>,
    r: FsCoreErrorCode,
    message: Option<Seq<char>>,
)
    requires
        reported(answer, r, message),
    ensures
        answer is Ok <==> code_number(r) == 0,
        answer is Ok <==> message is None,
        answer matches Err(Error::ReadOnly) ==> r is ReadOnly && message == Some(
            without_nul("device is read-only"@),
        ),
        answer matches Err(Error::Custom(text)) ==> r is Custom && message == Some(
            without_nul(text@),
        ),
        answer matches Err(Error::ShortRead { offset, want, got }) ==> r is ShortRead && message
            == Some(without_nul(crate::error::short_read_text(offset, want, got))),
        answer matches Err(Error::OutOfBounds { offset, len, size }) ==> r is OutOfBounds && message
            == Some(without_nul(crate::error::out_of_bounds_text(offset, len, size))),
        answer matches Err(Error::Io(e)) ==> r is Io && message is Some,
{
}

/// What is said of a panic is what the panic said.
pub proof fn panics_are_told_in_their_own_words(text: String)
    ensures
        panic_text(PanicPayload::Text(text)) == text@,
        panic_text(PanicPayload::Other).len() > 0,
{
    reveal_strlit("panic in FFI");
}

/// A refused argument is named with the call that it was missing from, a window with nothing in it
/// with where it was to start and how long the parent is, and a failed callback with its operation
/// and the code that it returned.
pub proof fn refusals_name_what_was_asked(
    call: Seq<char>,
    argument: Seq<char>,
    start: u64,
    parent_size: u64,
    rc: i32,
)
    ensures
        mentions(null_text(call, argument), call),
        null_text(call, argument) == call + ": "@ + argument + " is null"@,
        mentions(no_window_text(call, start, parent_size), call),
        exists|a: Seq<char>, b: Seq<char>|
            #![trigger digits_of(a, start as nat), digits_of(b, parent_size as nat)]
            {
                &&& digits_of(a, start as nat) && digits_of(b, parent_size as nat)
                &&& mentions(no_window_text(call, start, parent_size), ": start "@ + a)
                &&& mentions(no_window_text(call, start, parent_size), b)
            },
        mentions(callback_text(call, rc), call),
        rc >= 0 ==> exists|a: Seq<char>| #[trigger]
            digits_of(a, rc as nat) && callback_text(call, rc) == "callback "@ + call
                + " returned "@ + a,
        rc < 0 ==> exists|a: Seq<char>| #[trigger]
            digits_of(a, (-rc) as nat) && callback_text(call, rc) == "callback "@ + call
                + " returned "@ + ("-"@ + a),
{
    lemma_mentions();
    decimals_read_back(start as nat);
    decimals_read_back(parent_size as nat);
    let a = decimal_text(start as nat);
    let b = decimal_text(parent_size as nat);
    assert(digits_of(a, start as nat));
    assert(digits_of(b, parent_size as nat));
    let lead = "fs_core_device_"@ + call;
    assert(lead + ": start "@ + a =~= lead + (": start "@ + a));
    assert(mentions(lead + (": start "@ + a), ": start "@ + a));
    if rc >= 0 {
        decimals_read_back(rc as nat);
        assert(digits_of(decimal_text(rc as nat), rc as nat));
    } else {
        decimals_read_back((-rc) as nat);
        assert(digits_of(decimal_text((-rc) as nat), (-rc) as nat));
    }
}

} // verus!
