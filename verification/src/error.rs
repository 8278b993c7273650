//! The error every device reports.
use crate::stream::{made_io_error, FailureKind};
use crate::text::{decimal_text, decimals_read_back, digits_of, push_decimal};
use vstd::prelude::*;
use vstd::string::*;

verus! {

/// `std::io::Error`, carried through unread.
#[verifier::external_type_specification]
#[verifier::external_body]
pub struct ExIoError(std::io::Error);

/// What went wrong with a request to a device.
#[derive(Debug)]
pub enum Error {
    /// Underlying I/O failure (open, seek, read, write).
    Io(std::io::Error),
    /// A read that could not be satisfied in full: the source ran out of data before `want`
    /// bytes had been transferred. `got` counts the bytes placed in the caller's buffer; a
    /// request refused before it started has `got: 0`, whatever was available.
    ShortRead { offset: u64, want: usize, got: usize },
    /// A write or a change of length on a device that does not take it.
    ReadOnly,
    /// A write refused before any transfer because its range is not wholly inside the device;
    /// `size` is the device size, so the caller can clamp.
    OutOfBounds { offset: u64, len: u64, size: u64 },
    /// Driver-specific error lifted to the trait boundary.
    Custom(String),
}

impl From<std::io::Error> for Error {
    fn from(e: std::io::Error) -> (r: Self) {
        Error::Io(e)
    }
}

impl vstd::std_specs::convert::FromSpecImpl<std::io::Error> for Error {
    open spec fn obeys_from_spec() -> bool {
        true
    }

    open spec fn from_spec(e: std::io::Error) -> Self {
        Error::Io(e)
    }
}

/// The text of a short read.
pub open spec fn short_read_text(offset: u64, want: usize, got: usize) -> Seq<char> {
    "short read at "@ + decimal_text(offset as nat) + ": wanted "@ + decimal_text(want as nat)
        + " got "@ + decimal_text(got as nat)
}

/// The text of a write outside its device.
pub open spec fn out_of_bounds_text(offset: u64, len: u64, size: u64) -> Seq<char> {
    decimal_text(offset as nat) + "+"@ + decimal_text(len as nat) + " past device size "@
        + decimal_text(size as nat)
}

/// The text of an I/O failure whose own text is `text`.
pub open spec fn io_text(text: Seq<char>) -> Seq<char> {
    "io: "@ + text
}

/// Whether `text` is what an I/O failure says of itself. One that was made of a message says
/// that message. One of the operating system is worded by the system.
pub open spec fn io_says(e: std::io::Error, text: Seq<char>) -> bool {
    forall|kind: FailureKind, message: Seq<char>|
        e == #[trigger] made_io_error(kind, message) ==> text == message
}

/// `std::io::Error`'s `Display`: an error that `std::io::Error::new` made of a message is worded
/// by that message. An operating system error is worded by the system, and nothing is said of
/// that text.
#[verifier::external_body]
pub(crate) fn io_error_text(e: &std::io::Error) -> (r: String)
    ensures
        io_says(*e, r@),
{
    e.to_string()
}

/// "io: " and the text of the failure.
pub fn io_message(text: &str) -> (r: String)
    ensures
        r@ == io_text(text@),
{
    let mut out = "io: ".to_owned();
    out.append(text);
    out
}

/// "short read at {offset}: wanted {want} got {got}".
pub fn short_read_message(offset: u64, want: usize, got: usize) -> (r: String)
    ensures
        r@ == short_read_text(offset, want, got),
{
    let mut out = "short read at ".to_owned();
    push_decimal(&mut out, offset);
    out.append(": wanted ");
    push_decimal(&mut out, want as u64);
    out.append(" got ");
    push_decimal(&mut out, got as u64);
    out
}

/// "{offset}+{len} past device size {size}".
pub fn out_of_bounds_message(offset: u64, len: u64, size: u64) -> (r: String)
    ensures
        r@ == out_of_bounds_text(offset, len, size),
{
    let mut out = String::new();
    push_decimal(&mut out, offset);
    assert(out@ =~= decimal_text(offset as nat));
    out.append("+");
    push_decimal(&mut out, len);
    out.append(" past device size ");
    push_decimal(&mut out, size);
    out
}

/// Whether `text` is what the error says of itself. After "io: " it says what the I/O failure
/// says.
pub open spec fn says(e: Error, text: Seq<char>) -> bool {
    match e {
        Error::Io(e) => exists|t: Seq<char>| text == io_text(t) && #[trigger] io_says(e, t),
        Error::ShortRead { offset, want, got } => text == short_read_text(offset, want, got),
        Error::ReadOnly => text == "device is read-only"@,
        Error::OutOfBounds { offset, len, size } => text == out_of_bounds_text(offset, len, size),
        Error::Custom(t) => text == t@,
    }
}

impl Error {
    /// The error as text, one line. Of an I/O failure the text after "io: " is its own.
    pub fn message(&self) -> (r: String)
        ensures
            says(*self, r@),
    {
        match self {
            Error::Io(e) => {
                let text = io_error_text(e);
                io_message(text.as_str())
            },
            Error::ShortRead { offset, want, got } => short_read_message(*offset, *want, *got),
            Error::ReadOnly => "device is read-only".to_owned(),
            Error::OutOfBounds { offset, len, size } => out_of_bounds_message(*offset, *len, *size),
            Error::Custom(text) => text.clone(),
        }
    }

    /// The I/O failure underneath, where there is one.
    pub fn source(&self) -> (r: Option<&std::io::Error>)
        ensures
            self matches Error::Io(e) ==> r == Some(e),
            !(self is Io) ==> r is None,
    {
        match self {
            Error::Io(e) => Some(e),
            _ => None,
        }
    }
}

/// A short read names where it began, how much was wanted and how much came, in this order and in
/// decimal; a write out of bounds its offset, its length and the size of the device; and an I/O
/// failure its own text.
pub proof fn messages_name_their_numbers(offset: u64, len: u64, size: u64, want: usize, got: usize)
    ensures
        exists|a: Seq<char>, b: Seq<char>, c: Seq<char>|
            #![trigger digits_of(a, offset as nat), digits_of(b, want as nat), digits_of(c, got as nat)]
            {
                &&& digits_of(a, offset as nat) && digits_of(b, want as nat) && digits_of(
                    c,
                    got as nat,
                )
                &&& short_read_text(offset, want, got) == "short read at "@ + a + ": wanted "@ + b
                    + " got "@ + c
            },
        exists|a: Seq<char>, b: Seq<char>, c: Seq<char>|
            #![trigger digits_of(a, offset as nat), digits_of(b, len as nat), digits_of(c, size as nat)]
            {
                &&& digits_of(a, offset as nat) && digits_of(b, len as nat) && digits_of(
                    c,
                    size as nat,
                )
                &&& out_of_bounds_text(offset, len, size) == a + "+"@ + b + " past device size "@
                    + c
            },
{
    decimals_read_back(offset as nat);
    decimals_read_back(len as nat);
    decimals_read_back(size as nat);
    decimals_read_back(want as nat);
    decimals_read_back(got as nat);
    assert(digits_of(decimal_text(offset as nat), offset as nat));
    assert(digits_of(decimal_text(len as nat), len as nat));
    assert(digits_of(decimal_text(size as nat), size as nat));
    assert(digits_of(decimal_text(want as nat), want as nat));
    assert(digits_of(decimal_text(got as nat), got as nat));
}

/// What an error says: an I/O failure made of a message says "io: " and the message, a refused
/// change that the device is read-only, and a driver's own error its own words.
pub proof fn errors_say_what_happened(e: Error, text: Seq<char>)
    requires
        says(e, text),
    ensures
        forall|kind: FailureKind, message: Seq<char>|
            e == Error::Io(#[trigger] made_io_error(kind, message)) ==> text == "io: "@ + message,
        e is ReadOnly ==> text == "device is read-only"@,
        e matches Error::Custom(own) ==> text == own@,
{
}

} // verus!
