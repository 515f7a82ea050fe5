//! Per-conversion cancellation and recoverable errors.

use std::sync::atomic::AtomicBool;
use std::sync::atomic::Ordering;
use vstd::prelude::*;

verus! {

/// The standard library's I/O error, carried through unread.
#[verifier::external_type_specification]
#[verifier::external_body]
pub struct ExIoError(std::io::Error);

/// Why a conversion stopped.
#[derive(Debug)]
pub enum Error {
    /// The caller's cancellation token was set.
    Cancelled,
    /// The input breaks the X3F format; the message says where.
    InvalidData(&'static str),
    /// The input or output device failed.
    Io(std::io::Error),
    /// A single allocation would exceed the safety limit.
    Allocation,
}

/// The text of an I/O error, as `std::io::Error`'s `Display` writes it. Nothing
/// is claimed of the text: it depends on the platform.
#[verifier::external_body]
fn io_error_text(error: &std::io::Error) -> (text: String) {
    error.to_string()
}

impl Error {
    /// The message shown to the user for each error but an I/O error, whose
    /// text the platform decides.
    pub open spec fn spec_message(self) -> Seq<char> {
        match self {
            Error::Cancelled => "conversion cancelled"@,
            Error::InvalidData(message) => "invalid X3F data: "@ + message@,
            Error::Io(_) => Seq::empty(),
            Error::Allocation => "X3F allocation exceeds available memory or safety limit"@,
        }
    }

    /// The message for the user.
    pub fn message(&self) -> (text: String)
        ensures
            !(self is Io) ==> text@ == self.spec_message(),
    {
        match self {
            Error::Cancelled => "conversion cancelled".to_owned(),
            Error::InvalidData(message) => {
                let mut text: String = "invalid X3F data: ".to_owned();
                text.append(message);
                text
            },
            Error::Io(error) => io_error_text(error),
            Error::Allocation => {
                "X3F allocation exceeds available memory or safety limit".to_owned()
            },
        }
    }
}

/// The earlier of two possible errors.
pub open spec fn first(a: Option<Error>, b: Option<Error>) -> Option<Error> {
    if a is Some {
        a
    } else {
        b
    }
}

/// Whether a result reports that the token was set.
pub open spec fn is_cancelled<T>(r: Result<T, Error>) -> bool {
    r matches Err(Error::Cancelled)
}

impl From<std::io::Error> for Error {
    fn from(error: std::io::Error) -> (r: Self) {
        Error::Io(error)
    }
}

impl vstd::std_specs::convert::FromSpecImpl<std::io::Error> for Error {
    open spec fn obeys_from_spec() -> bool {
        true
    }

    open spec fn from_spec(error: std::io::Error) -> Self {
        Error::Io(error)
    }
}

/// The token by which a caller can stop a conversion, if it has one.
#[derive(Clone, Copy, Default)]
pub struct Control<'a> {
    cancel: Option<&'a AtomicBool>,
}

impl<'a> Control<'a> {
    /// The token that is read, if there is one.
    pub closed spec fn token(self) -> Option<&'a AtomicBool> {
        self.cancel
    }

    /// Whether there is a token: without one, nothing is ever cancelled.
    pub open spec fn armed(self) -> bool {
        self.token() is Some
    }

    /// Whether `cancelled` is what a read of the token may give; without a token,
    /// whether it is false.
    pub open spec fn may_read(self, cancelled: bool) -> bool {
        match self.token() {
            Some(flag) => call_ensures(AtomicBool::load, (flag, Ordering::Relaxed), cancelled),
            None => !cancelled,
        }
    }

    /// Whether a read of the token may give what `r` reports: that it is set where
    /// `r` is cancelled, and that it is not set where `r` is anything else.
    pub open spec fn allows<T>(self, r: Result<T, Error>) -> bool {
        self.may_read(is_cancelled(r))
    }

    /// A control that stops when `cancel` is set.
    pub fn new(cancel: &'a AtomicBool) -> (r: Self)
        ensures
            r.token() == Some(cancel),
    {
        Control { cancel: Some(cancel) }
    }

    /// A control that never stops.
    pub fn none() -> (r: Self)
        ensures
            r.token() is None,
    {
        Control { cancel: None }
    }

    /// What a token's value means: an error once it is set.
    pub fn outcome(cancelled: bool) -> (r: Result<(), Error>)
        ensures
            cancelled ==> r == Err::<(), Error>(Error::Cancelled),
            !cancelled ==> r == Ok::<(), Error>(()),
    {
        if cancelled {
            Err(Error::Cancelled)
        } else {
            Ok(())
        }
    }

    /// Reads the token, and fails exactly if the read finds it set. Another thread
    /// may set it at any time, so two reads may differ.
    pub fn check(self) -> (r: Result<(), Error>)
        ensures
            r is Ok || r == Err::<(), Error>(Error::Cancelled),
            self.may_read(r is Err),
            !self.armed() ==> r is Ok,
    {
        match self.cancel {
            Some(flag) => Control::outcome(flag.load(Ordering::Relaxed)),
            None => Ok(()),
        }
    }
}

} // verus!
