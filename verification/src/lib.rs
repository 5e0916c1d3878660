//! An in-path middlebox for the TFH lobby protocol: packet buffers with typed
//! IPv4 and UDP header overlays and their checksums, reassembly of the
//! protocol's byte stream from UDP datagrams, framing of that stream into
//! messages, and the table of live connections.

pub mod bytes;
pub mod checksum;
pub mod conns;
pub mod describe;
pub mod dump;
pub mod framing;
mod keys;
pub mod packet;
pub mod pcap;
pub mod process;
pub mod status;
pub mod stream_model;
pub mod tfh_stream;

use vstd::prelude::*;
use vstd::string::StringExecFns;

verus! {

/// An error with the text that describes it.
#[derive(Clone, Debug)]
pub struct Error(pub String);

impl Error {
    /// The text of the error.
    pub fn message(&self) -> (r: &str)
        ensures
            r@ == self.0@,
    {
        self.0.as_str()
    }

    /// The same error with the place `at` put before its text, as
    /// `at: text`.
    pub fn located(self, at: &str) -> (r: Error)
        ensures
            r.0@ == at@ + ": "@ + self.0@,
    {
        Error(String::from_str(at).concat(": ").concat(self.0.as_str()))
    }
}

/// The error type of `std::io`, carried through as it is.
#[verifier::external_type_specification]
#[verifier::external_body]
pub struct ExIoError(std::io::Error);

/// The error type of `nix`, carried through as it is.
#[verifier::external_type_specification]
#[verifier::external_body]
pub struct ExErrno(nix::errno::Errno);

/// The text that `std` gives for an I/O error, by its `Display`. What it
/// says depends on the operating system, so nothing is claimed of it.
#[verifier::external_body]
fn io_error_text(x: &std::io::Error) -> (s: String) {
    x.to_string()
}

/// The text that `nix` gives for an `Errno`, by its `Display`: the name of
/// the error and its description, from the table in `nix` itself. The
/// error is carried through here as it came, and which error a number
/// stands for differs from one system to the next, so nothing is claimed
/// of the text.
#[verifier::external_body]
fn errno_text(x: nix::errno::Errno) -> (s: String) {
    x.to_string()
}

impl From<std::io::Error> for Error {
    fn from(x: std::io::Error) -> (e: Error) {
        Error(io_error_text(&x))
    }
}

impl From<nix::errno::Errno> for Error {
    fn from(x: nix::errno::Errno) -> (e: Error) {
        Error(errno_text(x))
    }
}

impl<'a> From<&'a str> for Error {
    fn from(x: &'a str) -> (e: Error)
        ensures
            e.0@ == x@,
    {
        Error(String::from_str(x))
    }
}

impl vstd::std_specs::convert::FromSpecImpl<std::io::Error> for Error {
    /// The text is the operating system's: the conversion has no value in
    /// specifications.
    open spec fn obeys_from_spec() -> bool {
        false
    }

    open spec fn from_spec(v: std::io::Error) -> Error {
        arbitrary()
    }
}

impl vstd::std_specs::convert::FromSpecImpl<nix::errno::Errno> for Error {
    /// Nothing is claimed of the text: the conversion has no value in
    /// specifications.
    open spec fn obeys_from_spec() -> bool {
        false
    }

    open spec fn from_spec(v: nix::errno::Errno) -> Error {
        arbitrary()
    }
}

impl<'a> vstd::std_specs::convert::FromSpecImpl<&'a str> for Error {
    /// What the conversion gives is stated by `from` itself: an error whose
    /// text is the string.
    open spec fn obeys_from_spec() -> bool {
        false
    }

    open spec fn from_spec(v: &'a str) -> Error {
        arbitrary()
    }
}

/// Puts the place where it happened before the text of an error.
pub trait ErrorAt<T> {
    fn at(self, at: &str) -> Result<T, Error>;
}

impl<T, E> ErrorAt<T> for Result<T, E> where Error: From<E> {
    /// A success stays as it is. A failure becomes the [`Error`] that its
    /// error converts to, with `at` and a colon put before its text.
    fn at(self, at: &str) -> (r: Result<T, Error>)
        ensures
            match self {
                Ok(v) => r == Ok::<T, Error>(v),
                Err(e) => r is Err && exists|inner: Error|
                    call_ensures(Error::from, (e,), inner) && r->Err_0.0@ == at@ + ": "@
                        + inner.0@,
            },
    {
        match self {
            Ok(v) => Ok(v),
            Err(e) => {
                let inner: Error = Error::from(e);
                Err(inner.located(at))
            },
        }
    }
}

} // verus!
