//! Error type shared by decoders and encoders.
use vstd::prelude::*;

verus! {

#[verifier::external_type_specification]
#[verifier::external_body]
pub struct ExIoError(std::io::Error);

/// Error type for decoding, encoding and model operations.
#[derive(Debug)]
pub enum Error {
    /// Bytes don't match what the decoder expected.
    InvalidData(String),
    /// Spec construct that this crate or format doesn't yet handle.
    Unsupported(String),
    /// I/O failure while reading or writing.
    Io(std::io::Error),
    /// Catch-all for ad-hoc error messages.
    Other(String),
}

impl Error {
    /// An [`Error::InvalidData`] carrying `msg`.
    pub fn invalid(msg: String) -> (e: Self)
        ensures
            e matches Error::InvalidData(m) && m@ == msg@,
    {
        Error::InvalidData(msg)
    }

    /// An [`Error::Unsupported`] carrying `msg`.
    pub fn unsupported(msg: String) -> (e: Self)
        ensures
            e matches Error::Unsupported(m) && m@ == msg@,
    {
        Error::Unsupported(msg)
    }

    /// An [`Error::Other`] carrying `msg`.
    pub fn other(msg: String) -> (e: Self)
        ensures
            e matches Error::Other(m) && m@ == msg@,
    {
        Error::Other(msg)
    }
}

} // verus!
