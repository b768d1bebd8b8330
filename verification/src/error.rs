//! The errors of the library.

use vstd::prelude::*;

verus! {

/// The kind of an I/O error (`std::io::ErrorKind`).
#[verifier::external_type_specification]
#[verifier::external_body]
pub struct ExIoErrorKind(std::io::ErrorKind);

/// `Clone` of `std::io::ErrorKind`, a `Copy` enum: the clone is the same kind.
pub assume_specification[ <std::io::ErrorKind as Clone>::clone ](k: &std::io::ErrorKind) -> (r: std::io::ErrorKind)
    ensures
        r == *k,
;

/// The errors of the library, each with a message.
#[derive(Clone, Debug, PartialEq)]
pub enum Error {
    InvalidSumcheck(String),
    InvalidPcsParam(String),
    InvalidPcsOpen(String),
    InvalidSnark(String),
    Serialization(String),
    Transcript(std::io::ErrorKind, String),
    NotImplemented(String),
    InternalError(String),
    InvalidRotation(String),
    InvalidQuotient(String),
    InvalidInput(String),
}

/// `std::io::ErrorKind::UnexpectedEof`: a read ran past the end of the data.
#[verifier::external_body]
pub(crate) fn unexpected_eof() -> std::io::ErrorKind {
    std::io::ErrorKind::UnexpectedEof
}

/// `std::io::ErrorKind::InvalidData`: the data read is not well formed.
#[verifier::external_body]
pub(crate) fn invalid_data() -> std::io::ErrorKind {
    std::io::ErrorKind::InvalidData
}

impl Error {
    /// The text of this error in a halo2 error: the variant's name, a colon
    /// and a space, then its message. A transcript error is named
    /// `InvalidSumcheckTranscript` and carries its I/O kind in place of its
    /// message; the kind's text is written after this prefix by the caller.
    pub open spec fn halo2_text(&self) -> Seq<char> {
        match self {
            Error::InvalidSumcheck(s) => "InvalidSumcheck: "@ + s@,
            Error::InvalidPcsParam(s) => "InvalidPcsParam: "@ + s@,
            Error::InvalidPcsOpen(s) => "InvalidPcsOpen: "@ + s@,
            Error::InvalidSnark(s) => "InvalidSnark: "@ + s@,
            Error::Serialization(s) => "Serialization: "@ + s@,
            Error::NotImplemented(s) => "NotImplemented: "@ + s@,
            Error::InternalError(s) => "InternalError: "@ + s@,
            Error::InvalidRotation(s) => "InvalidRotation: "@ + s@,
            Error::InvalidQuotient(s) => "InvalidQuotient: "@ + s@,
            Error::InvalidInput(s) => "InvalidInput: "@ + s@,
            Error::Transcript(_, _) => "InvalidSumcheckTranscript: "@,
        }
    }

    /// The text of this error in a halo2 error (see `halo2_text`).
    pub fn halo2_message(&self) -> (r: String)
        ensures
            r@ == self.halo2_text(),
    {
        let (mut m, s) = match self {
            Error::InvalidSumcheck(s) => (String::from_str("InvalidSumcheck: "), s),
            Error::InvalidPcsParam(s) => (String::from_str("InvalidPcsParam: "), s),
            Error::InvalidPcsOpen(s) => (String::from_str("InvalidPcsOpen: "), s),
            Error::InvalidSnark(s) => (String::from_str("InvalidSnark: "), s),
            Error::Serialization(s) => (String::from_str("Serialization: "), s),
            Error::NotImplemented(s) => (String::from_str("NotImplemented: "), s),
            Error::InternalError(s) => (String::from_str("InternalError: "), s),
            Error::InvalidRotation(s) => (String::from_str("InvalidRotation: "), s),
            Error::InvalidQuotient(s) => (String::from_str("InvalidQuotient: "), s),
            Error::InvalidInput(s) => (String::from_str("InvalidInput: "), s),
            Error::Transcript(_, _) => {
                return String::from_str("InvalidSumcheckTranscript: ");
            },
        };
        m.append(s.as_str());
        m
    }
}

} // verus!
