//! What can go wrong with the store.

use postcard::Error as PostcardError;
use vstd::prelude::*;

verus! {

/// The error type of `postcard`, carried but not looked into.
#[verifier::external_type_specification]
#[verifier::external_body]
pub struct ExPostcardError(PostcardError);

/// Errors surfaced by the store.
#[derive(Debug)]
pub enum Error {
    /// The file could not be read from or written to.
    Io(std::io::Error),
    /// A value could not be written as bytes, or not be read back from them.
    Serialization(PostcardError),
    /// A record is longer than what is read back as one, so it is not logged.
    RecordTooLarge,
}

impl Error {
    /// The text shown to a person, up to the one that the cause brings itself.
    pub fn heading(&self) -> (r: &'static str)
        ensures
            r@ == match self {
                Error::Io(_) => "i/o error: "@,
                Error::Serialization(_) => "seriazation error : "@,
                Error::RecordTooLarge => "record too large"@,
            },
    {
        match self {
            Error::Io(_) => "i/o error: ",
            Error::Serialization(_) => "seriazation error : ",
            Error::RecordTooLarge => "record too large",
        }
    }
}

impl From<std::io::Error> for Error {
    fn from(e: std::io::Error) -> (r: Self) {
        Error::Io(e)
    }
}

impl vstd::std_specs::convert::FromSpecImpl<std::io::Error> for Error {
    open spec fn obeys_from_spec() -> bool {
        true
    }

    open spec fn from_spec(e: std::io::Error) -> Error {
        Error::Io(e)
    }
}

impl From<PostcardError> for Error {
    fn from(e: PostcardError) -> (r: Self) {
        Error::Serialization(e)
    }
}

impl vstd::std_specs::convert::FromSpecImpl<PostcardError> for Error {
    open spec fn obeys_from_spec() -> bool {
        true
    }

    open spec fn from_spec(e: PostcardError) -> Error {
        Error::Serialization(e)
    }
}

/// What is shown of each error, and where an outside one ends up.
pub proof fn law_error_calls(io: std::io::Error, coding: PostcardError)
    ensures
        forall|e: &Error, r: &'static str| #[trigger]
            call_ensures(Error::heading, (e,), r) ==> r@ == (match e {
                Error::Io(_) => "i/o error: "@,
                Error::Serialization(_) => "seriazation error : "@,
                Error::RecordTooLarge => "record too large"@,
            }),
        <Error as vstd::std_specs::convert::FromSpec<std::io::Error>>::from_spec(io) == Error::Io(
            io,
        ),
        <Error as vstd::std_specs::convert::FromSpec<PostcardError>>::from_spec(coding)
            == Error::Serialization(coding),
{
}

} // verus!
