//! The error kinds of the store.
use vstd::prelude::*;

verus! {

#[verifier::external_type_specification]
#[verifier::external_body]
pub struct ExJsonError(serde_json::Error);

#[verifier::external_type_specification]
#[verifier::external_body]
pub struct ExIoError(std::io::Error);

#[verifier::external_type_specification]
#[verifier::external_body]
pub struct ExSledError(sled::Error);

#[verifier::external_type_specification]
#[verifier::external_body]
pub struct ExFromUtf8Error(std::string::FromUtf8Error);

#[verifier::external_type_specification]
#[verifier::external_body]
pub struct ExSetLoggerError(log::SetLoggerError);

/// Errors of the store and of its engines.
#[derive(Debug)]
pub enum KvsError {
    /// `remove` of a key that is absent.
    KeyNotFound,
    /// The engine persisted in the directory differs from the one requested.
    UnmatchedEngine,
    /// A string could not be encoded or decoded.
    SerdeJson(serde_json::Error),
    /// An I/O failure.
    StdIo(std::io::Error),
    /// A failure of the sled engine.
    Sled(sled::Error),
    /// Bytes that should hold UTF-8 text do not.
    FromUtf8(std::string::FromUtf8Error),
    /// The logger could not be installed.
    StdErrLog(log::SetLoggerError),
    /// A log file holds bytes that are not a sequence of records, or a
    /// location that should hold a `Set` record does not.
    CorruptLog,
    /// Generation numbers or log offsets would leave the range of `u64`.
    Overflow,
    /// The server reported an error to the client.
    ClientError,
}

/// The message of each error that carries no outside error; the others
/// show the message of the error they carry.
pub open spec fn fixed_message(e: KvsError) -> Option<Seq<char>> {
    match e {
        KvsError::KeyNotFound => Some("Key not found"@),
        KvsError::UnmatchedEngine => Some("Unmatched engine"@),
        KvsError::CorruptLog => Some("corrupt log"@),
        KvsError::Overflow => Some("generation or offset out of range"@),
        KvsError::ClientError => Some("Client error"@),
        _ => None,
    }
}

impl KvsError {
    /// A human-readable message for the error.
    pub fn message(&self) -> (r: String)
        ensures
            fixed_message(*self) matches Some(t) ==> r@ == t,
    {
        match self {
            KvsError::KeyNotFound => text("Key not found"),
            KvsError::UnmatchedEngine => text("Unmatched engine"),
            KvsError::SerdeJson(e) => json_error_message(e),
            KvsError::StdIo(e) => io_error_message(e),
            KvsError::Sled(e) => sled_error_message(e),
            KvsError::FromUtf8(e) => utf8_error_message(e),
            KvsError::StdErrLog(e) => logger_error_message(e),
            KvsError::CorruptLog => text("corrupt log"),
            KvsError::Overflow => text("generation or offset out of range"),
            KvsError::ClientError => text("Client error"),
        }
    }
}

impl From<serde_json::Error> for KvsError {
    fn from(value: serde_json::Error) -> (r: KvsError)
        ensures
            r == KvsError::SerdeJson(value),
    {
        KvsError::SerdeJson(value)
    }
}

impl vstd::std_specs::convert::FromSpecImpl<serde_json::Error> for KvsError {
    open spec fn obeys_from_spec() -> bool {
        true
    }

    open spec fn from_spec(v: serde_json::Error) -> KvsError {
        KvsError::SerdeJson(v)
    }
}

impl From<std::io::Error> for KvsError {
    fn from(value: std::io::Error) -> (r: KvsError)
        ensures
            r == KvsError::StdIo(value),
    {
        KvsError::StdIo(value)
    }
}

impl vstd::std_specs::convert::FromSpecImpl<std::io::Error> for KvsError {
    open spec fn obeys_from_spec() -> bool {
        true
    }

    open spec fn from_spec(v: std::io::Error) -> KvsError {
        KvsError::StdIo(v)
    }
}

impl From<sled::Error> for KvsError {
    fn from(value: sled::Error) -> (r: KvsError)
        ensures
            r == KvsError::Sled(value),
    {
        KvsError::Sled(value)
    }
}

impl vstd::std_specs::convert::FromSpecImpl<sled::Error> for KvsError {
    open spec fn obeys_from_spec() -> bool {
        true
    }

    open spec fn from_spec(v: sled::Error) -> KvsError {
        KvsError::Sled(v)
    }
}

impl From<std::string::FromUtf8Error> for KvsError {
    fn from(value: std::string::FromUtf8Error) -> (r: KvsError)
        ensures
            r == KvsError::FromUtf8(value),
    {
        KvsError::FromUtf8(value)
    }
}

impl vstd::std_specs::convert::FromSpecImpl<std::string::FromUtf8Error> for KvsError {
    open spec fn obeys_from_spec() -> bool {
        true
    }

    open spec fn from_spec(v: std::string::FromUtf8Error) -> KvsError {
        KvsError::FromUtf8(v)
    }
}

impl From<log::SetLoggerError> for KvsError {
    fn from(value: log::SetLoggerError) -> (r: KvsError)
        ensures
            r == KvsError::StdErrLog(value),
    {
        KvsError::StdErrLog(value)
    }
}

impl vstd::std_specs::convert::FromSpecImpl<log::SetLoggerError> for KvsError {
    open spec fn obeys_from_spec() -> bool {
        true
    }

    open spec fn from_spec(v: log::SetLoggerError) -> KvsError {
        KvsError::StdErrLog(v)
    }
}

/// The text as an owned `String`.
pub fn text(s: &str) -> (r: String)
    ensures
        r@ == s@,
{
    s.to_owned()
}

/// Relies on serde_json::Error's `Display` for its message.
#[verifier::external_body]
fn json_error_message(e: &serde_json::Error) -> String {
    format!("{}", e)
}

/// Relies on std::io::Error's `Display` for its message.
#[verifier::external_body]
fn io_error_message(e: &std::io::Error) -> String {
    format!("{}", e)
}

/// Relies on std::string::FromUtf8Error's `Display` for its message.
#[verifier::external_body]
fn utf8_error_message(e: &std::string::FromUtf8Error) -> String {
    format!("{}", e)
}

/// Relies on log::SetLoggerError's `Display` for its message.
#[verifier::external_body]
fn logger_error_message(e: &log::SetLoggerError) -> String {
    format!("{}", e)
}

/// Relies on sled::Error's `Display` for its message.
#[verifier::external_body]
fn sled_error_message(e: &sled::Error) -> String {
    format!("{}", e)
}

} // verus!
