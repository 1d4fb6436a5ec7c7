//! Errors reported by the decoders and by the command accessors.

use vstd::prelude::*;
use vstd::std_specs::cmp::PartialEqSpecImpl;
use vstd::std_specs::convert::FromSpecImpl;
use vstd::string::StringExecFns;

verus! {

/// The kind of a transport failure, as far as callers compare them.
#[derive(Debug, Clone, Copy, PartialEq, Eq, Structural)]
pub enum IoKind {
    NotFound,
    PermissionDenied,
    ConnectionRefused,
    ConnectionReset,
    ConnectionAborted,
    NotConnected,
    BrokenPipe,
    WouldBlock,
    InvalidData,
    TimedOut,
    Interrupted,
    UnexpectedEof,
    Other,
}

/// A failure of the underlying transport: its kind and its message.
#[derive(Debug, Clone)]
pub struct IoFailure {
    pub kind: IoKind,
    pub message: String,
}

#[derive(Debug)]
pub enum ParseError {
    /// The transport failed.
    IO(IoFailure),
    /// Not enough bytes yet for a whole frame.
    Incomplete,
    /// The framing is syntactically invalid; the text says why.
    BadProtocol(String),
    /// Text that is not UTF-8, or an argument index out of range.
    InvalidArgument,
    /// Anything else.
    Unknown(&'static str),
}

/// What a decoder can report without a transport: the error kinds that
/// depend on the input bytes alone.
#[derive(Debug, Clone, Copy, PartialEq, Eq, Structural)]
pub enum DecodeError {
    Incomplete,
    BadProtocol,
    InvalidArgument,
}

impl ParseError {
    /// Whether two errors are of the same kind; transport failures are
    /// of the same kind when their `IoKind`s agree.
    pub open spec fn same_kind(&self, other: &ParseError) -> bool {
        match (*self, *other) {
            (ParseError::IO(a), ParseError::IO(b)) => a.kind == b.kind,
            (ParseError::Incomplete, ParseError::Incomplete) => true,
            (ParseError::BadProtocol(_), ParseError::BadProtocol(_)) => true,
            (ParseError::InvalidArgument, ParseError::InvalidArgument) => true,
            (ParseError::Unknown(_), ParseError::Unknown(_)) => true,
            _ => false,
        }
    }

    /// Whether this error is the decoder's report `e`.
    pub open spec fn reports(&self, e: DecodeError) -> bool {
        match e {
            DecodeError::Incomplete => *self is Incomplete,
            DecodeError::BadProtocol => *self is BadProtocol,
            DecodeError::InvalidArgument => *self is InvalidArgument,
        }
    }

    /// The text sent to a client for this error.
    pub open spec fn response_text(&self) -> Seq<char> {
        match *self {
            ParseError::IO(f) => "IO error: "@ + f.message@,
            ParseError::Incomplete => "Incomplete data"@,
            ParseError::BadProtocol(s) => "Protocol error: "@ + s@,
            ParseError::InvalidArgument => "Invalid argument"@,
            ParseError::Unknown(s) => "Unknown error: "@ + s@,
        }
    }

    /// The short name of the error's kind.
    pub open spec fn description_text(&self) -> Seq<char> {
        match *self {
            ParseError::IO(_) => "IO error"@,
            ParseError::Incomplete => "Incomplete data"@,
            ParseError::BadProtocol(_) => "Protocol error"@,
            ParseError::InvalidArgument => "Invalid argument"@,
            ParseError::Unknown(_) => "Unknown error"@,
        }
    }

    pub fn in_complete(&self) -> (r: bool)
        ensures
            r == (*self is Incomplete),
    {
        match *self {
            ParseError::Incomplete => true,
            _ => false,
        }
    }

    pub fn is_unknown(&self) -> (r: bool)
        ensures
            r == (*self is Unknown),
    {
        match *self {
            ParseError::Unknown(_) => true,
            _ => false,
        }
    }

    pub fn response_string(&self) -> (r: String)
        ensures
            r@ == self.response_text(),
    {
        match self {
            ParseError::IO(f) => String::from_str("IO error: ").concat(f.message.as_str()),
            ParseError::Incomplete => String::from_str("Incomplete data"),
            ParseError::BadProtocol(s) => String::from_str("Protocol error: ").concat(s.as_str()),
            ParseError::InvalidArgument => String::from_str("Invalid argument"),
            ParseError::Unknown(s) => String::from_str("Unknown error: ").concat(s),
        }
    }

    pub fn description(&self) -> (r: &'static str)
        ensures
            r@ == self.description_text(),
    {
        match self {
            ParseError::IO(_) => "IO error",
            ParseError::Incomplete => "Incomplete data",
            ParseError::BadProtocol(_) => "Protocol error",
            ParseError::InvalidArgument => "Invalid argument",
            ParseError::Unknown(_) => "Unknown error",
        }
    }
}

impl PartialEq for ParseError {
    fn eq(&self, other: &Self) -> (r: bool) {
        match (self, other) {
            (ParseError::IO(a), ParseError::IO(b)) => a.kind == b.kind,
            (ParseError::Incomplete, ParseError::Incomplete) => true,
            (ParseError::BadProtocol(_), ParseError::BadProtocol(_)) => true,
            (ParseError::InvalidArgument, ParseError::InvalidArgument) => true,
            (ParseError::Unknown(_), ParseError::Unknown(_)) => true,
            _ => false,
        }
    }
}

impl PartialEqSpecImpl for ParseError {
    open spec fn obeys_eq_spec() -> bool {
        true
    }

    open spec fn eq_spec(&self, other: &Self) -> bool {
        self.same_kind(other)
    }
}

impl From<&'static str> for ParseError {
    fn from(err: &'static str) -> (r: ParseError) {
        ParseError::Unknown(err)
    }
}

impl FromSpecImpl<&'static str> for ParseError {
    open spec fn obeys_from_spec() -> bool {
        true
    }

    open spec fn from_spec(err: &'static str) -> ParseError {
        ParseError::Unknown(err)
    }
}

impl From<IoFailure> for ParseError {
    fn from(err: IoFailure) -> (r: ParseError) {
        ParseError::IO(err)
    }
}

impl FromSpecImpl<IoFailure> for ParseError {
    open spec fn obeys_from_spec() -> bool {
        true
    }

    open spec fn from_spec(err: IoFailure) -> ParseError {
        ParseError::IO(err)
    }
}

} // verus!
