use vstd::prelude::*;

verus! {

/// The kinds of failure that the store reports.
#[derive(Debug, Clone, Copy, PartialEq, Eq, Structural)]
pub enum ErrorKind {
    /// A file-system operation failed.
    Io,
    /// An entry or a hint could not be encoded or decoded.
    Serde,
    /// A hint file is absent or unreadable.
    InvalidHintFile,
    /// The bytes at a known offset are not a well-formed entry of the expected kind.
    InvalidLogEntry,
    /// A pointer names a segment or an offset that does not exist.
    InvalidLogPointer,
    /// The key to remove is not in the store.
    KeyNotExist,
    /// The data directory was last used by a different engine.
    InvalidEngine,
    /// A protocol frame is malformed.
    InvalidResp,
    /// The logging facilities could not be set up.
    Logger,
    /// A request names no known command.
    InvalidCommand,
    /// The embedded database backend failed.
    Sled,
    /// Bytes are not valid UTF-8 text.
    Encoding,
}

/// The description of each kind of error.
pub open spec fn description(k: ErrorKind) -> Seq<char> {
    match k {
        ErrorKind::Io => "I/O error"@,
        ErrorKind::Serde => "serialization or deserialization error"@,
        ErrorKind::InvalidHintFile => "invalid hint file"@,
        ErrorKind::InvalidLogEntry => "invalid log entry"@,
        ErrorKind::InvalidLogPointer => "invalid log pointer"@,
        ErrorKind::KeyNotExist => "Key not found"@,
        ErrorKind::InvalidEngine => "invalid engine backend"@,
        ErrorKind::InvalidResp => "invalid RESP string"@,
        ErrorKind::Logger => "logging facilities error"@,
        ErrorKind::InvalidCommand => "invalid command"@,
        ErrorKind::Sled => "error originated from sled backend"@,
        ErrorKind::Encoding => "encoding error"@,
    }
}

impl ErrorKind {
    /// A short human-readable description of the kind.
    pub fn as_str(&self) -> (r: &'static str)
        ensures
            r@ == description(*self),
    {
        match self {
            ErrorKind::Io => "I/O error",
            ErrorKind::Serde => "serialization or deserialization error",
            ErrorKind::InvalidHintFile => "invalid hint file",
            ErrorKind::InvalidLogEntry => "invalid log entry",
            ErrorKind::InvalidLogPointer => "invalid log pointer",
            ErrorKind::KeyNotExist => "Key not found",
            ErrorKind::InvalidEngine => "invalid engine backend",
            ErrorKind::InvalidResp => "invalid RESP string",
            ErrorKind::Logger => "logging facilities error",
            ErrorKind::InvalidCommand => "invalid command",
            ErrorKind::Sled => "error originated from sled backend",
            ErrorKind::Encoding => "encoding error",
        }
    }
}

/// The error type of the store: a kind, which callers match on.
#[derive(Debug, Clone, Copy, PartialEq, Eq, Structural)]
pub struct Error {
    pub kind: ErrorKind,
}

impl Error {
    /// An error of the given kind.
    pub fn new(kind: ErrorKind) -> (r: Error)
        ensures
            r.kind == kind,
    {
        Error { kind }
    }

    /// The kind of this error.
    pub fn kind(&self) -> (r: &ErrorKind)
        ensures
            *r == self.kind,
    {
        &self.kind
    }

    /// The description of this error, as a display string.
    pub fn to_string(&self) -> (r: String)
        ensures
            r@ == description(self.kind),
    {
        self.kind.as_str().to_owned()
    }
}

/// The result type of the store.
pub type Result<T> = core::result::Result<T, Error>;

} // verus!
