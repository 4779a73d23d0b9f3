//! The error kinds of the storage engine and an error value that carries one.
use vstd::prelude::*;
use vstd::string::StringExecFns;

verus! {

#[derive(Clone, Copy, Debug, PartialEq, Eq, Structural)]
pub enum ErrorType {
    NotFound,
    Corruption,
    NotSupported,
    InvalidArgument,
    IOError,
}

/// The name of each error kind.
pub open spec fn error_type_name(ty: ErrorType) -> Seq<char> {
    match ty {
        ErrorType::NotFound => "NotFoundError"@,
        ErrorType::Corruption => "CorruptionError"@,
        ErrorType::NotSupported => "NotSupportedError"@,
        ErrorType::InvalidArgument => "InvalidArgumentError"@,
        ErrorType::IOError => "IOError"@,
    }
}

impl ErrorType {
    pub fn as_str(&self) -> (r: &'static str)
        ensures
            r@ == error_type_name(*self),
    {
        match *self {
            ErrorType::NotFound => "NotFoundError",
            ErrorType::Corruption => "CorruptionError",
            ErrorType::NotSupported => "NotSupportedError",
            ErrorType::InvalidArgument => "InvalidArgumentError",
            ErrorType::IOError => "IOError",
        }
    }
}

#[derive(Debug)]
pub struct Error {
    ty: ErrorType,
    msg: &'static str,
}

/// How an error reads: `LevelDB <kind>`, followed by `: <message>` when the
/// message is not empty.
pub open spec fn error_text(ty: ErrorType, msg: Seq<char>) -> Seq<char> {
    if msg.len() == 0 {
        "LevelDB "@ + error_type_name(ty)
    } else {
        "LevelDB "@ + error_type_name(ty) + ": "@ + msg
    }
}

impl Error {
    pub closed spec fn kind(&self) -> ErrorType {
        self.ty
    }

    pub closed spec fn message(&self) -> Seq<char> {
        self.msg@
    }

    pub fn new(ty: ErrorType, msg: &'static str) -> (r: Error)
        ensures
            r.kind() == ty,
            r.message() == msg@,
    {
        Error { ty, msg }
    }

    pub fn error_type(&self) -> (r: ErrorType)
        ensures
            r == self.kind(),
    {
        self.ty
    }

    /// The message given at construction.
    pub fn description(&self) -> (r: &'static str)
        ensures
            r@ == self.message(),
    {
        self.msg
    }

    /// The error as text.
    pub fn to_string(&self) -> (r: String)
        ensures
            r@ == error_text(self.kind(), self.message()),
    {
        proof {
            reveal_strlit("LevelDB ");
            reveal_strlit(": ");
        }
        let mut s = String::from_str("LevelDB ");
        s.append(self.ty.as_str());
        if !self.msg.is_empty() {
            s.append(": ");
            s.append(self.msg);
        }
        s
    }
}

} // verus!
