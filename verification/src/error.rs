//! The errors that store operations report, by kind, with their messages.
use vstd::prelude::*;

verus! {

/// What went wrong, mirroring the `std::io::ErrorKind` values the CLI reports.
#[derive(Clone, Copy, Debug, PartialEq, Eq, Structural)]
pub enum ErrorKind {
    /// The CSV file or one of its cells cannot be read.
    InvalidData,
    /// An expense with that name exists already.
    AlreadyExists,
    /// No expense or snapshot matches.
    NotFound,
    /// The request itself is malformed (a bad `@id`, a duplicate target, an empty name).
    InvalidInput,
}

#[derive(Debug)]
pub struct StoreError {
    pub kind: ErrorKind,
    pub message: String,
}

impl StoreError {
    pub fn new(kind: ErrorKind, message: String) -> (r: StoreError)
        ensures
            r.kind == kind,
            r.message@ == message@,
    {
        StoreError { kind, message }
    }

    pub fn kind(&self) -> (r: ErrorKind)
        ensures
            r == self.kind,
    {
        self.kind
    }

    /// The message shown to users.
    pub fn message(&self) -> (r: &str)
        ensures
            r@ == self.message@,
    {
        self.message.as_str()
    }
}

/// An error as (kind, message).
pub type ErrV = (ErrorKind, Seq<char>);

pub open spec fn err_view(e: StoreError) -> ErrV {
    (e.kind, e.message@)
}

pub open spec fn res_view<T>(r: Result<T, StoreError>) -> Result<T, ErrV> {
    match r {
        Ok(t) => Ok(t),
        Err(e) => Err(err_view(e)),
    }
}

} // verus!
