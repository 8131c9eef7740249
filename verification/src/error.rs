//! Typed errors, and the two texts a path is shown by.
use vstd::prelude::*;

use crate::text;

verus! {

/// What went wrong.
#[derive(Debug, Clone, Copy, PartialEq, Eq, Hash, Structural)]
pub enum ErrorKind {
    /// The named thing is not there.
    NotFound,
    /// The input cannot be read.
    Malformed,
    /// The request is denied.
    Permission,
    /// A bound was exceeded.
    Oversized,
    /// The state found is not the one expected.
    Conflict,
    /// Anything else.
    Internal,
}

/// A typed error: its kind and the text for the caller.
#[derive(Debug, Clone, PartialEq, Eq)]
pub struct Error {
    pub kind: ErrorKind,
    pub message: String,
}

/// An [`Error`] by its contents.
pub struct FaultView {
    pub kind: ErrorKind,
    pub message: Seq<char>,
}

/// The error of `kind` with the text `message`.
pub open spec fn fault(kind: ErrorKind, message: Seq<char>) -> FaultView {
    FaultView { kind, message }
}

impl View for Error {
    type V = FaultView;

    open spec fn view(&self) -> FaultView {
        FaultView { kind: self.kind, message: self.message@ }
    }
}

impl Error {
    pub fn new(kind: ErrorKind, message: String) -> (r: Self)
        ensures
            r@ == fault(kind, message@),
    {
        Error { kind, message }
    }

    pub fn not_found(message: String) -> (r: Self)
        ensures
            r@ == fault(ErrorKind::NotFound, message@),
    {
        Error { kind: ErrorKind::NotFound, message }
    }

    pub fn malformed(message: String) -> (r: Self)
        ensures
            r@ == fault(ErrorKind::Malformed, message@),
    {
        Error { kind: ErrorKind::Malformed, message }
    }

    pub fn permission(message: String) -> (r: Self)
        ensures
            r@ == fault(ErrorKind::Permission, message@),
    {
        Error { kind: ErrorKind::Permission, message }
    }

    pub fn oversized(message: String) -> (r: Self)
        ensures
            r@ == fault(ErrorKind::Oversized, message@),
    {
        Error { kind: ErrorKind::Oversized, message }
    }

    pub fn conflict(message: String) -> (r: Self)
        ensures
            r@ == fault(ErrorKind::Conflict, message@),
    {
        Error { kind: ErrorKind::Conflict, message }
    }

    pub fn internal(message: String) -> (r: Self)
        ensures
            r@ == fault(ErrorKind::Internal, message@),
    {
        Error { kind: ErrorKind::Internal, message }
    }
}

/// A path as messages show it: plainly, and quoted with its odd characters
/// escaped.
#[derive(Debug, Clone, PartialEq, Eq)]
pub struct PathText {
    pub shown: String,
    pub quoted: String,
}

impl PathText {
    /// The texts of a path that is the text `path`.
    pub fn of(path: &str) -> (r: Self)
        ensures
            r.shown@ == path@,
            r.quoted@ == text::debug_of(path@),
    {
        PathText { shown: path.to_owned(), quoted: text::debug_str(path) }
    }
}

/// An error is its kind and its text.
pub proof fn law_an_error_is_its_kind_and_text(e: Error, kind: ErrorKind, message: Seq<char>)
    ensures
        e@.kind == e.kind,
        e@.message == e.message@,
        fault(kind, message).kind == kind,
        fault(kind, message).message == message,
{
}

} // verus!
