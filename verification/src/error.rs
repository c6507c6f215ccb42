//! What can go wrong in the storage engine.

use crate::text::text_of;
use vstd::prelude::*;

verus! {

/// An error of a storage operation.
#[derive(Debug)]
pub enum Error {
    /// The medium failed.
    Io(String),
    /// Data is not what was written.
    Corruption(String),
    /// There is no such key.
    KeyNotFound,
    /// The memtable takes no more.
    MemtableFull,
    /// Data has a form that is not understood.
    InvalidFormat(String),
    /// There is no such file.
    FileNotFound(String),
    /// An argument is not acceptable.
    InvalidArgument(String),
}

/// An error as a value of the mathematical model.
pub enum ErrorView {
    Io(Seq<char>),
    Corruption(Seq<char>),
    KeyNotFound,
    MemtableFull,
    InvalidFormat(Seq<char>),
    FileNotFound(Seq<char>),
    InvalidArgument(Seq<char>),
}

impl View for Error {
    type V = ErrorView;

    open spec fn view(&self) -> ErrorView {
        match self {
            Error::Io(s) => ErrorView::Io(s@),
            Error::Corruption(s) => ErrorView::Corruption(s@),
            Error::KeyNotFound => ErrorView::KeyNotFound,
            Error::MemtableFull => ErrorView::MemtableFull,
            Error::InvalidFormat(s) => ErrorView::InvalidFormat(s@),
            Error::FileNotFound(s) => ErrorView::FileNotFound(s@),
            Error::InvalidArgument(s) => ErrorView::InvalidArgument(s@),
        }
    }
}

/// The text of an error.
pub open spec fn error_text(e: ErrorView) -> Seq<char> {
    match e {
        ErrorView::Io(s) => "io error: "@ + s,
        ErrorView::Corruption(s) => "corruption: "@ + s,
        ErrorView::KeyNotFound => "key not found"@,
        ErrorView::MemtableFull => "memtable full"@,
        ErrorView::InvalidFormat(s) => "invalid format: "@ + s,
        ErrorView::FileNotFound(s) => "file not found: "@ + s,
        ErrorView::InvalidArgument(s) => "invalid argument: "@ + s,
    }
}

impl Error {
    /// The text of the error.
    pub fn message(&self) -> (r: String)
        ensures
            r@ == error_text(self@),
    {
        match self {
            Error::Io(s) => labelled("io error: ", s),
            Error::Corruption(s) => labelled("corruption: ", s),
            Error::KeyNotFound => text_of("key not found"),
            Error::MemtableFull => text_of("memtable full"),
            Error::InvalidFormat(s) => labelled("invalid format: ", s),
            Error::FileNotFound(s) => labelled("file not found: ", s),
            Error::InvalidArgument(s) => labelled("invalid argument: ", s),
        }
    }
}

fn labelled(label: &str, s: &String) -> (r: String)
    ensures
        r@ == label@ + s@,
{
    let mut r = text_of(label);
    r.push_str(s.as_str());
    r
}

/// A corruption error.
pub fn corruption(msg: &str) -> (e: Error)
    ensures
        e@ == ErrorView::Corruption(msg@),
{
    Error::Corruption(text_of(msg))
}

/// An invalid-argument error.
pub fn invalid_argument(msg: &str) -> (e: Error)
    ensures
        e@ == ErrorView::InvalidArgument(msg@),
{
    Error::InvalidArgument(text_of(msg))
}

} // verus!
