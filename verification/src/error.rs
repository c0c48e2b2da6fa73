//! What can go wrong.
use vstd::prelude::*;

verus! {

/// The reasons for which a request is refused.
#[derive(Debug, PartialEq, Eq)]
pub enum Error {
    /// No handler is known for the given MIME type, path or URL.
    NotFound(String),
    /// The text is no MIME type.
    BadMime(String),
    /// The text is no `mimeapps.list`.
    BadMimeApps,
    /// The bytes are no desktop entry file.
    BadEntryFile(String),
    /// The desktop entry at the given path misses the given field.
    BadEntry(String, String),
    /// The selector ended without output.
    Cancelled,
    /// The selector gave back what belongs to no handler.
    BadSelection(String),
    /// There is no terminal emulator to run the command in.
    NoTerminal,
}

/// The contents of an [`Error`].
pub enum ErrorView {
    NotFound(Seq<char>),
    BadMime(Seq<char>),
    BadMimeApps,
    BadEntryFile(Seq<char>),
    BadEntry(Seq<char>, Seq<char>),
    Cancelled,
    BadSelection(Seq<char>),
    NoTerminal,
}

impl View for Error {
    type V = ErrorView;

    open spec fn view(&self) -> ErrorView {
        match self {
            Error::NotFound(what) => ErrorView::NotFound(what@),
            Error::BadMime(text) => ErrorView::BadMime(text@),
            Error::BadMimeApps => ErrorView::BadMimeApps,
            Error::BadEntryFile(path) => ErrorView::BadEntryFile(path@),
            Error::BadEntry(path, field) => ErrorView::BadEntry(path@, field@),
            Error::Cancelled => ErrorView::Cancelled,
            Error::BadSelection(output) => ErrorView::BadSelection(output@),
            Error::NoTerminal => ErrorView::NoTerminal,
        }
    }
}

impl Clone for Error {
    fn clone(&self) -> (r: Self)
        ensures
            r@ == self@,
    {
        match self {
            Error::NotFound(what) => Error::NotFound(what.clone()),
            Error::BadMime(text) => Error::BadMime(text.clone()),
            Error::BadMimeApps => Error::BadMimeApps,
            Error::BadEntryFile(path) => Error::BadEntryFile(path.clone()),
            Error::BadEntry(path, field) => Error::BadEntry(path.clone(), field.clone()),
            Error::Cancelled => Error::Cancelled,
            Error::BadSelection(output) => Error::BadSelection(output.clone()),
            Error::NoTerminal => Error::NoTerminal,
        }
    }
}

} // verus!
