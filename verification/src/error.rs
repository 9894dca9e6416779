//! The failure kinds that the storage core reports.

use vstd::prelude::*;

verus! {

/// An error reason: either owned text or a borrowed literal.
#[derive(Debug)]
pub enum ErrorStr {
    Owned(String),
    StaticBorrow(&'static str),
}

impl View for ErrorStr {
    type V = Seq<char>;

    open spec fn view(&self) -> Seq<char> {
        match self {
            ErrorStr::Owned(s) => s@,
            ErrorStr::StaticBorrow(s) => s@,
        }
    }
}

impl Clone for ErrorStr {
    fn clone(&self) -> (r: ErrorStr)
        ensures
            r@ == self@,
    {
        match self {
            ErrorStr::Owned(s) => ErrorStr::Owned(s.clone()),
            ErrorStr::StaticBorrow(s) => ErrorStr::StaticBorrow(s),
        }
    }
}

/// The typed failure kinds of the store: a malformed or checksum-failed
/// segment, a malformed split segment, a failed file operation, or a
/// partition that has outgrown single-segment compaction.
#[derive(Debug)]
pub enum Error {
    ScTableCorrupt { reason: ErrorStr },
    ScSplitCorrupt { reason: ErrorStr },
    IOError { reason: ErrorStr, file: String },
    RequiresExplode,
}

/// The mathematical image of an `Error`: the same four kinds over
/// character sequences.
pub enum ErrorView {
    ScTableCorrupt { reason: Seq<char> },
    ScSplitCorrupt { reason: Seq<char> },
    IOError { reason: Seq<char>, file: Seq<char> },
    RequiresExplode,
}

impl View for Error {
    type V = ErrorView;

    open spec fn view(&self) -> ErrorView {
        match self {
            Error::ScTableCorrupt { reason } => ErrorView::ScTableCorrupt { reason: reason@ },
            Error::ScSplitCorrupt { reason } => ErrorView::ScSplitCorrupt { reason: reason@ },
            Error::IOError { reason, file } => ErrorView::IOError {
                reason: reason@,
                file: file@,
            },
            Error::RequiresExplode => ErrorView::RequiresExplode,
        }
    }
}

impl Clone for Error {
    fn clone(&self) -> (r: Error)
        ensures
            r@ == self@,
    {
        match self {
            Error::ScTableCorrupt { reason } => Error::ScTableCorrupt { reason: reason.clone() },
            Error::ScSplitCorrupt { reason } => Error::ScSplitCorrupt { reason: reason.clone() },
            Error::IOError { reason, file } => Error::IOError {
                reason: reason.clone(),
                file: file.clone(),
            },
            Error::RequiresExplode => Error::RequiresExplode,
        }
    }
}

impl Error {
    /// Whether this error reports a corrupt segment.
    pub open spec fn is_sc_table_corrupt(&self) -> bool {
        self@ matches ErrorView::ScTableCorrupt { .. }
    }

    pub fn sc_table_corrupt(reason: ErrorStr) -> (r: Error)
        ensures
            r@ == (ErrorView::ScTableCorrupt { reason: reason@ }),
    {
        Error::ScTableCorrupt { reason }
    }

    pub fn sc_split_corrupt(reason: ErrorStr) -> (r: Error)
        ensures
            r@ == (ErrorView::ScSplitCorrupt { reason: reason@ }),
    {
        Error::ScSplitCorrupt { reason }
    }

    pub fn io_error(reason: ErrorStr, file: String) -> (r: Error)
        ensures
            r@ == (ErrorView::IOError { reason: reason@, file: file@ }),
    {
        Error::IOError { reason, file }
    }

    pub fn requires_explode() -> (r: Error)
        ensures
            r@ == ErrorView::RequiresExplode,
    {
        Error::RequiresExplode
    }
}

} // verus!
