use vstd::prelude::*;

verus! {

/// What a failed operation reports.
#[derive(Debug, Clone, PartialEq, Eq)]
pub enum Error {
    /// An empty URL, or a malformed or empty code.
    ParamsError,
    /// The record store could not be reached.
    StoreUnavailable,
    /// Sixteen distinct URLs already share this code; carries the rejected URL.
    Overflow(String),
}

/// The mathematical value of an [`Error`].
pub ghost enum ErrorView {
    Params,
    StoreUnavailable,
    Overflow(Seq<char>),
}

impl View for Error {
    type V = ErrorView;

    open spec fn view(&self) -> ErrorView {
        match self {
            Error::ParamsError => ErrorView::Params,
            Error::StoreUnavailable => ErrorView::StoreUnavailable,
            Error::Overflow(u) => ErrorView::Overflow(u@),
        }
    }
}

} // verus!
