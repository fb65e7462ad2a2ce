//! The kinds of failure that the library reports.

use vstd::prelude::*;

verus! {

/// Why an operation failed.
#[derive(Debug, PartialEq, Eq)]
pub enum Error {
    /// The file system failed underneath.
    IoError,
    /// Bad magic bytes, a cut-off or ill-formed record, or a count that
    /// does not match the body.
    CorruptFile,
    /// The symbol is too long for the header or holds a control byte.
    InvalidSymbol,
    /// The files to merge are not all of one symbol; `observed` lists the
    /// symbols found, each once, in ascending byte order.
    SymbolMismatch { observed: Vec<String> },
    /// Between two files that follow each other the gap is wider than
    /// allowed: `after` starts `gap` milliseconds after `before` ends.
    Discontinuous { before: String, after: String, gap: u64 },
    /// The call itself makes no sense: too few inputs, or sizing options
    /// that contradict each other.
    InvalidArgs,
}

/// An error as a mathematical value.
pub enum ErrorModel {
    IoError,
    CorruptFile,
    InvalidSymbol,
    SymbolMismatch { observed: Seq<Seq<char>> },
    Discontinuous { before: Seq<char>, after: Seq<char>, gap: u64 },
    InvalidArgs,
}

/// The texts of `names`, in the same order.
pub open spec fn texts(names: Seq<String>) -> Seq<Seq<char>> {
    Seq::new(names.len(), |i: int| names[i]@)
}

impl View for Error {
    type V = ErrorModel;

    open spec fn view(&self) -> ErrorModel {
        match *self {
            Error::IoError => ErrorModel::IoError,
            Error::CorruptFile => ErrorModel::CorruptFile,
            Error::InvalidSymbol => ErrorModel::InvalidSymbol,
            Error::SymbolMismatch { observed } => ErrorModel::SymbolMismatch {
                observed: texts(observed@),
            },
            Error::Discontinuous { before, after, gap } => ErrorModel::Discontinuous {
                before: before@,
                after: after@,
                gap,
            },
            Error::InvalidArgs => ErrorModel::InvalidArgs,
        }
    }
}

} // verus!
