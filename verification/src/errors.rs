//! What can go wrong: in the usage document, in the argument vector, or in
//! turning a bound value into a typed field.

use vstd::prelude::*;

verus! {

/// What is wrong with a usage document.
#[derive(Clone, Copy, Debug, PartialEq, Eq, Structural)]
pub enum Fault {
    /// No line holds the word `usage:`.
    MissingUsage,
    /// The usage section holds no pattern.
    EmptyUsage,
    /// A `[` or `(` is never closed, or is closed by the other kind of bracket.
    Unclosed,
    /// A `]` or `)` closes nothing.
    Unopened,
    /// A `...` stands where nothing precedes it.
    DanglingDots,
}

/// What a call of the library can fail with.
#[derive(Debug, PartialEq, Eq)]
pub enum Error {
    /// The usage document is malformed.
    Grammar(Fault),
    /// The argument vector matches no usage pattern. Holds the usage
    /// document as it was given, for display.
    Usage(String),
    /// In strict mode: the argument, as given, holds a flag that the grammar
    /// does not declare.
    UnknownOption(String),
    /// The named field cannot be filled: its name maps to no key of the
    /// value map, or its value does not convert to the field's type.
    ValueConversion(String),
}

/// An error as the specification sees it.
pub enum ErrorView {
    Grammar(Fault),
    Usage(Seq<char>),
    UnknownOption(Seq<char>),
    ValueConversion(Seq<char>),
}

impl View for Error {
    type V = ErrorView;

    open spec fn view(&self) -> ErrorView {
        match self {
            Error::Grammar(f) => ErrorView::Grammar(*f),
            Error::Usage(s) => ErrorView::Usage(s@),
            Error::UnknownOption(s) => ErrorView::UnknownOption(s@),
            Error::ValueConversion(s) => ErrorView::ValueConversion(s@),
        }
    }
}

} // verus!
