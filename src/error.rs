//! The error of the parsers.
use vstd::prelude::*;

verus! {

/// Why a parse failed.
#[derive(Clone, Debug, PartialEq, Eq)]
pub enum ParseErr {
    /// A text-level mismatch: what was expected, what was found, and the
    /// character offset.
    Unexpected(String, String, u64),
    /// A token-level mismatch: what was expected, what was found, and the
    /// token index.
    UnexpectedToken(String, String, u64),
    /// Any other failure, with a message.
    Unknown(String),
}

/// The mathematical value of a [`ParseErr`].
pub enum ErrV {
    Unexpected(Seq<char>, Seq<char>, u64),
    UnexpectedToken(Seq<char>, Seq<char>, u64),
    Unknown(Seq<char>),
}

impl View for ParseErr {
    type V = ErrV;

    open spec fn view(&self) -> ErrV {
        match self {
            ParseErr::Unexpected(e, f, p) => ErrV::Unexpected(e@, f@, *p),
            ParseErr::UnexpectedToken(e, f, p) => ErrV::UnexpectedToken(e@, f@, *p),
            ParseErr::Unknown(m) => ErrV::Unknown(m@),
        }
    }
}

} // verus!
