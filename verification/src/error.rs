//! The error type of the library.
use vstd::prelude::*;

verus! {

/// What can go wrong in an operation of this library. Every variant carries
/// the offending literal; the numeric ones also carry a reason.
#[derive(Debug, PartialEq, Eq)]
pub enum KorrektorError {
    /// A character that has no rank in the collation alphabet.
    InvalidChar(char),
    /// A numeral that is not of the expected form: the literal and the reason.
    InvalidNumber(String, String),
    /// A digit run longer than the converter accepts: the run and the reason.
    NumberOverflow(String, String),
}

/// The mathematical content of a [`KorrektorError`].
pub enum ErrorView {
    InvalidChar(char),
    InvalidNumber(Seq<char>, Seq<char>),
    NumberOverflow(Seq<char>, Seq<char>),
}

impl View for KorrektorError {
    type V = ErrorView;

    open spec fn view(&self) -> ErrorView {
        match self {
            KorrektorError::InvalidChar(c) => ErrorView::InvalidChar(*c),
            KorrektorError::InvalidNumber(value, reason) => ErrorView::InvalidNumber(
                value@,
                reason@,
            ),
            KorrektorError::NumberOverflow(value, reason) => ErrorView::NumberOverflow(
                value@,
                reason@,
            ),
        }
    }
}

/// The outcome of an operation that gives a text or fails, by its views.
pub open spec fn outcome(r: Result<String, KorrektorError>) -> Result<Seq<char>, ErrorView> {
    match r {
        Ok(s) => Ok(s@),
        Err(e) => Err(e@),
    }
}

/// The text that [`KorrektorError::message`] gives for an error.
pub open spec fn message_of(e: ErrorView) -> Seq<char> {
    match e {
        ErrorView::InvalidChar(c) => "Invalid character: \""@.push(c)
            + "\"! Only Latin and Cyrillic alphabets for Uzbek language are supported."@,
        ErrorView::InvalidNumber(value, reason) => reason + ": "@ + value + "!"@,
        ErrorView::NumberOverflow(value, reason) => reason + ": "@ + value,
    }
}

impl KorrektorError {
    /// The human-readable form of the error.
    pub fn message(&self) -> (r: String)
        ensures
            r@ == message_of(self@),
    {
        match self {
            KorrektorError::InvalidChar(c) => {
                let mut out = String::from_str("Invalid character: \"");
                out.push(*c);
                out.append(
                    "\"! Only Latin and Cyrillic alphabets for Uzbek language are supported.",
                );
                out
            },
            KorrektorError::InvalidNumber(value, reason) => {
                let mut out = reason.clone();
                out.append(": ");
                out.append(value.as_str());
                out.append("!");
                out
            },
            KorrektorError::NumberOverflow(value, reason) => {
                let mut out = reason.clone();
                out.append(": ");
                out.append(value.as_str());
                out
            },
        }
    }
}

} // verus!
