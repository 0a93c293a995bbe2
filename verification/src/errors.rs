//! Why decoding an element can fail.

use vstd::prelude::*;
use vstd::string::StringExecFns;
use crate::event::{StreamError, StreamErrorView};

verus! {

/// A failure to decode an element. None is retried, and none leaves a
/// partial record behind.
#[derive(Debug, Clone, PartialEq, Eq)]
pub enum ParseError {
    /// A start tag named an element that the element being decoded may not
    /// hold. Carries the local name of that start tag.
    DisallowedChild(String),
    /// The stream was exhausted before the end tag of the element being
    /// decoded.
    UnterminatedElement,
    /// The event source reported malformed input. `element` is the tag of the
    /// element that was being decoded, `cause` is the source's report as it
    /// came.
    UpstreamStreamError { element: String, cause: StreamError },
}

/// What a [`ParseError`] stands for in contracts.
pub enum ParseErrorView {
    DisallowedChild(Seq<char>),
    UnterminatedElement,
    UpstreamStreamError { element: Seq<char>, cause: StreamErrorView },
}

impl View for ParseError {
    type V = ParseErrorView;

    open spec fn view(&self) -> ParseErrorView {
        match *self {
            ParseError::DisallowedChild(name) => ParseErrorView::DisallowedChild(name@),
            ParseError::UnterminatedElement => ParseErrorView::UnterminatedElement,
            ParseError::UpstreamStreamError { element, cause } => ParseErrorView::UpstreamStreamError {
                element: element@,
                cause: cause@,
            },
        }
    }
}

impl ParseErrorView {
    /// The failure in words, for a reader who has to find the fault in the
    /// document.
    pub open spec fn message(self) -> Seq<char> {
        match self {
            ParseErrorView::DisallowedChild(name) => "disallowed child element: "@ + name,
            ParseErrorView::UnterminatedElement => "missing end tag"@,
            ParseErrorView::UpstreamStreamError { element, cause } => "malformed input inside "@
                + element + ": "@ + cause.message,
        }
    }
}

impl ParseError {
    /// The failure in words.
    pub fn message(&self) -> (text: String)
        ensures
            text@ == self@.message(),
    {
        match self {
            ParseError::DisallowedChild(name) => {
                let mut text = String::from_str("disallowed child element: ");
                text.append(name.as_str());
                text
            },
            ParseError::UnterminatedElement => String::from_str("missing end tag"),
            ParseError::UpstreamStreamError { element, cause } => {
                let mut text = String::from_str("malformed input inside ");
                text.append(element.as_str());
                text.append(": ");
                text.append(cause.message.as_str());
                text
            },
        }
    }
}

/// The view of what a consumer returned: the record's view, or the error's.
pub open spec fn outcome_view<T: View>(outcome: Result<T, ParseError>) -> Result<T::V, ParseErrorView> {
    match outcome {
        Ok(value) => Ok(value@),
        Err(error) => Err(error@),
    }
}

} // verus!
