//! Streaming decoder for the composite elements of GPX documents.
//!
//! A document is read as a forward-only stream of structural events
//! ([`source::EventSource`]). Each element of the schema has a consumer that
//! is entered right after the element's start tag, reads through its
//! matching end tag, and returns a typed record or the reason why it could
//! not ([`errors::ParseError`]).
//!
//! What a consumer returns and how far it reads is defined once, for every
//! kind of element, in [`parser::element`]; [`parser::content`] proves what
//! follows from that definition for well-formed and for broken documents.
//! The consumers themselves are in [`parser::person`], [`parser::link`],
//! [`parser::email`] and [`parser::string`].
//!
//! Events come from the `xml` crate's pull parser ([`reader::XmlEvents`]) or
//! from a recorded list ([`source::Replay`]).

pub mod errors;
pub mod event;
pub mod parser;
pub mod reader;
pub mod source;
pub mod text;
