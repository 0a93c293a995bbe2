//! An event source over an XML document held in memory.

use vstd::prelude::*;
use xml::reader::{EventReader, Events, XmlEvent};
use crate::event::{Attribute, Event, Signal, StreamError, signal_view};
use crate::source::EventSource;

verus! {

/// The events of one XML document, read on demand by the `xml` crate's pull
/// parser in its default configuration.
#[verifier::external_body]
pub struct XmlEvents<'a> {
    reader: Events<&'a [u8]>,
}

/// The items that `reader` has not handed out yet, next one first, up to the
/// point where it stops: after the end of the document or after the first
/// fault.
pub uninterp spec fn pending(reader: XmlEvents) -> Seq<Signal>;

/// All the items that the pull parser yields for the document `bytes`, from
/// the start of the document on.
pub uninterp spec fn document_events(bytes: Seq<u8>) -> Seq<Signal>;

/// `xml::reader::EventReader::new` over the document, turned into its
/// iterator. Nothing is read yet; what the iterator will yield depends on the
/// bytes alone.
#[verifier::external_body]
fn start<'a>(document: &'a [u8]) -> (reader: XmlEvents<'a>)
    ensures
        pending(reader) == document_events(document@),
{
    XmlEvents { reader: EventReader::new(document).into_iter() }
}

/// `Iterator::next` of `xml::reader::Events`. The iterator yields what is
/// pending, one item a call, and `None` once nothing is pending. A start tag
/// keeps its local name and its attributes' local names and values, an end
/// tag its local name, character data and CDATA sections their text; every
/// other event is [`Event::Other`]. A fault keeps the text that the crate
/// prints for it.
#[verifier::external_body]
fn pull<'a>(reader: &mut XmlEvents<'a>) -> (item: Option<Result<Event, StreamError>>)
    ensures
        match item {
            Some(signal) => {
                &&& pending(*old(reader)).len() > 0
                &&& signal_view(signal) == pending(*old(reader))[0]
                &&& pending(*final(reader)) == pending(*old(reader)).skip(1)
            },
            None => {
                &&& pending(*old(reader)).len() == 0
                &&& pending(*final(reader)) == pending(*old(reader))
            },
        },
{
    Some(match reader.reader.next()? {
        Ok(XmlEvent::StartElement { name, attributes, .. }) => Ok(Event::Start {
            name: name.local_name,
            attributes: attributes
                .into_iter()
                .map(|a| Attribute { name: a.name.local_name, value: a.value })
                .collect(),
        }),
        Ok(XmlEvent::EndElement { name }) => Ok(Event::End { name: name.local_name }),
        Ok(XmlEvent::Characters(content)) => Ok(Event::Text(content)),
        Ok(XmlEvent::CData(content)) => Ok(Event::Text(content)),
        Ok(_) => Ok(Event::Other),
        Err(fault) => Err(StreamError { message: fault.to_string() }),
    })
}

impl<'a> XmlEvents<'a> {
    /// An event source positioned at the start of `document`.
    pub fn open(document: &'a [u8]) -> (source: XmlEvents<'a>)
        ensures
            source.remaining() == document_events(document@),
    {
        start(document)
    }
}

impl<'a> EventSource for XmlEvents<'a> {
    open spec fn remaining(&self) -> Seq<Signal> {
        pending(*self)
    }

    fn next(&mut self) -> (item: Option<Result<Event, StreamError>>) {
        pull(self)
    }
}

} // verus!
