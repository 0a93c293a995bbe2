//! Structural events of a document, and their mathematical views.

use vstd::prelude::*;
use crate::text::same_text;

verus! {

/// One attribute of a start tag: its local name and its value.
#[derive(Debug, Clone, PartialEq, Eq)]
pub struct Attribute {
    pub name: String,
    pub value: String,
}

/// What an [`Attribute`] stands for in contracts.
pub struct AttributeView {
    pub name: Seq<char>,
    pub value: Seq<char>,
}

impl View for Attribute {
    type V = AttributeView;

    open spec fn view(&self) -> AttributeView {
        AttributeView { name: self.name@, value: self.value@ }
    }
}

impl DeepView for Attribute {
    type V = AttributeView;

    open spec fn deep_view(&self) -> AttributeView {
        self@
    }
}

/// The value of the first attribute called `name`, if there is one.
pub open spec fn attribute_value(attributes: Seq<AttributeView>, name: Seq<char>) -> Option<
    Seq<char>,
>
    decreases attributes.len(),
{
    if attributes.len() == 0 {
        None
    } else if attributes[0].name == name {
        Some(attributes[0].value)
    } else {
        attribute_value(attributes.skip(1), name)
    }
}

/// The value of a required attribute: as written, or empty where the start
/// tag does not carry it.
pub open spec fn required(value: Option<Seq<char>>) -> Seq<char> {
    match value {
        Some(text) => text,
        None => Seq::empty(),
    }
}

/// Looks up the value of the first attribute called `name`.
pub fn find_attribute(attributes: &Vec<Attribute>, name: &str) -> (value: Option<String>)
    ensures
        value.deep_view() == attribute_value(attributes.deep_view(), name@),
{
    let ghost all = attributes.deep_view();
    let mut i: usize = 0;
    assert(all.skip(0) == all);
    while i < attributes.len()
        invariant
            all == attributes.deep_view(),
            i <= attributes.len(),
            attribute_value(all, name@) == attribute_value(all.skip(i as int), name@),
        decreases attributes.len() - i,
    {
        if same_text(attributes[i].name.as_str(), name) {
            return Some(attributes[i].value.clone());
        }
        proof {
            assert(all.skip(i as int).skip(1) == all.skip(i + 1));
        }
        i += 1;
    }
    None
}

/// The value of the required attribute `name`, empty where it is missing.
pub fn required_attribute(attributes: &Vec<Attribute>, name: &str) -> (value: String)
    ensures
        value@ == required(attribute_value(attributes.deep_view(), name@)),
{
    match find_attribute(attributes, name) {
        Some(text) => text,
        None => String::new(),
    }
}

/// A structural event of a document.
#[derive(Debug, Clone, PartialEq, Eq)]
pub enum Event {
    /// A start tag, with the element's local name and its attributes in
    /// document order.
    Start { name: String, attributes: Vec<Attribute> },
    /// An end tag, with the element's local name.
    End { name: String },
    /// Character data, with entities resolved, or the content of a CDATA
    /// section.
    Text(String),
    /// Anything without structural meaning: comments, processing
    /// instructions, runs of white space, document boundaries.
    Other,
}

/// What an [`Event`] stands for in contracts.
pub enum EventView {
    Start { name: Seq<char>, attributes: Seq<AttributeView> },
    End { name: Seq<char> },
    Text(Seq<char>),
    Other,
}

impl View for Event {
    type V = EventView;

    open spec fn view(&self) -> EventView {
        match *self {
            Event::Start { name, attributes } => EventView::Start {
                name: name@,
                attributes: attributes.deep_view(),
            },
            Event::End { name } => EventView::End { name: name@ },
            Event::Text(content) => EventView::Text(content@),
            Event::Other => EventView::Other,
        }
    }
}

/// A malformed-document condition reported by an event source.
#[derive(Debug, Clone, PartialEq, Eq)]
pub struct StreamError {
    /// The source's description of the fault, position first.
    pub message: String,
}

/// What a [`StreamError`] stands for in contracts.
pub struct StreamErrorView {
    pub message: Seq<char>,
}

impl View for StreamError {
    type V = StreamErrorView;

    open spec fn view(&self) -> StreamErrorView {
        StreamErrorView { message: self.message@ }
    }
}

/// One item of an event stream as contracts see it: an event, or the fault
/// that the source reported in its place.
pub type Signal = Result<EventView, StreamErrorView>;

/// The view of one item pulled from an event source.
pub open spec fn signal_view(item: Result<Event, StreamError>) -> Signal {
    match item {
        Ok(event) => Ok(event@),
        Err(fault) => Err(fault@),
    }
}

/// The views of a list of pulled items, in order.
pub open spec fn signal_views(items: Seq<Result<Event, StreamError>>) -> Seq<Signal> {
    items.map_values(|item: Result<Event, StreamError>| signal_view(item))
}

} // verus!
