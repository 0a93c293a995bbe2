//! Consumer for `link` elements.

use vstd::prelude::*;
use crate::errors::{ParseError, outcome_view};
use crate::event::{Attribute, AttributeView, Signal, attribute_value, required, required_attribute};
use crate::parser::element::{
    Schema, element_with, lemma_element_bounds, lemma_element_exhausted, lemma_element_local,
    unterminated,
};
use crate::parser::scan::{Parsed, Step, advance, lemma_scan_bounds, scan};
use crate::parser::string::{lemma_text_orderly, text_from, text_schema};
use crate::source::EventSource;
use crate::text::same_text;

verus! {

/// A link to a resource outside the document.
///
/// ```xml
/// <link href="xsd:anyURI">
///   <text> xsd:string </text> [0..1]
///   <type> xsd:string </type> [0..1]
/// </link>
/// ```
#[derive(Debug, Clone, PartialEq, Eq)]
pub struct Link {
    /// Where the link points.
    pub href: String,
    /// The text of the hyperlink.
    pub text: Option<String>,
    /// The MIME type of what the link points to.
    pub type_: Option<String>,
}

/// What a [`Link`] stands for in contracts.
pub struct LinkView {
    pub href: Seq<char>,
    pub text: Option<Seq<char>>,
    pub type_: Option<Seq<char>>,
}

impl View for Link {
    type V = LinkView;

    open spec fn view(&self) -> LinkView {
        LinkView { href: self.href@, text: self.text.deep_view(), type_: self.type_.deep_view() }
    }
}

impl DeepView for Link {
    type V = LinkView;

    open spec fn deep_view(&self) -> LinkView {
        self@
    }
}

/// The child elements that a `link` element may hold. Each is a text
/// element, and each fills the field of its name.
#[derive(Debug, Clone, Copy, PartialEq, Eq)]
pub enum LinkChild {
    Text,
    Type,
}

impl LinkView {
    /// The link as its start tag alone describes it.
    pub open spec fn opening(attributes: Seq<AttributeView>) -> LinkView {
        LinkView { href: required(attribute_value(attributes, "href"@)), text: None, type_: None }
    }

    /// The link once the child `child` was read with the text `value`. A
    /// later child of the same name replaces an earlier one.
    pub open spec fn with(self, child: LinkChild, value: Seq<char>) -> LinkView {
        match child {
            LinkChild::Text => LinkView { text: Some(value), ..self },
            LinkChild::Type => LinkView { type_: Some(value), ..self },
        }
    }
}

/// The child of a `link` element that a start tag called `name` opens, if
/// the element may hold one of that name.
pub open spec fn link_child(name: Seq<char>) -> Option<LinkChild> {
    if name == "text"@ {
        Some(LinkChild::Text)
    } else if name == "type"@ {
        Some(LinkChild::Type)
    } else {
        None
    }
}

/// Looks up the child of a `link` element that a start tag called `name`
/// opens.
pub fn child_of(name: &str) -> (child: Option<LinkChild>)
    ensures
        child == link_child(name@),
{
    if same_text(name, "text") {
        Some(LinkChild::Text)
    } else if same_text(name, "type") {
        Some(LinkChild::Type)
    } else {
        None
    }
}

/// How a `link` element is decoded: each child that it may hold is a text
/// element whose text fills the field of its name, and character data
/// between children is passed over.
pub open spec fn link_schema() -> Schema<LinkView, LinkChild, Seq<char>> {
    Schema {
        tag: "link"@,
        kind: |name: Seq<char>| link_child(name),
        decode: |
            child: LinkChild,
            name: Seq<char>,
            attributes: Seq<AttributeView>,
            events: Seq<Signal>,
        |
            text_from(events, name),
        store: |link: LinkView, child: LinkChild, value: Seq<char>| link.with(child, value),
        gather: |link: LinkView, content: Seq<char>| link,
    }
}

/// What a consumer of a `link` element makes of `events`, entered right
/// after a start tag that carried `attributes`.
pub open spec fn link_from(events: Seq<Signal>, attributes: Seq<AttributeView>) -> Parsed<LinkView> {
    element_with(link_schema(), events, LinkView::opening(attributes))
}

/// No child of a `link` element is itself called `link`, and the consumers
/// of its children behave as consumers do.
pub proof fn lemma_link_orderly()
    ensures
        link_schema().orderly(),
{
    let schema = link_schema();
    assert((schema.kind)(schema.tag) is None) by {
        reveal_strlit("link");
        reveal_strlit("text");
        reveal_strlit("type");
        assert("link"@[0] == 'l');
        assert("text"@[0] == 't');
        assert("type"@[0] == 't');
    }
    assert forall|
        child: LinkChild,
        name: Seq<char>,
        attributes: Seq<AttributeView>,
        events: Seq<Signal>,
    |
        (#[trigger] (schema.decode)(child, name, attributes, events)).consumed
            <= events.len() by {
        lemma_text_orderly(name);
        lemma_element_bounds(text_schema(name), events, Seq::empty());
    }
    assert forall|
        child: LinkChild,
        name: Seq<char>,
        attributes: Seq<AttributeView>,
        events: Seq<Signal>,
    |
        (#[trigger] (schema.decode)(child, name, attributes, events)).result == unterminated::<
            Seq<char>,
        >() implies (schema.decode)(child, name, attributes, events).consumed
        == events.len() by {
        lemma_text_orderly(name);
        lemma_element_exhausted(text_schema(name), events, Seq::empty());
    }
    assert forall|
        child: LinkChild,
        name: Seq<char>,
        attributes: Seq<AttributeView>,
        events: Seq<Signal>,
        more: Seq<Signal>,
    |
        (schema.decode)(child, name, attributes, events).result != unterminated::<
            Seq<char>,
        >() implies (#[trigger] (schema.decode)(child, name, attributes, events + more)) == (
        schema.decode)(child, name, attributes, events) by {
        lemma_text_orderly(name);
        lemma_element_local(text_schema(name), events, more, Seq::empty());
    }
}

/// Reads a `link` element through its end tag. `attributes` are those of its
/// start tag.
pub fn consume<S: EventSource>(source: &mut S, attributes: &Vec<Attribute>) -> (result: Result<
    Link,
    ParseError,
>)
    ensures
        outcome_view(result) == link_from(old(source).remaining(), attributes.deep_view()).result,
        final(source).remaining() == old(source).remaining().skip(
            link_from(old(source).remaining(), attributes.deep_view()).consumed as int,
        ),
{
    let mut link = Link { href: required_attribute(attributes, "href"), text: None, type_: None };
    let ghost opening = link@;
    let ghost unread = source.remaining();
    let ghost mut read: nat = 0;
    proof {
        lemma_link_orderly();
    }
    loop
        invariant
            unread == old(source).remaining(),
            opening == LinkView::opening(attributes.deep_view()),
            read <= unread.len(),
            source.remaining() == unread.skip(read as int),
            link_schema().bounded(),
            element_with(link_schema(), unread, opening) == element_with(
                link_schema(),
                unread.skip(read as int),
                link@,
            ).after(read),
        decreases unread.len() - read,
    {
        let ghost here = source.remaining();
        let ghost step = scan(here, "link"@);
        let ghost rest = here.skip(step.consumed as int);
        proof {
            lemma_scan_bounds(here, "link"@);
        }
        match advance(source, "link") {
            Err(error) => {
                return Err(error);
            },
            Ok(Step::Close) => {
                return Ok(link);
            },
            Ok(Step::Text(_)) => {
                proof {
                    assert(rest == unread.skip(read + step.consumed as int));
                    read = read + step.consumed;
                }
            },
            Ok(Step::Child { name, .. }) => {
                let ghost inner = text_from(rest, name@);
                let child = match child_of(name.as_str()) {
                    Some(child) => child,
                    None => {
                        return Err(ParseError::DisallowedChild(name));
                    },
                };
                match child {
                    LinkChild::Text => match crate::parser::string::consume(source, "text") {
                        Err(error) => {
                            return Err(error);
                        },
                        Ok(value) => {
                            link.text = Some(value);
                        },
                    },
                    LinkChild::Type => match crate::parser::string::consume(source, "type") {
                        Err(error) => {
                            return Err(error);
                        },
                        Ok(value) => {
                            link.type_ = Some(value);
                        },
                    },
                }
                proof {
                    assert(rest.skip(inner.consumed as int) == unread.skip(
                        read + step.consumed + inner.consumed as int,
                    ));
                    read = read + step.consumed + inner.consumed;
                }
            },
        }
    }
}

} // verus!
