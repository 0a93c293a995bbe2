//! Consumer for `email` elements.

use vstd::prelude::*;
use crate::errors::{ParseError, outcome_view};
use crate::event::{Attribute, AttributeView, Signal, attribute_value, required, required_attribute};
use crate::parser::element::{Schema, element_with, lemma_leaf_orderly};
use crate::parser::scan::{Parsed, Step, advance, lemma_scan_bounds, scan};
use crate::source::EventSource;

verus! {

/// An email address, split at the `@`.
///
/// ```xml
/// <email id="xsd:string" domain="xsd:string"/>
/// ```
#[derive(Debug, Clone, PartialEq, Eq)]
pub struct Email {
    /// The part before the `@`.
    pub id: String,
    /// The part after the `@`.
    pub domain: String,
}

/// What an [`Email`] stands for in contracts.
pub struct EmailView {
    pub id: Seq<char>,
    pub domain: Seq<char>,
}

impl View for Email {
    type V = EmailView;

    open spec fn view(&self) -> EmailView {
        EmailView { id: self.id@, domain: self.domain@ }
    }
}

impl DeepView for Email {
    type V = EmailView;

    open spec fn deep_view(&self) -> EmailView {
        self@
    }
}

/// The address that the attributes of an `email` start tag spell out.
pub open spec fn email_of(attributes: Seq<AttributeView>) -> EmailView {
    EmailView {
        id: required(attribute_value(attributes, "id"@)),
        domain: required(attribute_value(attributes, "domain"@)),
    }
}

/// How an `email` element is decoded: it may hold no child and nothing of
/// its own, so the address that its start tag spelt out stands once the end
/// tag comes.
pub open spec fn email_schema() -> Schema<EmailView, (), ()> {
    Schema::leaf("email"@, |email: EmailView, content: Seq<char>| email)
}

/// What a consumer of an `email` element makes of `events`, entered right
/// after a start tag that carried `attributes`.
pub open spec fn email_from(events: Seq<Signal>, attributes: Seq<AttributeView>) -> Parsed<
    EmailView,
> {
    element_with(email_schema(), events, email_of(attributes))
}

/// An `email` element has no child that could misbehave.
pub proof fn lemma_email_orderly()
    ensures
        email_schema().orderly(),
{
    lemma_leaf_orderly("email"@, |email: EmailView, content: Seq<char>| email);
}

/// Reads an `email` element through its end tag. `attributes` are those of
/// its start tag.
pub fn consume<S: EventSource>(source: &mut S, attributes: &Vec<Attribute>) -> (result: Result<
    Email,
    ParseError,
>)
    ensures
        outcome_view(result) == email_from(
            old(source).remaining(),
            attributes.deep_view(),
        ).result,
        final(source).remaining() == old(source).remaining().skip(
            email_from(old(source).remaining(), attributes.deep_view()).consumed as int,
        ),
{
    let email = Email {
        id: required_attribute(attributes, "id"),
        domain: required_attribute(attributes, "domain"),
    };
    let ghost unread = source.remaining();
    let ghost mut read: nat = 0;
    proof {
        assert(unread.skip(0) == unread);
    }
    loop
        invariant
            unread == old(source).remaining(),
            read <= unread.len(),
            source.remaining() == unread.skip(read as int),
            email@ == email_of(attributes.deep_view()),
            email_from(unread, attributes.deep_view()) == element_with(
                email_schema(),
                unread.skip(read as int),
                email@,
            ).after(read),
        decreases unread.len() - read,
    {
        let ghost here = source.remaining();
        proof {
            lemma_scan_bounds(here, "email"@);
        }
        match advance(source, "email") {
            Err(error) => {
                return Err(error);
            },
            Ok(Step::Close) => {
                return Ok(email);
            },
            Ok(Step::Text(_)) => {},
            Ok(Step::Child { name, .. }) => {
                return Err(ParseError::DisallowedChild(name));
            },
        }
        proof {
            let step = scan(here, "email"@);
            assert(here.skip(step.consumed as int) == unread.skip(read + step.consumed as int));
            read = read + step.consumed;
        }
    }
}

} // verus!
