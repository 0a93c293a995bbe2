//! Consumer for `person` elements.

use vstd::prelude::*;
use crate::errors::{ParseError, ParseErrorView, outcome_view};
use crate::event::{Attribute, AttributeView, EventView, Signal};
use crate::parser::content::{
    Part, assembled, conforming, content_events, lemma_childless_element,
    lemma_element_stops_at_end_tag, lemma_sibling_follows, lemma_truncated_element,
    lemma_unknown_child_refused, lemma_wellformed_element,
};
use crate::parser::element::{
    Schema, element_with, lemma_element_bounds, lemma_element_exhausted, lemma_element_local,
    unterminated,
};
use crate::parser::email::{Email, EmailView, email_from, email_of, email_schema, lemma_email_orderly};
use crate::parser::link::{Link, LinkView, lemma_link_orderly, link_from, link_schema};
use crate::parser::scan::{Parsed, Step, advance, lemma_scan_bounds, passed_over, scan};
use crate::parser::string::{lemma_text_orderly, text_from, text_schema};
use crate::reader::{XmlEvents, document_events};
use crate::source::EventSource;
use crate::text::same_text;

verus! {

/// A person or organization.
///
/// ```xml
/// <person>
///   <name> xsd:string </name> [0..1]
///   <email> emailType </email> [0..1]
///   <link> linkType </link> [0..1]
/// </person>
/// ```
#[derive(Debug, Clone, PartialEq, Eq)]
pub struct Person {
    pub name: Option<String>,
    pub email: Option<Email>,
    pub link: Option<Link>,
}

/// What a [`Person`] stands for in contracts.
pub struct PersonView {
    pub name: Option<Seq<char>>,
    pub email: Option<EmailView>,
    pub link: Option<LinkView>,
}

impl View for Person {
    type V = PersonView;

    open spec fn view(&self) -> PersonView {
        PersonView {
            name: self.name.deep_view(),
            email: self.email.deep_view(),
            link: self.link.deep_view(),
        }
    }
}

impl Default for Person {
    /// A person of whom nothing is known.
    fn default() -> (person: Person)
        ensures
            person@ == PersonView::absent(),
    {
        Person { name: None, email: None, link: None }
    }
}

/// The child elements that a `person` element may hold. Each fills the field
/// of its name.
#[derive(Debug, Clone, Copy, PartialEq, Eq)]
pub enum PersonChild {
    /// A text element.
    Name,
    /// An `email` element.
    Email,
    /// A `link` element.
    Link,
}

/// What one child of a `person` element was decoded to.
pub enum PersonField {
    Name(Seq<char>),
    Email(EmailView),
    Link(LinkView),
}

impl PersonView {
    /// The person with every field absent.
    pub open spec fn absent() -> PersonView {
        PersonView { name: None, email: None, link: None }
    }

    /// The person once a child was decoded to `field`. A later child of the
    /// same name replaces an earlier one.
    pub open spec fn with(self, field: PersonField) -> PersonView {
        match field {
            PersonField::Name(name) => PersonView { name: Some(name), ..self },
            PersonField::Email(email) => PersonView { email: Some(email), ..self },
            PersonField::Link(link) => PersonView { link: Some(link), ..self },
        }
    }
}

/// The child of a `person` element that a start tag called `name` opens, if
/// the element may hold one of that name.
pub open spec fn person_child(name: Seq<char>) -> Option<PersonChild> {
    if name == "name"@ {
        Some(PersonChild::Name)
    } else if name == "email"@ {
        Some(PersonChild::Email)
    } else if name == "link"@ {
        Some(PersonChild::Link)
    } else {
        None
    }
}

/// Looks up the child of a `person` element that a start tag called `name`
/// opens.
pub fn child_of(name: &str) -> (child: Option<PersonChild>)
    ensures
        child == person_child(name@),
{
    if same_text(name, "name") {
        Some(PersonChild::Name)
    } else if same_text(name, "email") {
        Some(PersonChild::Email)
    } else if same_text(name, "link") {
        Some(PersonChild::Link)
    } else {
        None
    }
}

/// What the consumer of the child `child` makes of `events`, entered right
/// after the child's start tag, which was called `name` and carried
/// `attributes`.
pub open spec fn child_from(
    events: Seq<Signal>,
    child: PersonChild,
    name: Seq<char>,
    attributes: Seq<AttributeView>,
) -> Parsed<PersonField> {
    match child {
        PersonChild::Name => text_from(events, name).map(|text: Seq<char>| PersonField::Name(text)),
        PersonChild::Email => email_from(events, attributes).map(
            |email: EmailView| PersonField::Email(email),
        ),
        PersonChild::Link => link_from(events, attributes).map(
            |link: LinkView| PersonField::Link(link),
        ),
    }
}

/// How a `person` element is decoded: each child that it may hold is handed
/// to its own consumer and fills the field of its name, and character data
/// between children is passed over.
pub open spec fn person_schema() -> Schema<PersonView, PersonChild, PersonField> {
    Schema {
        tag: "person"@,
        kind: |name: Seq<char>| person_child(name),
        decode: |
            child: PersonChild,
            name: Seq<char>,
            attributes: Seq<AttributeView>,
            events: Seq<Signal>,
        |
            child_from(events, child, name, attributes),
        store: |person: PersonView, child: PersonChild, field: PersonField| person.with(field),
        gather: |person: PersonView, content: Seq<char>| person,
    }
}

/// What a consumer of a `person` element makes of `events` once it holds
/// `person`.
pub open spec fn person_with(events: Seq<Signal>, person: PersonView) -> Parsed<PersonView> {
    element_with(person_schema(), events, person)
}

/// What a consumer of a `person` element makes of `events`, entered right
/// after the element's start tag.
pub open spec fn person_from(events: Seq<Signal>) -> Parsed<PersonView> {
    person_with(events, PersonView::absent())
}

/// No child of a `person` element is itself called `person`, and the
/// consumers of its children behave as consumers do.
pub proof fn lemma_person_orderly()
    ensures
        person_schema().orderly(),
{
    let schema = person_schema();
    assert((schema.kind)(schema.tag) is None) by {
        reveal_strlit("person");
        reveal_strlit("name");
        reveal_strlit("email");
        reveal_strlit("link");
        assert("person"@.len() == 6);
        assert("name"@.len() == 4);
        assert("email"@.len() == 5);
        assert("link"@.len() == 4);
    }
    lemma_email_orderly();
    lemma_link_orderly();
    assert forall|
        child: PersonChild,
        name: Seq<char>,
        attributes: Seq<AttributeView>,
        events: Seq<Signal>,
    |
        (#[trigger] (schema.decode)(child, name, attributes, events)).consumed
            <= events.len() by {
        lemma_text_orderly(name);
        lemma_element_bounds(text_schema(name), events, Seq::empty());
        lemma_element_bounds(email_schema(), events, email_of(attributes));
        lemma_element_bounds(link_schema(), events, LinkView::opening(attributes));
    }
    assert forall|
        child: PersonChild,
        name: Seq<char>,
        attributes: Seq<AttributeView>,
        events: Seq<Signal>,
    |
        (#[trigger] (schema.decode)(child, name, attributes, events)).result == unterminated::<
            PersonField,
        >() implies (schema.decode)(child, name, attributes, events).consumed
        == events.len() by {
        lemma_text_orderly(name);
        match child {
            PersonChild::Name => lemma_element_exhausted(
                text_schema(name),
                events,
                Seq::empty(),
            ),
            PersonChild::Email => lemma_element_exhausted(
                email_schema(),
                events,
                email_of(attributes),
            ),
            PersonChild::Link => lemma_element_exhausted(
                link_schema(),
                events,
                LinkView::opening(attributes),
            ),
        }
    }
    assert forall|
        child: PersonChild,
        name: Seq<char>,
        attributes: Seq<AttributeView>,
        events: Seq<Signal>,
        more: Seq<Signal>,
    |
        (schema.decode)(child, name, attributes, events).result != unterminated::<
            PersonField,
        >() implies (#[trigger] (schema.decode)(child, name, attributes, events + more)) == (
        schema.decode)(child, name, attributes, events) by {
        lemma_text_orderly(name);
        match child {
            PersonChild::Name => lemma_element_local(
                text_schema(name),
                events,
                more,
                Seq::empty(),
            ),
            PersonChild::Email => lemma_element_local(
                email_schema(),
                events,
                more,
                email_of(attributes),
            ),
            PersonChild::Link => lemma_element_local(
                link_schema(),
                events,
                more,
                LinkView::opening(attributes),
            ),
        }
    }
}

/// Reads the child `child` of a `person` element through its end tag and
/// stores what it was decoded to in `person`. `name` and `attributes` are
/// those of the child's start tag.
fn read_child<S: EventSource>(
    source: &mut S,
    person: &mut Person,
    child: PersonChild,
    name: &str,
    attributes: &Vec<Attribute>,
) -> (result: Result<(), ParseError>)
    requires
        person_child(name@) == Some(child),
    ensures
        final(source).remaining() == old(source).remaining().skip(
            child_from(
                old(source).remaining(),
                child,
                name@,
                attributes.deep_view(),
            ).consumed as int,
        ),
        match result {
            Ok(()) => {
                &&& child_from(
                    old(source).remaining(),
                    child,
                    name@,
                    attributes.deep_view(),
                ).result matches Ok(field)
                &&& final(person)@ == old(person)@.with(field)
            },
            Err(error) => {
                &&& child_from(
                    old(source).remaining(),
                    child,
                    name@,
                    attributes.deep_view(),
                ).result == Err::<PersonField, ParseErrorView>(error@)
                &&& final(person)@ == old(person)@
            },
        },
{
    match child {
        PersonChild::Name => match crate::parser::string::consume(source, name) {
            Err(error) => Err(error),
            Ok(value) => {
                person.name = Some(value);
                Ok(())
            },
        },
        PersonChild::Email => match crate::parser::email::consume(source, attributes) {
            Err(error) => Err(error),
            Ok(value) => {
                person.email = Some(value);
                Ok(())
            },
        },
        PersonChild::Link => match crate::parser::link::consume(source, attributes) {
            Err(error) => Err(error),
            Ok(value) => {
                person.link = Some(value);
                Ok(())
            },
        },
    }
}

/// Reads a `person` element through its end tag.
///
/// On success the source stands right after that end tag; on failure it
/// stands right after the event at which the failure showed.
pub fn consume<S: EventSource>(source: &mut S) -> (result: Result<Person, ParseError>)
    ensures
        outcome_view(result) == person_from(old(source).remaining()).result,
        final(source).remaining() == old(source).remaining().skip(
            person_from(old(source).remaining()).consumed as int,
        ),
{
    let mut person = Person::default();
    let ghost unread = source.remaining();
    let ghost mut read: nat = 0;
    proof {
        lemma_person_orderly();
    }
    loop
        invariant
            unread == old(source).remaining(),
            read <= unread.len(),
            source.remaining() == unread.skip(read as int),
            person_schema().bounded(),
            person_from(unread) == person_with(unread.skip(read as int), person@).after(read),
        decreases unread.len() - read,
    {
        let ghost here = source.remaining();
        let ghost step = scan(here, "person"@);
        let ghost rest = here.skip(step.consumed as int);
        proof {
            lemma_scan_bounds(here, "person"@);
        }
        match advance(source, "person") {
            Err(error) => {
                return Err(error);
            },
            Ok(Step::Close) => {
                return Ok(person);
            },
            Ok(Step::Text(_)) => {
                proof {
                    assert(rest == unread.skip(read + step.consumed as int));
                    read = read + step.consumed;
                }
            },
            Ok(Step::Child { name, attributes }) => {
                let child = match child_of(name.as_str()) {
                    Some(child) => child,
                    None => {
                        return Err(ParseError::DisallowedChild(name));
                    },
                };
                let ghost inner = child_from(rest, child, name@, attributes.deep_view());
                match read_child(source, &mut person, child, name.as_str(), &attributes) {
                    Err(error) => {
                        return Err(error);
                    },
                    Ok(()) => {},
                }
                proof {
                    assert(rest.skip(inner.consumed as int) == unread.skip(
                        read + step.consumed + inner.consumed as int,
                    ));
                    read = read + step.consumed + inner.consumed;
                }
            },
        }
    }
}

/// Decodes the document `document`, whose root is a `person` element.
///
/// The events are those that the XML parser yields for the bytes, read from
/// the start of the document through the end tag of the root.
pub fn from_document(document: &[u8]) -> (result: Result<Person, ParseError>)
    ensures
        outcome_view(result) == person_from(document_events(document@)).result,
{
    let mut source = XmlEvents::open(document);
    consume(&mut source)
}

/// The field of `person` that the child `child` fills.
pub open spec fn field_of(person: PersonView, child: PersonChild) -> Option<PersonField> {
    match child {
        PersonChild::Name => match person.name {
            Some(name) => Some(PersonField::Name(name)),
            None => None,
        },
        PersonChild::Email => match person.email {
            Some(email) => Some(PersonField::Email(email)),
            None => None,
        },
        PersonChild::Link => match person.link {
            Some(link) => Some(PersonField::Link(link)),
            None => None,
        },
    }
}

/// Which child of a `person` element a piece of content is, if it is one.
pub open spec fn child_in(part: Part) -> Option<PersonChild> {
    match part {
        Part::Child { name, .. } => person_child(name),
        _ => None,
    }
}

/// A field whose child does not appear among the pieces stays as it was:
/// absent, where the consumer started from nothing.
pub proof fn lemma_missing_child_leaves_field(
    person: PersonView,
    parts: Seq<Part>,
    child: PersonChild,
)
    requires
        forall|i: int| 0 <= i < parts.len() ==> child_in(#[trigger] parts[i]) != Some(child),
    ensures
        field_of(assembled(person_schema(), person, parts), child) == field_of(person, child),
    decreases parts.len(),
{
    if parts.len() > 0 {
        let later = parts.skip(1);
        assert(child_in(parts[0]) != Some(child));
        assert forall|i: int| 0 <= i < later.len() implies child_in(#[trigger] later[i]) != Some(
            child,
        ) by {
            assert(later[i] == parts[i + 1]);
        }
        lemma_missing_child_leaves_field(parts[0].fill(person_schema(), person), later, child);
    }
}

/// A field holds what its child was decoded to: where the child appears at
/// `at` and no later piece is a child of the same name, the field is present
/// and equals the outcome of that child's consumer.
pub proof fn lemma_present_child_fills_field(person: PersonView, parts: Seq<Part>, at: int)
    requires
        0 <= at < parts.len(),
        parts[at].conforms(person_schema()),
        child_in(parts[at]) is Some,
        forall|i: int| at < i < parts.len() ==> child_in(#[trigger] parts[i]) != child_in(parts[at]),
    ensures
        field_of(assembled(person_schema(), person, parts), child_in(parts[at])->0) == Some(
            parts[at].decoded(person_schema()).result->Ok_0,
        ),
    decreases parts.len(),
{
    let child = child_in(parts[at])->0;
    let later = parts.skip(1);
    if at == 0 {
        assert forall|i: int| 0 <= i < later.len() implies child_in(#[trigger] later[i]) != Some(
            child,
        ) by {
            assert(later[i] == parts[i + 1]);
        }
        lemma_missing_child_leaves_field(parts[0].fill(person_schema(), person), later, child);
    } else {
        assert(later[at - 1] == parts[at]);
        assert forall|i: int| at - 1 < i < later.len() implies child_in(#[trigger] later[i])
            != child_in(later[at - 1]) by {
            assert(later[i] == parts[i + 1]);
        }
        lemma_present_child_fills_field(parts[0].fill(person_schema(), person), later, at - 1);
    }
}

/// A well-formed `person` element is decoded to the record of its children.
///
/// Let the unread events be the pieces `parts`, each of which may stand in a
/// `person` element, then an end tag, then anything. The consumer succeeds,
/// stops right after that end tag, and returns the record that the pieces
/// assemble from nothing. The children may come in any order; which fields
/// are then present is told by [`lemma_present_child_fills_field`] and
/// [`lemma_missing_child_leaves_field`].
pub proof fn lemma_person_wellformed(parts: Seq<Part>, close: Seq<char>, more: Seq<Signal>)
    requires
        conforming(person_schema(), parts),
    ensures
        person_from(content_events(parts) + seq![Ok(EventView::End { name: close })] + more) == (
        Parsed {
            result: Ok(assembled(person_schema(), PersonView::absent(), parts)),
            consumed: content_events(parts).len() + 1,
        }),
{
    lemma_person_orderly();
    lemma_wellformed_element(person_schema(), parts, close, more, PersonView::absent());
}

/// A `person` element without children is decoded to a record with every
/// field absent: where only what the consumer passes over comes before the
/// end tag at `end`, the consumer succeeds and stops right after that tag.
pub proof fn lemma_person_childless(events: Seq<Signal>, end: int)
    requires
        0 <= end < events.len(),
        forall|i: int| 0 <= i < end ==> passed_over(#[trigger] events[i], "person"@),
        events[end] is Ok,
        events[end]->Ok_0 is End,
    ensures
        person_from(events) == (Parsed {
            result: Ok(PersonView::absent()),
            consumed: (end + 1) as nat,
        }),
{
    lemma_person_orderly();
    lemma_childless_element(person_schema(), events, end, PersonView::absent());
}

/// A child that a `person` element may not hold is refused by name, whatever
/// well-formed content comes before it and whatever comes after it.
pub proof fn lemma_person_refuses_unknown_child(
    parts: Seq<Part>,
    name: Seq<char>,
    attributes: Seq<AttributeView>,
    more: Seq<Signal>,
)
    requires
        conforming(person_schema(), parts),
        person_child(name) is None,
        name != "person"@,
    ensures
        person_from(
            content_events(parts) + seq![Ok(EventView::Start { name, attributes })] + more,
        ) == (Parsed {
            result: Err::<PersonView, ParseErrorView>(ParseErrorView::DisallowedChild(name)),
            consumed: content_events(parts).len() + 1,
        }),
{
    lemma_person_orderly();
    lemma_unknown_child_refused(
        person_schema(),
        parts,
        name,
        attributes,
        more,
        PersonView::absent(),
    );
}

/// A `person` element that the stream cuts short is unterminated: where the
/// consumer accepts exactly the events `whole`, it fails on every proper
/// prefix of them for want of an end tag.
pub proof fn lemma_person_truncated(whole: Seq<Signal>, cut: int)
    requires
        person_from(whole).result is Ok,
        person_from(whole).consumed == whole.len(),
        0 <= cut < whole.len(),
    ensures
        person_from(whole.take(cut)) == (Parsed {
            result: unterminated::<PersonView>(),
            consumed: cut as nat,
        }),
{
    lemma_person_orderly();
    lemma_truncated_element(person_schema(), whole, cut, PersonView::absent());
}

/// After a `person` element its sibling is next: a successful consumer stops
/// right after an end tag, what follows the events that it read does not
/// change what it made of them, and what it leaves unread is what follows.
pub proof fn lemma_person_sibling_follows(first: Seq<Signal>, second: Seq<Signal>)
    requires
        person_from(first).result is Ok,
        person_from(first).consumed == first.len(),
    ensures
        first.len() >= 1,
        first.last() is Ok,
        first.last()->Ok_0 is End,
        person_from(first + second) == person_from(first),
        (first + second).skip(person_from(first + second).consumed as int) == second,
{
    lemma_person_orderly();
    lemma_element_stops_at_end_tag(person_schema(), first, PersonView::absent());
    lemma_sibling_follows(person_schema(), first, second, PersonView::absent());
}

} // verus!
