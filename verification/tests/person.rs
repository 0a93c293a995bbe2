use gpx::errors::ParseError;
use gpx::event::{Attribute, Event, StreamError};
use gpx::parser::email::Email;
use gpx::parser::link::Link;
use gpx::parser::person::{child_of, consume, from_document, Person, PersonChild};
use gpx::reader::XmlEvents;
use gpx::source::{EventSource, Lookahead, Replay};

fn start(name: &str) -> Result<Event, StreamError> {
    Ok(Event::Start { name: name.to_string(), attributes: Vec::new() })
}

fn start_with(name: &str, attributes: &[(&str, &str)]) -> Result<Event, StreamError> {
    Ok(Event::Start {
        name: name.to_string(),
        attributes: attributes
            .iter()
            .map(|(name, value)| Attribute { name: name.to_string(), value: value.to_string() })
            .collect(),
    })
}

fn end(name: &str) -> Result<Event, StreamError> {
    Ok(Event::End { name: name.to_string() })
}

fn text(content: &str) -> Result<Event, StreamError> {
    Ok(Event::Text(content.to_string()))
}

fn john() -> Person {
    Person {
        name: Some("John Doe".to_string()),
        email: Some(Email { id: "john.doe".to_string(), domain: "example.com".to_string() }),
        link: Some(Link {
            href: "example.com".to_string(),
            text: Some("hello world".to_string()),
            type_: Some("some type".to_string()),
        }),
    }
}

#[test]
fn consume_whole_person() {
    let document = "
                <person>
                    <name>John Doe</name>
                    <email id=\"john.doe\" domain=\"example.com\" />
                    <link href=\"example.com\">
                        <text>hello world</text>
                        <type>some type</type>
                    </link>
                </person>
                ";
    let mut source = Lookahead::new(XmlEvents::open(document.as_bytes()));
    let result = consume(&mut source);

    assert!(result.is_ok());
}

#[test]
fn whole_person_has_every_field() {
    let document = "<person><name>John Doe</name><email id=\"john.doe\" domain=\"example.com\"/><link href=\"example.com\"><text>hello world</text><type>some type</type></link></person>";
    let mut source = XmlEvents::open(document.as_bytes());
    assert_eq!(consume(&mut source), Ok(john()));
}

#[test]
fn whole_person_with_white_space_has_every_field() {
    let document = "
                <person>
                    <name>John Doe</name>
                    <email id=\"john.doe\" domain=\"example.com\" />
                    <link href=\"example.com\">
                        <text>hello world</text>
                        <type>some type</type>
                    </link>
                </person>
                ";
    let mut source = XmlEvents::open(document.as_bytes());
    assert_eq!(consume(&mut source), Ok(john()));
}

#[test]
fn children_may_come_in_any_order() {
    let document = "<person><link href=\"example.com\"><type>some type</type><text>hello world</text></link><name>John Doe</name><email domain=\"example.com\" id=\"john.doe\"/></person>";
    let mut source = XmlEvents::open(document.as_bytes());
    assert_eq!(consume(&mut source), Ok(john()));
}

#[test]
fn absent_children_leave_absent_fields() {
    let document = "<person><email id=\"jane\" domain=\"example.org\"/></person>";
    let mut source = XmlEvents::open(document.as_bytes());
    assert_eq!(
        consume(&mut source),
        Ok(Person {
            name: None,
            email: Some(Email { id: "jane".to_string(), domain: "example.org".to_string() }),
            link: None,
        })
    );
}

#[test]
fn person_without_children_is_empty() {
    let mut source = XmlEvents::open("<person></person>".as_bytes());
    assert_eq!(consume(&mut source), Ok(Person { name: None, email: None, link: None }));
}

#[test]
fn bodiless_person_is_empty() {
    let mut source = XmlEvents::open("<person/>".as_bytes());
    assert_eq!(consume(&mut source), Ok(Person::default()));
}

#[test]
fn default_person_has_no_field() {
    assert_eq!(Person::default(), Person { name: None, email: None, link: None });
}

#[test]
fn end_tag_alone_gives_empty_person() {
    let mut source = Replay::new(vec![end("person"), start("name")]);
    assert_eq!(consume(&mut source), Ok(Person::default()));
    assert_eq!(source.next(), Some(start("name")));
}

#[test]
fn filler_before_end_tag_gives_empty_person() {
    let mut source =
        Replay::new(vec![Ok(Event::Other), text("\n  "), start("person"), Ok(Event::Other), end("person")]);
    assert_eq!(consume(&mut source), Ok(Person::default()));
    assert_eq!(source.next(), None);
}

#[test]
fn bogus_child_is_disallowed() {
    let mut source = XmlEvents::open("<person><bogus/></person>".as_bytes());
    assert_eq!(consume(&mut source), Err(ParseError::DisallowedChild("bogus".to_string())));
}

#[test]
fn bogus_child_after_valid_children_is_disallowed() {
    let document = "<person><name>John</name><email id=\"a\" domain=\"b\"/><bogus/></person>";
    let mut source = XmlEvents::open(document.as_bytes());
    assert_eq!(consume(&mut source), Err(ParseError::DisallowedChild("bogus".to_string())));
}

#[test]
fn bogus_child_before_valid_children_is_disallowed() {
    let document = "<person><bogus>x</bogus><name>John</name></person>";
    let mut source = XmlEvents::open(document.as_bytes());
    assert_eq!(consume(&mut source), Err(ParseError::DisallowedChild("bogus".to_string())));
}

#[test]
fn bogus_child_stops_the_consumer_at_its_start_tag() {
    let mut source = Replay::new(vec![
        start("name"),
        text("John"),
        end("name"),
        start("bogus"),
        end("bogus"),
        end("person"),
    ]);
    assert_eq!(consume(&mut source), Err(ParseError::DisallowedChild("bogus".to_string())));
    assert_eq!(source.next(), Some(end("bogus")));
}

#[test]
fn bogus_grandchild_is_disallowed() {
    let document = "<person><link href=\"x\"><name>n</name></link></person>";
    let mut source = XmlEvents::open(document.as_bytes());
    assert_eq!(consume(&mut source), Err(ParseError::DisallowedChild("name".to_string())));
}

#[test]
fn stream_that_ends_before_the_end_tag_is_unterminated() {
    let mut source = Replay::new(vec![start("person"), start("name"), text("John"), end("name")]);
    assert_eq!(consume(&mut source), Err(ParseError::UnterminatedElement));
    assert_eq!(source.next(), None);
}

#[test]
fn empty_stream_is_unterminated() {
    let mut source = Replay::new(Vec::new());
    assert_eq!(consume(&mut source), Err(ParseError::UnterminatedElement));
}

#[test]
fn stream_that_ends_inside_a_child_is_unterminated() {
    let mut source = Replay::new(vec![start("link"), start("text"), text("hello")]);
    assert_eq!(consume(&mut source), Err(ParseError::UnterminatedElement));
}

#[test]
fn every_proper_prefix_of_an_element_is_unterminated() {
    let whole = vec![
        start("name"),
        text("John Doe"),
        end("name"),
        start_with("email", &[("id", "john.doe"), ("domain", "example.com")]),
        end("email"),
        start_with("link", &[("href", "example.com")]),
        start("text"),
        text("hello world"),
        end("text"),
        start("type"),
        text("some type"),
        end("type"),
        end("link"),
        end("person"),
    ];
    let mut source = Replay::new(whole.clone());
    assert_eq!(consume(&mut source), Ok(john()));
    for cut in 0..whole.len() {
        let mut source = Replay::new(whole[..cut].to_vec());
        assert_eq!(consume(&mut source), Err(ParseError::UnterminatedElement));
        assert_eq!(source.next(), None);
    }
}

#[test]
fn document_without_end_tag_is_reported_by_the_parser() {
    let mut source = XmlEvents::open("<person><name>John</name>".as_bytes());
    match consume(&mut source) {
        Err(ParseError::UpstreamStreamError { element, cause }) => {
            assert_eq!(element, "person");
            assert!(cause.message.contains("Unexpected end of stream"));
        },
        other => panic!("unexpected outcome: {:?}", other),
    }
}

#[test]
fn document_that_ends_without_a_person_end_tag_is_unterminated() {
    let mut source = XmlEvents::open("<name>John</name>".as_bytes());
    assert_eq!(consume(&mut source), Err(ParseError::UnterminatedElement));
}

#[test]
fn malformed_child_is_reported_with_its_element() {
    let mut source = XmlEvents::open("<person><name>John</nam></person>".as_bytes());
    match consume(&mut source) {
        Err(ParseError::UpstreamStreamError { element, cause }) => {
            assert_eq!(element, "name");
            assert!(!cause.message.is_empty());
        },
        other => panic!("unexpected outcome: {:?}", other),
    }
}

#[test]
fn fault_is_handed_on_unchanged() {
    let fault = StreamError { message: "1:7 broken".to_string() };
    let mut source = Replay::new(vec![start("name"), end("name"), Err(fault.clone()), end("person")]);
    assert_eq!(
        consume(&mut source),
        Err(ParseError::UpstreamStreamError { element: "person".to_string(), cause: fault })
    );
    assert_eq!(source.next(), Some(end("person")));
}

#[test]
fn consecutive_persons_are_read_one_after_the_other() {
    let document = "<people><person><name>Ann</name></person><person><name>Bob</name><email id=\"bob\" domain=\"example.com\"/></person></people>";
    let mut source = XmlEvents::open(document.as_bytes());
    assert_eq!(source.next(), Some(Ok(Event::Other)));
    assert_eq!(source.next(), Some(start("people")));
    assert_eq!(source.next(), Some(start("person")));
    assert_eq!(
        consume(&mut source),
        Ok(Person { name: Some("Ann".to_string()), email: None, link: None })
    );
    assert_eq!(source.next(), Some(start("person")));
    assert_eq!(
        consume(&mut source),
        Ok(Person {
            name: Some("Bob".to_string()),
            email: Some(Email { id: "bob".to_string(), domain: "example.com".to_string() }),
            link: None,
        })
    );
    assert_eq!(source.next(), Some(end("people")));
    assert_eq!(source.next(), Some(Ok(Event::Other)));
    assert_eq!(source.next(), None);
}

#[test]
fn consumer_leaves_the_sibling_unread() {
    let mut source = Replay::new(vec![
        start("name"),
        text("Ann"),
        end("name"),
        end("person"),
        start("person"),
        end("person"),
        text("tail"),
    ]);
    assert_eq!(
        consume(&mut source),
        Ok(Person { name: Some("Ann".to_string()), email: None, link: None })
    );
    assert_eq!(source.next(), Some(start("person")));
    assert_eq!(consume(&mut source), Ok(Person::default()));
    assert_eq!(source.next(), Some(text("tail")));
}

#[test]
fn repeated_start_tag_of_the_element_is_passed_over() {
    let mut source =
        Replay::new(vec![start("person"), start("person"), start("name"), text("x"), end("name"), end("person")]);
    assert_eq!(
        consume(&mut source),
        Ok(Person { name: Some("x".to_string()), email: None, link: None })
    );
    assert_eq!(source.next(), None);
}

#[test]
fn end_tag_is_taken_whatever_its_name() {
    let mut source = Replay::new(vec![start("name"), text("x"), end("other"), end("wrong"), end("person")]);
    assert_eq!(
        consume(&mut source),
        Ok(Person { name: Some("x".to_string()), email: None, link: None })
    );
    assert_eq!(source.next(), Some(end("person")));
}

#[test]
fn later_child_replaces_earlier_one() {
    let document = "<person><name>first</name><name>second</name></person>";
    let mut source = XmlEvents::open(document.as_bytes());
    assert_eq!(
        consume(&mut source),
        Ok(Person { name: Some("second".to_string()), email: None, link: None })
    );
}

#[test]
fn text_between_children_is_passed_over() {
    let document = "<person>stray<name>John</name>more</person>";
    let mut source = XmlEvents::open(document.as_bytes());
    assert_eq!(
        consume(&mut source),
        Ok(Person { name: Some("John".to_string()), email: None, link: None })
    );
}

#[test]
fn child_table_knows_three_names() {
    assert_eq!(child_of("name"), Some(PersonChild::Name));
    assert_eq!(child_of("email"), Some(PersonChild::Email));
    assert_eq!(child_of("link"), Some(PersonChild::Link));
    assert_eq!(child_of("person"), None);
    assert_eq!(child_of("bogus"), None);
    assert_eq!(child_of(""), None);
    assert_eq!(child_of("Name"), None);
}

#[test]
fn document_with_a_person_at_its_root_is_decoded() {
    let document = "<?xml version=\"1.0\" encoding=\"UTF-8\"?>\n<person><name>John Doe</name><email id=\"john.doe\" domain=\"example.com\"/><link href=\"example.com\"><text>hello world</text><type>some type</type></link></person>\n";
    assert_eq!(from_document(document.as_bytes()), Ok(john()));
}

#[test]
fn document_with_another_root_is_refused() {
    assert_eq!(
        from_document("<gpx><person/></gpx>".as_bytes()),
        Err(ParseError::DisallowedChild("gpx".to_string()))
    );
}

#[test]
fn malformed_document_is_reported_with_the_element() {
    match from_document("<person><name>John</name><email id=></person>".as_bytes()) {
        Err(ParseError::UpstreamStreamError { element, cause }) => {
            assert_eq!(element, "person");
            assert!(cause.message.starts_with("1:"));
        },
        other => panic!("unexpected outcome: {:?}", other),
    }
}
