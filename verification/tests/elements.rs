use gpx::errors::ParseError;
use gpx::event::{find_attribute, required_attribute, Attribute, Event, StreamError};
use gpx::parser::email::Email;
use gpx::parser::link::{Link, LinkChild};
use gpx::parser::scan::{advance, Step};
use gpx::reader::XmlEvents;
use gpx::source::{EventSource, Replay};
use gpx::text::same_text;

fn attribute(name: &str, value: &str) -> Attribute {
    Attribute { name: name.to_string(), value: value.to_string() }
}

fn opened(name: &str) -> Result<Event, StreamError> {
    Ok(Event::Start { name: name.to_string(), attributes: Vec::new() })
}

fn closed(name: &str) -> Result<Event, StreamError> {
    Ok(Event::End { name: name.to_string() })
}

fn chars(content: &str) -> Result<Event, StreamError> {
    Ok(Event::Text(content.to_string()))
}

#[test]
fn same_text_compares_characters() {
    assert!(same_text("person", "person"));
    assert!(same_text("", ""));
    assert!(!same_text("person", "persons"));
    assert!(!same_text("name", "link"));
    assert!(!same_text("name", "Name"));
    assert!(same_text("stra\u{df}e", "stra\u{df}e"));
    assert!(!same_text("stra\u{df}e", "strasse"));
}

#[test]
fn find_attribute_takes_the_first_of_a_name() {
    let attributes = vec![attribute("id", "a"), attribute("domain", "b"), attribute("id", "c")];
    assert_eq!(find_attribute(&attributes, "id"), Some("a".to_string()));
    assert_eq!(find_attribute(&attributes, "domain"), Some("b".to_string()));
    assert_eq!(find_attribute(&attributes, "href"), None);
    assert_eq!(find_attribute(&Vec::new(), "id"), None);
}

#[test]
fn required_attribute_is_empty_when_missing() {
    let attributes = vec![attribute("href", "example.com")];
    assert_eq!(required_attribute(&attributes, "href"), "example.com");
    assert_eq!(required_attribute(&attributes, "id"), "");
}

#[test]
fn advance_skips_what_has_no_meaning() {
    let mut source = Replay::new(vec![Ok(Event::Other), opened("link"), Ok(Event::Other), chars("x"), closed("link")]);
    assert_eq!(advance(&mut source, "link"), Ok(Step::Text("x".to_string())));
    assert_eq!(advance(&mut source, "link"), Ok(Step::Close));
    assert_eq!(advance(&mut source, "link"), Err(ParseError::UnterminatedElement));
}

#[test]
fn advance_hands_out_a_child_with_its_attributes() {
    let start = Event::Start { name: "email".to_string(), attributes: vec![attribute("id", "a")] };
    let mut source = Replay::new(vec![Ok(start), closed("email")]);
    assert_eq!(
        advance(&mut source, "person"),
        Ok(Step::Child { name: "email".to_string(), attributes: vec![attribute("id", "a")] })
    );
    assert_eq!(source.next(), Some(closed("email")));
}

#[test]
fn advance_reports_a_fault_with_the_element() {
    let fault = StreamError { message: "2:1 bad".to_string() };
    let mut source = Replay::new(vec![Ok(Event::Other), Err(fault.clone()), closed("link")]);
    assert_eq!(
        advance(&mut source, "link"),
        Err(ParseError::UpstreamStreamError { element: "link".to_string(), cause: fault })
    );
    assert_eq!(source.next(), Some(closed("link")));
}

#[test]
fn text_element_gives_its_text() {
    let mut source = XmlEvents::open("<name>John Doe</name>".as_bytes());
    assert_eq!(gpx::parser::string::consume(&mut source, "name"), Ok("John Doe".to_string()));
}

#[test]
fn empty_text_element_gives_empty_text() {
    let mut source = XmlEvents::open("<name></name>".as_bytes());
    assert_eq!(gpx::parser::string::consume(&mut source, "name"), Ok(String::new()));
}

#[test]
fn text_element_appends_its_runs_of_text() {
    let mut source = Replay::new(vec![chars("John"), Ok(Event::Other), chars(" Doe"), closed("name"), chars("x")]);
    assert_eq!(gpx::parser::string::consume(&mut source, "name"), Ok("John Doe".to_string()));
    assert_eq!(source.next(), Some(chars("x")));
}

#[test]
fn text_element_unescapes_references() {
    let mut source = XmlEvents::open("<name>a &amp; b</name>".as_bytes());
    assert_eq!(gpx::parser::string::consume(&mut source, "name"), Ok("a & b".to_string()));
}

#[test]
fn text_element_refuses_a_child() {
    let mut source = XmlEvents::open("<name>John <b>Doe</b></name>".as_bytes());
    assert_eq!(
        gpx::parser::string::consume(&mut source, "name"),
        Err(ParseError::DisallowedChild("b".to_string()))
    );
}

#[test]
fn text_element_without_end_tag_is_unterminated() {
    let mut source = Replay::new(vec![chars("John")]);
    assert_eq!(
        gpx::parser::string::consume(&mut source, "name"),
        Err(ParseError::UnterminatedElement)
    );
}

#[test]
fn email_is_read_from_its_attributes() {
    let document = "<email id=\"john.doe\" domain=\"example.com\"/>";
    let mut source = XmlEvents::open(document.as_bytes());
    assert_eq!(source.next(), Some(Ok(Event::Other)));
    let attributes = match source.next() {
        Some(Ok(Event::Start { name, attributes })) => {
            assert_eq!(name, "email");
            attributes
        },
        other => panic!("unexpected item: {:?}", other),
    };
    assert_eq!(
        gpx::parser::email::consume(&mut source, &attributes),
        Ok(Email { id: "john.doe".to_string(), domain: "example.com".to_string() })
    );
    assert_eq!(source.next(), Some(Ok(Event::Other)));
    assert_eq!(source.next(), None);
}

#[test]
fn email_without_attributes_has_empty_parts() {
    let mut source = Replay::new(vec![closed("email")]);
    assert_eq!(
        gpx::parser::email::consume(&mut source, &Vec::new()),
        Ok(Email { id: String::new(), domain: String::new() })
    );
}

#[test]
fn email_refuses_a_child() {
    let mut source = Replay::new(vec![opened("name"), closed("name"), closed("email")]);
    assert_eq!(
        gpx::parser::email::consume(&mut source, &Vec::new()),
        Err(ParseError::DisallowedChild("name".to_string()))
    );
}

#[test]
fn email_without_end_tag_is_unterminated() {
    let mut source = Replay::new(vec![chars(" "), Ok(Event::Other)]);
    assert_eq!(
        gpx::parser::email::consume(&mut source, &Vec::new()),
        Err(ParseError::UnterminatedElement)
    );
}

#[test]
fn link_is_read_with_its_children() {
    let mut source = Replay::new(vec![
        opened("text"),
        chars("hello world"),
        closed("text"),
        opened("type"),
        chars("some type"),
        closed("type"),
        closed("link"),
    ]);
    assert_eq!(
        gpx::parser::link::consume(&mut source, &vec![attribute("href", "example.com")]),
        Ok(Link {
            href: "example.com".to_string(),
            text: Some("hello world".to_string()),
            type_: Some("some type".to_string()),
        })
    );
    assert_eq!(source.next(), None);
}

#[test]
fn link_without_children_has_only_its_target() {
    let mut source = Replay::new(vec![closed("link")]);
    assert_eq!(
        gpx::parser::link::consume(&mut source, &vec![attribute("href", "example.com")]),
        Ok(Link { href: "example.com".to_string(), text: None, type_: None })
    );
}

#[test]
fn link_refuses_a_child_that_is_not_its_own() {
    let mut source = Replay::new(vec![opened("text"), closed("text"), opened("href"), closed("href")]);
    assert_eq!(
        gpx::parser::link::consume(&mut source, &Vec::new()),
        Err(ParseError::DisallowedChild("href".to_string()))
    );
}

#[test]
fn link_child_table_knows_two_names() {
    assert_eq!(gpx::parser::link::child_of("text"), Some(LinkChild::Text));
    assert_eq!(gpx::parser::link::child_of("type"), Some(LinkChild::Type));
    assert_eq!(gpx::parser::link::child_of("link"), None);
    assert_eq!(gpx::parser::link::child_of("name"), None);
}

#[test]
fn text_element_joins_text_and_cdata() {
    let mut source = XmlEvents::open("<name>John <![CDATA[Doe]]></name>".as_bytes());
    assert_eq!(source.next(), Some(Ok(Event::Other)));
    assert_eq!(source.next(), Some(opened("name")));
    assert_eq!(gpx::parser::string::consume(&mut source, "name"), Ok("John Doe".to_string()));
}
