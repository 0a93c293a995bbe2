//! Consumer for an element whose value is its text.

use vstd::prelude::*;
use vstd::string::StringExecFns;
use crate::errors::{ParseError, outcome_view};
use crate::event::Signal;
use crate::parser::element::{Schema, element_with, lemma_leaf_orderly};
use crate::parser::scan::{Parsed, Step, advance, lemma_scan_bounds, scan};
use crate::source::EventSource;

verus! {

/// How a text element called `tag` is decoded: it may hold no child, and
/// every run of character data up to its end tag is appended to what was
/// gathered before.
pub open spec fn text_schema(tag: Seq<char>) -> Schema<Seq<char>, (), ()> {
    Schema::leaf(tag, |gathered: Seq<char>, content: Seq<char>| gathered + content)
}

/// What a consumer of the text element `tag` makes of `events`, entered
/// right after the element's start tag.
pub open spec fn text_from(events: Seq<Signal>, tag: Seq<char>) -> Parsed<Seq<char>> {
    element_with(text_schema(tag), events, Seq::empty())
}

/// A text element has no child that could misbehave.
pub proof fn lemma_text_orderly(tag: Seq<char>)
    ensures
        text_schema(tag).orderly(),
{
    lemma_leaf_orderly(tag, |gathered: Seq<char>, content: Seq<char>| gathered + content);
}

/// Reads the text element `tag` through its end tag and returns its text.
pub fn consume<S: EventSource>(source: &mut S, tag: &str) -> (result: Result<String, ParseError>)
    ensures
        outcome_view(result) == text_from(old(source).remaining(), tag@).result,
        final(source).remaining() == old(source).remaining().skip(
            text_from(old(source).remaining(), tag@).consumed as int,
        ),
{
    let ghost unread = source.remaining();
    let ghost mut read: nat = 0;
    let mut gathered = String::new();
    loop
        invariant
            unread == old(source).remaining(),
            read <= unread.len(),
            source.remaining() == unread.skip(read as int),
            text_from(unread, tag@) == element_with(
                text_schema(tag@),
                unread.skip(read as int),
                gathered@,
            ).after(read),
        decreases unread.len() - read,
    {
        let ghost here = source.remaining();
        proof {
            lemma_scan_bounds(here, tag@);
        }
        match advance(source, tag) {
            Err(error) => {
                return Err(error);
            },
            Ok(Step::Close) => {
                return Ok(gathered);
            },
            Ok(Step::Text(content)) => {
                gathered.append(content.as_str());
            },
            Ok(Step::Child { name, .. }) => {
                return Err(ParseError::DisallowedChild(name));
            },
        }
        proof {
            let step = scan(here, tag@);
            assert(here.skip(step.consumed as int) == unread.skip(read + step.consumed as int));
            read = read + step.consumed;
        }
    }
}

} // verus!
