//! The step that every consumer repeats: read up to the next event that
//! matters to the element being decoded.

use vstd::prelude::*;
use vstd::string::StringExecFns;
use crate::errors::{ParseError, ParseErrorView, outcome_view};
use crate::event::{Attribute, AttributeView, Event, EventView, Signal};
use crate::source::EventSource;
use crate::text::same_text;

verus! {

/// What a consumer computes from a list of unread events: the value it
/// returns, and how many events it reads to do so.
pub struct Parsed<T> {
    pub result: Result<T, ParseErrorView>,
    pub consumed: nat,
}

impl<T> Parsed<T> {
    /// The outcome with the value that was returned, if one was, turned into
    /// another by `wrap`.
    pub open spec fn map<U>(self, wrap: spec_fn(T) -> U) -> Parsed<U> {
        Parsed {
            result: match self.result {
                Ok(value) => Ok(wrap(value)),
                Err(error) => Err(error),
            },
            consumed: self.consumed,
        }
    }

    /// The same outcome, reached after `count` more events were read first.
    pub open spec fn after(self, count: nat) -> Parsed<T> {
        Parsed { result: self.result, consumed: self.consumed + count }
    }
}

/// An event that matters to the element being decoded.
#[derive(Debug, Clone, PartialEq, Eq)]
pub enum Step {
    /// The start tag of a child element.
    Child { name: String, attributes: Vec<Attribute> },
    /// Character data directly inside the element.
    Text(String),
    /// The end tag that closes the element.
    Close,
}

/// What a [`Step`] stands for in contracts.
pub enum StepView {
    Child { name: Seq<char>, attributes: Seq<AttributeView> },
    Text(Seq<char>),
    Close,
}

impl View for Step {
    type V = StepView;

    open spec fn view(&self) -> StepView {
        match *self {
            Step::Child { name, attributes } => StepView::Child {
                name: name@,
                attributes: attributes.deep_view(),
            },
            Step::Text(content) => StepView::Text(content@),
            Step::Close => StepView::Close,
        }
    }
}

/// How a consumer of the element `tag` reads one signal. `None` stands for
/// a signal that it reads past without acting on it: an event of no
/// structural meaning, or a start tag that repeats the element's own name.
pub open spec fn reading(signal: Signal, tag: Seq<char>) -> Option<Result<StepView, ParseErrorView>> {
    match signal {
        Ok(EventView::Other) => None,
        Ok(EventView::Start { name, attributes }) => if name == tag {
            None
        } else {
            Some(Ok(StepView::Child { name, attributes }))
        },
        Ok(EventView::Text(content)) => Some(Ok(StepView::Text(content))),
        Ok(EventView::End { .. }) => Some(Ok(StepView::Close)),
        Err(cause) => Some(Err(ParseErrorView::UpstreamStreamError { element: tag, cause })),
    }
}

/// The next step of a consumer of the element `tag` on `events`: the first
/// signal that it does not read past decides, and a stream that ends before
/// one comes leaves the element unterminated.
pub open spec fn scan(events: Seq<Signal>, tag: Seq<char>) -> Parsed<StepView>
    decreases events.len(),
{
    if events.len() == 0 {
        Parsed { result: Err(ParseErrorView::UnterminatedElement), consumed: 0 }
    } else {
        match reading(events[0], tag) {
            None => scan(events.skip(1), tag).after(1),
            Some(result) => Parsed { result, consumed: 1 },
        }
    }
}

/// A scan reads no more than there is, and a scan that finds a step has read
/// at least that step.
pub proof fn lemma_scan_bounds(events: Seq<Signal>, tag: Seq<char>)
    ensures
        scan(events, tag).consumed <= events.len(),
        scan(events, tag).result is Ok ==> scan(events, tag).consumed >= 1,
    decreases events.len(),
{
    if events.len() > 0 && reading(events[0], tag) is None {
        lemma_scan_bounds(events.skip(1), tag);
    }
}

/// Only a stream that ends too early leaves a scan without a step, and such
/// a scan has read the whole stream.
pub proof fn lemma_scan_exhausted(events: Seq<Signal>, tag: Seq<char>)
    requires
        scan(events, tag).result == Err::<StepView, ParseErrorView>(
            ParseErrorView::UnterminatedElement,
        ),
    ensures
        scan(events, tag).consumed == events.len(),
    decreases events.len(),
{
    if events.len() > 0 && reading(events[0], tag) is None {
        lemma_scan_exhausted(events.skip(1), tag);
    }
}

/// A scan does not look past what it reads: unless the stream ended too
/// early, whatever follows the events leaves the scan as it is.
pub proof fn lemma_scan_local(events: Seq<Signal>, more: Seq<Signal>, tag: Seq<char>)
    requires
        scan(events, tag).result != Err::<StepView, ParseErrorView>(
            ParseErrorView::UnterminatedElement,
        ),
    ensures
        scan(events + more, tag) == scan(events, tag),
    decreases events.len(),
{
    if events.len() > 0 {
        assert((events + more)[0] == events[0]);
        if reading(events[0], tag) is None {
            assert((events + more).skip(1) == events.skip(1) + more);
            lemma_scan_local(events.skip(1), more, tag);
        }
    }
}

/// The step that a scan finds is read off the last event that it reads.
pub proof fn lemma_scan_stops_at_step(events: Seq<Signal>, tag: Seq<char>)
    requires
        scan(events, tag).result is Ok,
    ensures
        1 <= scan(events, tag).consumed <= events.len(),
        reading(events[scan(events, tag).consumed - 1], tag) == Some(scan(events, tag).result),
    decreases events.len(),
{
    if events.len() > 0 && reading(events[0], tag) is None {
        lemma_scan_stops_at_step(events.skip(1), tag);
    }
}

/// Whether a consumer of the element `tag` that gathers no text reads past
/// `signal`: it is character data, or it has no structural meaning, or it is
/// a start tag that repeats the element's own name.
pub open spec fn passed_over(signal: Signal, tag: Seq<char>) -> bool {
    match reading(signal, tag) {
        None => true,
        Some(Ok(StepView::Text(_))) => true,
        _ => false,
    }
}

/// Reads `source` up to and including the next event that matters to the
/// element `tag`.
pub fn advance<S: EventSource>(source: &mut S, tag: &str) -> (outcome: Result<Step, ParseError>)
    ensures
        outcome_view(outcome) == scan(old(source).remaining(), tag@).result,
        final(source).remaining() == old(source).remaining().skip(
            scan(old(source).remaining(), tag@).consumed as int,
        ),
{
    let ghost unread = source.remaining();
    let ghost mut skipped: nat = 0;
    loop
        invariant
            unread == old(source).remaining(),
            skipped <= unread.len(),
            source.remaining() == unread.skip(skipped as int),
            scan(unread, tag@) == scan(unread.skip(skipped as int), tag@).after(skipped),
        decreases unread.len() - skipped,
    {
        let ghost here = source.remaining();
        match source.next() {
            None => {
                return Err(ParseError::UnterminatedElement);
            },
            Some(Err(cause)) => {
                return Err(
                    ParseError::UpstreamStreamError { element: String::from_str(tag), cause },
                );
            },
            Some(Ok(Event::Start { name, attributes })) => {
                if !same_text(name.as_str(), tag) {
                    return Ok(Step::Child { name, attributes });
                }
            },
            Some(Ok(Event::End { .. })) => {
                return Ok(Step::Close);
            },
            Some(Ok(Event::Text(content))) => {
                return Ok(Step::Text(content));
            },
            Some(Ok(Event::Other)) => {},
        }
        proof {
            assert(reading(here[0], tag@) is None);
            assert(here.skip(1) == unread.skip(skipped + 1 as int));
            skipped = skipped + 1;
        }
    }
}

} // verus!
