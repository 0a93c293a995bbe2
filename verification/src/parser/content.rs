//! The content of an element as a document holds it, and what the element's
//! consumer is proved to make of it.

use vstd::prelude::*;
use crate::errors::ParseErrorView;
use crate::event::{AttributeView, EventView, Signal};
use crate::parser::element::{
    Schema, element_with, lemma_element_bounds, lemma_element_exhausted, lemma_element_local,
    unterminated,
};
use crate::parser::scan::{
    Parsed, StepView, lemma_scan_bounds, lemma_scan_stops_at_step, passed_over, reading, scan,
};

verus! {

/// One piece of what stands between the start tag and the end tag of an
/// element.
pub enum Part {
    /// A signal that the element's consumer reads past.
    Skipped(Signal),
    /// A run of character data.
    Text(Seq<char>),
    /// A child element: the name and the attributes of its start tag, and
    /// the events that follow that tag through the child's end tag.
    Child { name: Seq<char>, attributes: Seq<AttributeView>, inside: Seq<Signal> },
}

impl Part {
    /// The events of the piece, in document order.
    pub open spec fn events(self) -> Seq<Signal> {
        match self {
            Part::Skipped(signal) => seq![signal],
            Part::Text(content) => seq![Ok(EventView::Text(content))],
            Part::Child { name, attributes, inside } => seq![
                Ok(EventView::Start { name, attributes }),
            ] + inside,
        }
    }

    /// What the consumer of the child makes of the events inside it.
    pub open spec fn decoded<R, K, F>(self, schema: Schema<R, K, F>) -> Parsed<F>
        recommends
            self is Child,
            (schema.kind)(self->name) is Some,
    {
        (schema.decode)((schema.kind)(self->name)->0, self->name, self->attributes, self->inside)
    }

    /// Whether the piece may stand in an element of the schema: what is
    /// skipped is what the consumer reads past, and a child is one that the
    /// element may hold and whose consumer accepts exactly the events inside
    /// it.
    pub open spec fn conforms<R, K, F>(self, schema: Schema<R, K, F>) -> bool {
        match self {
            Part::Skipped(signal) => reading(signal, schema.tag) is None,
            Part::Text(_) => true,
            Part::Child { name, inside, .. } => {
                &&& (schema.kind)(name) is Some
                &&& self.decoded(schema).result is Ok
                &&& self.decoded(schema).consumed == inside.len()
            },
        }
    }

    /// The record `record` once the piece was read.
    pub open spec fn fill<R, K, F>(self, schema: Schema<R, K, F>, record: R) -> R {
        match self {
            Part::Skipped(_) => record,
            Part::Text(content) => (schema.gather)(record, content),
            Part::Child { name, .. } => if (schema.kind)(name) is Some && self.decoded(
                schema,
            ).result is Ok {
                (schema.store)(
                    record,
                    (schema.kind)(name)->0,
                    self.decoded(schema).result->Ok_0,
                )
            } else {
                record
            },
        }
    }
}

/// The events of the pieces, in document order.
pub open spec fn content_events(parts: Seq<Part>) -> Seq<Signal>
    decreases parts.len(),
{
    if parts.len() == 0 {
        Seq::empty()
    } else {
        parts[0].events() + content_events(parts.skip(1))
    }
}

/// Whether every piece may stand in an element of the schema.
pub open spec fn conforming<R, K, F>(schema: Schema<R, K, F>, parts: Seq<Part>) -> bool {
    forall|i: int| 0 <= i < parts.len() ==> (#[trigger] parts[i]).conforms(schema)
}

/// The record `record` once the pieces were read in order.
pub open spec fn assembled<R, K, F>(schema: Schema<R, K, F>, record: R, parts: Seq<Part>) -> R
    decreases parts.len(),
{
    if parts.len() == 0 {
        record
    } else {
        assembled(schema, parts[0].fill(schema, record), parts.skip(1))
    }
}

/// All but the first of conforming pieces conform.
proof fn lemma_conforming_rest<R, K, F>(schema: Schema<R, K, F>, parts: Seq<Part>)
    requires
        conforming(schema, parts),
        parts.len() > 0,
    ensures
        parts[0].conforms(schema),
        conforming(schema, parts.skip(1)),
{
    let later = parts.skip(1);
    assert forall|i: int| 0 <= i < later.len() implies (#[trigger] later[i]).conforms(schema) by {
        assert(later[i] == parts[i + 1]);
    }
}

/// A consumer reads one conforming piece and goes on with the record that
/// the piece fills: its outcome on the piece's events and whatever follows is
/// its outcome on what follows, reached that many events later.
pub proof fn lemma_element_reads_part<R, K, F>(
    schema: Schema<R, K, F>,
    part: Part,
    after: Seq<Signal>,
    record: R,
)
    requires
        schema.orderly(),
        part.conforms(schema),
    ensures
        element_with(schema, part.events() + after, record) == element_with(
            schema,
            after,
            part.fill(schema, record),
        ).after(part.events().len()),
{
    let events = part.events() + after;
    assert(events[0] == part.events()[0]);
    match part {
        Part::Skipped(signal) => {
            let step = scan(after, schema.tag);
            lemma_scan_bounds(after, schema.tag);
            assert(events.skip(1) == after);
            assert(scan(events, schema.tag) == step.after(1));
            assert(events.skip(step.consumed + 1 as int) == after.skip(step.consumed as int));
            match step.result {
                Ok(StepView::Child { name, attributes }) => {
                    if let Some(kind) = (schema.kind)(name) {
                        let rest = after.skip(step.consumed as int);
                        let inner = (schema.decode)(kind, name, attributes, rest);
                        assert(events.skip(step.consumed + 1 as int).skip(inner.consumed as int)
                            == rest.skip(inner.consumed as int));
                    }
                },
                _ => {},
            }
        },
        Part::Text(content) => {
            assert(events.skip(1) == after);
        },
        Part::Child { name, attributes, inside } => {
            let kind = (schema.kind)(name)->0;
            let rest = inside + after;
            assert(scan(events, schema.tag) == Parsed {
                result: Ok(StepView::Child { name, attributes }),
                consumed: 1,
            });
            assert(events.skip(1) == rest);
            assert((schema.decode)(kind, name, attributes, rest) == (schema.decode)(
                kind,
                name,
                attributes,
                inside,
            ));
            assert(rest.skip(inside.len() as int) == after);
        },
    }
}

/// Well-formed content is decoded to the record of its pieces.
///
/// Let the unread events be the pieces `parts`, each of which may stand in
/// an element of the schema, then an end tag, then anything. The consumer
/// succeeds, reads through that end tag and no further, and returns `record`
/// with the pieces read into it in order. The children may come in any
/// order.
pub proof fn lemma_wellformed_element<R, K, F>(
    schema: Schema<R, K, F>,
    parts: Seq<Part>,
    close: Seq<char>,
    more: Seq<Signal>,
    record: R,
)
    requires
        schema.orderly(),
        conforming(schema, parts),
    ensures
        element_with(
            schema,
            content_events(parts) + seq![Ok(EventView::End { name: close })] + more,
            record,
        ) == (Parsed {
            result: Ok(assembled(schema, record, parts)),
            consumed: content_events(parts).len() + 1,
        }),
    decreases parts.len(),
{
    let end: Signal = Ok(EventView::End { name: close });
    let events = content_events(parts) + seq![end] + more;
    if parts.len() == 0 {
        assert(events[0] == end);
        assert(scan(events, schema.tag) == Parsed { result: Ok(StepView::Close), consumed: 1 });
    } else {
        let after = content_events(parts.skip(1)) + seq![end] + more;
        lemma_conforming_rest(schema, parts);
        assert(events == parts[0].events() + after);
        lemma_element_reads_part(schema, parts[0], after, record);
        lemma_wellformed_element(schema, parts.skip(1), close, more, parts[0].fill(schema, record));
    }
}

/// An element without children is decoded to the record that it started
/// from: where only what the consumer passes over comes before the end tag
/// at `end`, the consumer succeeds and reads through that end tag.
pub proof fn lemma_childless_element<R, K, F>(
    schema: Schema<R, K, F>,
    events: Seq<Signal>,
    end: int,
    record: R,
)
    requires
        schema.bounded(),
        schema.passes_text(),
        0 <= end < events.len(),
        forall|i: int| 0 <= i < end ==> passed_over(#[trigger] events[i], schema.tag),
        events[end] is Ok,
        events[end]->Ok_0 is End,
    ensures
        element_with(schema, events, record) == (Parsed {
            result: Ok(record),
            consumed: (end + 1) as nat,
        }),
    decreases end,
{
    if end == 0 {
        assert(scan(events, schema.tag) == Parsed { result: Ok(StepView::Close), consumed: 1 });
    } else {
        let later = events.skip(1);
        let step = scan(later, schema.tag);
        assert(passed_over(events[0], schema.tag));
        assert forall|i: int| 0 <= i < end - 1 implies passed_over(
            #[trigger] later[i],
            schema.tag,
        ) by {
            assert(later[i] == events[i + 1]);
        }
        lemma_childless_element(schema, later, end - 1, record);
        lemma_scan_bounds(later, schema.tag);
        if reading(events[0], schema.tag) is None {
            assert(scan(events, schema.tag) == step.after(1));
            assert(events.skip(step.consumed + 1 as int) == later.skip(step.consumed as int));
            match step.result {
                Ok(StepView::Child { name, attributes }) => {
                    if let Some(kind) = (schema.kind)(name) {
                        let rest = later.skip(step.consumed as int);
                        let inner = (schema.decode)(kind, name, attributes, rest);
                        assert(events.skip(step.consumed + 1 as int).skip(inner.consumed as int)
                            == rest.skip(inner.consumed as int));
                    }
                },
                _ => {},
            }
        }
    }
}

/// A child that the element may not hold is refused by name, whatever
/// well-formed content comes before it and whatever comes after it.
pub proof fn lemma_unknown_child_refused<R, K, F>(
    schema: Schema<R, K, F>,
    parts: Seq<Part>,
    name: Seq<char>,
    attributes: Seq<AttributeView>,
    more: Seq<Signal>,
    record: R,
)
    requires
        schema.orderly(),
        conforming(schema, parts),
        (schema.kind)(name) is None,
        name != schema.tag,
    ensures
        element_with(
            schema,
            content_events(parts) + seq![Ok(EventView::Start { name, attributes })] + more,
            record,
        ) == (Parsed {
            result: Err::<R, ParseErrorView>(ParseErrorView::DisallowedChild(name)),
            consumed: content_events(parts).len() + 1,
        }),
    decreases parts.len(),
{
    let start: Signal = Ok(EventView::Start { name, attributes });
    let events = content_events(parts) + seq![start] + more;
    if parts.len() == 0 {
        assert(events[0] == start);
        assert(scan(events, schema.tag) == Parsed {
            result: Ok(StepView::Child { name, attributes }),
            consumed: 1,
        });
    } else {
        let after = content_events(parts.skip(1)) + seq![start] + more;
        lemma_conforming_rest(schema, parts);
        assert(events == parts[0].events() + after);
        lemma_element_reads_part(schema, parts[0], after, record);
        lemma_unknown_child_refused(
            schema,
            parts.skip(1),
            name,
            attributes,
            more,
            parts[0].fill(schema, record),
        );
    }
}

/// An element that the stream cuts short is unterminated: where the consumer
/// accepts exactly the events `whole`, it fails on every proper prefix of
/// them for want of an end tag, having read that prefix to its end.
pub proof fn lemma_truncated_element<R, K, F>(
    schema: Schema<R, K, F>,
    whole: Seq<Signal>,
    cut: int,
    record: R,
)
    requires
        schema.orderly(),
        element_with(schema, whole, record).result is Ok,
        element_with(schema, whole, record).consumed == whole.len(),
        0 <= cut < whole.len(),
    ensures
        element_with(schema, whole.take(cut), record) == (Parsed {
            result: unterminated::<R>(),
            consumed: cut as nat,
        }),
{
    let head = whole.take(cut);
    let more = whole.skip(cut);
    assert(head + more == whole);
    lemma_element_bounds(schema, head, record);
    if element_with(schema, head, record).result != unterminated::<R>() {
        lemma_element_local(schema, head, more, record);
    }
    lemma_element_exhausted(schema, head, record);
}

/// A successful consumer stops right after an end tag: the last event that
/// it reads is one.
pub proof fn lemma_element_stops_at_end_tag<R, K, F>(
    schema: Schema<R, K, F>,
    events: Seq<Signal>,
    record: R,
)
    requires
        schema.bounded(),
        element_with(schema, events, record).result is Ok,
    ensures
        1 <= element_with(schema, events, record).consumed <= events.len(),
        events[element_with(schema, events, record).consumed - 1] is Ok,
        events[element_with(schema, events, record).consumed - 1]->Ok_0 is End,
    decreases events.len(),
{
    let step = scan(events, schema.tag);
    let rest = events.skip(step.consumed as int);
    lemma_scan_bounds(events, schema.tag);
    lemma_element_bounds(schema, events, record);
    match step.result {
        Ok(StepView::Close) => {
            lemma_scan_stops_at_step(events, schema.tag);
        },
        Ok(StepView::Text(content)) => {
            lemma_element_stops_at_end_tag(schema, rest, (schema.gather)(record, content));
        },
        Ok(StepView::Child { name, attributes }) => {
            let kind = (schema.kind)(name)->0;
            let inner = (schema.decode)(kind, name, attributes, rest);
            lemma_element_stops_at_end_tag(
                schema,
                rest.skip(inner.consumed as int),
                (schema.store)(record, kind, inner.result->Ok_0),
            );
        },
        _ => {},
    }
}

/// Consecutive elements are decoded one after the other: where the consumer
/// accepts exactly the events `first`, it makes the same of them when
/// `second` follows, and what it leaves unread is `second`, from its first
/// event on.
pub proof fn lemma_sibling_follows<R, K, F>(
    schema: Schema<R, K, F>,
    first: Seq<Signal>,
    second: Seq<Signal>,
    record: R,
)
    requires
        schema.orderly(),
        element_with(schema, first, record).result is Ok,
        element_with(schema, first, record).consumed == first.len(),
    ensures
        element_with(schema, first + second, record) == element_with(schema, first, record),
        (first + second).skip(element_with(schema, first + second, record).consumed as int)
            == second,
{
    lemma_element_local(schema, first, second, record);
}

} // verus!
