//! What every consumer has in common: how an element is decoded from the
//! events after its start tag, given the children that it may hold.

use vstd::prelude::*;
use crate::errors::ParseErrorView;
use crate::event::{AttributeView, Signal};
use crate::parser::scan::{
    Parsed, StepView, lemma_scan_bounds, lemma_scan_exhausted, lemma_scan_local, scan,
};

verus! {

/// The outcome that stands for a stream that ended too early.
pub open spec fn unterminated<T>() -> Result<T, ParseErrorView> {
    Err(ParseErrorView::UnterminatedElement)
}

/// How one kind of element is decoded into a record of type `R`. Its
/// children are told apart by a kind of type `K`, and each is decoded to a
/// field of type `F`.
#[verifier::reject_recursive_types(R)]
#[verifier::reject_recursive_types(K)]
#[verifier::reject_recursive_types(F)]
pub struct Schema<R, K, F> {
    /// The element's own name.
    pub tag: Seq<char>,
    /// The child that a start tag of a given name opens, if the element may
    /// hold one of that name.
    pub kind: spec_fn(Seq<char>) -> Option<K>,
    /// What the consumer of a child makes of the events after the child's
    /// start tag, given the name and the attributes of that tag.
    pub decode: spec_fn(K, Seq<char>, Seq<AttributeView>, Seq<Signal>) -> Parsed<F>,
    /// The record once a child was decoded to a field.
    pub store: spec_fn(R, K, F) -> R,
    /// The record once a run of character data was read.
    pub gather: spec_fn(R, Seq<char>) -> R,
}

impl<R> Schema<R, (), ()> {
    /// The schema of an element called `tag` that may hold no child. No
    /// name opens a child, so nothing is ever decoded or stored.
    pub open spec fn leaf(tag: Seq<char>, gather: spec_fn(R, Seq<char>) -> R) -> Schema<R, (), ()> {
        Schema {
            tag,
            kind: |name: Seq<char>| None::<()>,
            decode: |kind: (), name: Seq<char>, attributes: Seq<AttributeView>, events: Seq<Signal>|
                Parsed { result: unterminated::<()>(), consumed: events.len() },
            store: |record: R, kind: (), field: ()| record,
            gather,
        }
    }
}

/// An element that may hold no child has no child that could misbehave.
pub proof fn lemma_leaf_orderly<R>(tag: Seq<char>, gather: spec_fn(R, Seq<char>) -> R)
    ensures
        Schema::leaf(tag, gather).orderly(),
{
}

impl<R, K, F> Schema<R, K, F> {
    /// Whether the consumers of the children read no more than there is.
    pub open spec fn bounded(self) -> bool {
        forall|kind: K, name: Seq<char>, attributes: Seq<AttributeView>, events: Seq<Signal>|
            (#[trigger] (self.decode)(kind, name, attributes, events)).consumed <= events.len()
    }

    /// Whether character data directly inside the element leaves the record
    /// as it is.
    pub open spec fn passes_text(self) -> bool {
        forall|record: R, content: Seq<char>| #[trigger] (self.gather)(record, content) == record
    }

    /// Whether the schema describes an element as they are: its own name
    /// opens no child, and the consumers of its children behave as consumers
    /// do. Each reads no more than there is, fails for want of an end tag
    /// only after it has read the whole stream, and otherwise does not look
    /// past what it reads.
    pub open spec fn orderly(self) -> bool {
        &&& (self.kind)(self.tag) is None
        &&& self.bounded()
        &&& forall|kind: K, name: Seq<char>, attributes: Seq<AttributeView>, events: Seq<Signal>|
            (#[trigger] (self.decode)(kind, name, attributes, events)).result == unterminated::<F>()
                ==> (self.decode)(kind, name, attributes, events).consumed == events.len()
        &&& forall|
            kind: K,
            name: Seq<char>,
            attributes: Seq<AttributeView>,
            events: Seq<Signal>,
            more: Seq<Signal>,
        |
            (self.decode)(kind, name, attributes, events).result != unterminated::<F>() ==> (
            #[trigger] (self.decode)(kind, name, attributes, events + more)) == (self.decode)(
                kind,
                name,
                attributes,
                events,
            )
    }
}

/// What a consumer makes of `events` once it holds `record`.
///
/// It reads up to the next event that matters. An end tag returns the
/// record. Character data is gathered into it. The start tag of a child that
/// the element may hold hands the stream to the child's consumer, whose
/// result is stored and whose failure is the failure of the whole; the start
/// tag of any other child is refused by name. A fault of the source is
/// reported with the element's name, and a stream that ends first leaves the
/// element unterminated.
///
/// The consumer of a child reads no more than there is (see
/// [`Schema::bounded`]). The definition is total all the same: after a child
/// said to have read more, nothing is left and the element is unterminated.
pub open spec fn element_with<R, K, F>(
    schema: Schema<R, K, F>,
    events: Seq<Signal>,
    record: R,
) -> Parsed<R>
    decreases events.len(),
{
    let step = scan(events, schema.tag);
    let rest = events.skip(step.consumed as int);
    match step.result {
        Err(error) => Parsed { result: Err(error), consumed: step.consumed },
        Ok(StepView::Close) => Parsed { result: Ok(record), consumed: step.consumed },
        Ok(StepView::Text(content)) => {
            proof {
                lemma_scan_bounds(events, schema.tag);
            }
            element_with(schema, rest, (schema.gather)(record, content)).after(step.consumed)
        },
        Ok(StepView::Child { name, attributes }) => match (schema.kind)(name) {
            None => Parsed {
                result: Err(ParseErrorView::DisallowedChild(name)),
                consumed: step.consumed,
            },
            Some(kind) => {
                let inner = (schema.decode)(kind, name, attributes, rest);
                match inner.result {
                    Err(error) => Parsed {
                        result: Err(error),
                        consumed: step.consumed + inner.consumed,
                    },
                    Ok(field) => if inner.consumed <= rest.len() {
                        proof {
                            lemma_scan_bounds(events, schema.tag);
                        }
                        element_with(
                            schema,
                            rest.skip(inner.consumed as int),
                            (schema.store)(record, kind, field),
                        ).after(step.consumed + inner.consumed)
                    } else {
                        Parsed { result: unterminated(), consumed: events.len() }
                    },
                }
            },
        },
    }
}

/// A consumer reads no more than there is.
pub proof fn lemma_element_bounds<R, K, F>(
    schema: Schema<R, K, F>,
    events: Seq<Signal>,
    record: R,
)
    requires
        schema.bounded(),
    ensures
        element_with(schema, events, record).consumed <= events.len(),
    decreases events.len(),
{
    let step = scan(events, schema.tag);
    let rest = events.skip(step.consumed as int);
    lemma_scan_bounds(events, schema.tag);
    match step.result {
        Ok(StepView::Text(content)) => {
            lemma_element_bounds(schema, rest, (schema.gather)(record, content));
        },
        Ok(StepView::Child { name, attributes }) => {
            if let Some(kind) = (schema.kind)(name) {
                let inner = (schema.decode)(kind, name, attributes, rest);
                if let Ok(field) = inner.result {
                    lemma_element_bounds(
                        schema,
                        rest.skip(inner.consumed as int),
                        (schema.store)(record, kind, field),
                    );
                }
            }
        },
        _ => {},
    }
}

/// A consumer fails for want of an end tag only when the stream ends, inside
/// the element or inside one of its children, and it has then read the whole
/// stream.
pub proof fn lemma_element_exhausted<R, K, F>(
    schema: Schema<R, K, F>,
    events: Seq<Signal>,
    record: R,
)
    requires
        schema.orderly(),
        element_with(schema, events, record).result == unterminated::<R>(),
    ensures
        element_with(schema, events, record).consumed == events.len(),
    decreases events.len(),
{
    let step = scan(events, schema.tag);
    let rest = events.skip(step.consumed as int);
    lemma_scan_bounds(events, schema.tag);
    match step.result {
        Err(_) => {
            lemma_scan_exhausted(events, schema.tag);
        },
        Ok(StepView::Text(content)) => {
            lemma_element_exhausted(schema, rest, (schema.gather)(record, content));
        },
        Ok(StepView::Child { name, attributes }) => {
            if let Some(kind) = (schema.kind)(name) {
                let inner = (schema.decode)(kind, name, attributes, rest);
                if let Ok(field) = inner.result {
                    lemma_element_exhausted(
                        schema,
                        rest.skip(inner.consumed as int),
                        (schema.store)(record, kind, field),
                    );
                }
            }
        },
        _ => {},
    }
}

/// A consumer does not look past what it reads: unless the stream ended too
/// early, whatever follows the events leaves its outcome as it is.
pub proof fn lemma_element_local<R, K, F>(
    schema: Schema<R, K, F>,
    events: Seq<Signal>,
    more: Seq<Signal>,
    record: R,
)
    requires
        schema.orderly(),
        element_with(schema, events, record).result != unterminated::<R>(),
    ensures
        element_with(schema, events + more, record) == element_with(schema, events, record),
    decreases events.len(),
{
    let step = scan(events, schema.tag);
    let rest = events.skip(step.consumed as int);
    lemma_scan_bounds(events, schema.tag);
    lemma_scan_local(events, more, schema.tag);
    assert((events + more).skip(step.consumed as int) == rest + more);
    match step.result {
        Ok(StepView::Text(content)) => {
            lemma_element_local(schema, rest, more, (schema.gather)(record, content));
        },
        Ok(StepView::Child { name, attributes }) => {
            if let Some(kind) = (schema.kind)(name) {
                let inner = (schema.decode)(kind, name, attributes, rest);
                assert((schema.decode)(kind, name, attributes, rest + more) == inner);
                if let Ok(field) = inner.result {
                    assert((rest + more).skip(inner.consumed as int) == rest.skip(
                        inner.consumed as int,
                    ) + more);
                    lemma_element_local(
                        schema,
                        rest.skip(inner.consumed as int),
                        more,
                        (schema.store)(record, kind, field),
                    );
                }
            }
        },
        _ => {},
    }
}

} // verus!
