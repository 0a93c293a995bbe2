//! The interface through which consumers read events, and an event source
//! that replays a recorded list.

use std::collections::VecDeque;
use vstd::prelude::*;
use crate::event::{Event, Signal, StreamError, signal_view, signal_views};

verus! {

/// A forward-only stream of document events.
pub trait EventSource {
    /// The items that are still unread, next one first.
    spec fn remaining(&self) -> Seq<Signal>;

    /// Hands out the next unread item and moves past it, or returns `None`
    /// once the stream is exhausted.
    fn next(&mut self) -> (item: Option<Result<Event, StreamError>>)
        ensures
            match item {
                Some(signal) => {
                    &&& old(self).remaining().len() > 0
                    &&& signal_view(signal) == old(self).remaining()[0]
                    &&& final(self).remaining() == old(self).remaining().skip(1)
                },
                None => {
                    &&& old(self).remaining().len() == 0
                    &&& final(self).remaining() == old(self).remaining()
                },
            },
    ;
}

/// An event source that hands out a recorded list of items in order.
pub struct Replay {
    queue: VecDeque<Result<Event, StreamError>>,
}

impl Replay {
    /// A source that will hand out `items`, first one first.
    pub fn new(items: Vec<Result<Event, StreamError>>) -> (source: Replay)
        ensures
            source.remaining() == signal_views(items@),
    {
        let mut items = items;
        let ghost all = items@;
        let mut queue: VecDeque<Result<Event, StreamError>> = VecDeque::new();
        while items.len() > 0
            invariant
                items@ + queue@ == all,
            decreases items@.len(),
        {
            let ghost before = items@;
            let ghost queued = queue@;
            let item = items.pop();
            match item {
                Some(signal) => {
                    queue.push_front(signal);
                    assert(items@ + queue@ =~= before + queued);
                },
                None => {},
            }
        }
        assert(queue@ =~= all);
        Replay { queue }
    }
}

impl EventSource for Replay {
    closed spec fn remaining(&self) -> Seq<Signal> {
        signal_views(self.queue@)
    }

    fn next(&mut self) -> (item: Option<Result<Event, StreamError>>) {
        let item = self.queue.pop_front();
        proof {
            if item is Some {
                assert(signal_views(self.queue@) =~= signal_views(old(self).queue@).skip(1));
            }
        }
        item
    }
}

/// An event source with one item of lookahead over another source.
pub struct Lookahead<S: EventSource> {
    source: S,
    held: Option<Result<Event, StreamError>>,
}

impl<S: EventSource> Lookahead<S> {
    /// A source that hands out what `source` has left.
    pub fn new(source: S) -> (ahead: Lookahead<S>)
        ensures
            ahead.remaining() == source.remaining(),
    {
        Lookahead { source, held: None }
    }

    /// Shows the next unread item without moving past it, or `None` once the
    /// stream is exhausted.
    pub fn peek(&mut self) -> (item: Option<&Result<Event, StreamError>>)
        ensures
            final(self).remaining() == old(self).remaining(),
            match item {
                Some(signal) => {
                    &&& old(self).remaining().len() > 0
                    &&& signal_view(*signal) == old(self).remaining()[0]
                },
                None => old(self).remaining().len() == 0,
            },
    {
        if self.held.is_none() {
            let ghost before = self.source.remaining();
            self.held = self.source.next();
            proof {
                if self.held is Some {
                    assert(seq![before[0]] + before.skip(1) =~= before);
                }
            }
        }
        self.held.as_ref()
    }
}

impl<S: EventSource> EventSource for Lookahead<S> {
    closed spec fn remaining(&self) -> Seq<Signal> {
        match self.held {
            Some(signal) => seq![signal_view(signal)] + self.source.remaining(),
            None => self.source.remaining(),
        }
    }

    fn next(&mut self) -> (item: Option<Result<Event, StreamError>>) {
        match self.held.take() {
            Some(signal) => {
                proof {
                    assert((seq![signal_view(signal)] + self.source.remaining()).skip(1)
                        =~= self.source.remaining());
                }
                Some(signal)
            },
            None => self.source.next(),
        }
    }
}

} // verus!
