//! Bounded batch of events.

use vstd::prelude::*;

use crate::events::{BatchFull, Event};

verus! {

/// Events in order, at most `N` of them.
#[derive(Clone, Debug, PartialEq, Eq)]
pub struct EventBatch<const N: usize> {
    events: Vec<Event>,
}

impl<const N: usize> View for EventBatch<N> {
    type V = Seq<Event>;

    closed spec fn view(&self) -> Seq<Event> {
        self.events@
    }
}

impl<const N: usize> EventBatch<N> {
    pub open spec fn wf(&self) -> bool {
        self@.len() <= N
    }

    #[must_use]
    pub fn new() -> (batch: Self)
        ensures
            batch.wf(),
            batch@ == Seq::<Event>::empty(),
    {
        EventBatch { events: Vec::new() }
    }

    /// Appends an event where the batch has room for it.
    pub fn try_push(&mut self, event: Event) -> (outcome: Result<(), BatchFull>)
        requires
            old(self).wf(),
        ensures
            final(self).wf(),
            outcome is Ok <==> old(self)@.len() < N,
            final(self)@ == if outcome is Ok {
                old(self)@.push(event)
            } else {
                old(self)@
            },
    {
        if self.events.len() >= N {
            return Err(BatchFull);
        }
        self.events.push(event);
        Ok(())
    }

    #[must_use]
    pub fn len(&self) -> (count: usize)
        ensures
            count == self@.len(),
    {
        self.events.len()
    }

    #[must_use]
    pub fn is_empty(&self) -> (empty: bool)
        ensures
            empty == (self@.len() == 0),
    {
        self.events.len() == 0
    }

    /// The events in order.
    #[must_use]
    pub fn as_slice(&self) -> (events: &[Event])
        ensures
            events@ == self@,
    {
        self.events.as_slice()
    }
}

impl<const N: usize> Default for EventBatch<N> {
    fn default() -> (batch: Self)
        ensures
            batch.wf(),
            batch@ == Seq::<Event>::empty(),
    {
        EventBatch::new()
    }
}

} // verus!
