//! The history of all market-data events, in the order they happened.

use vstd::prelude::*;
use crate::types::event::Event;

verus! {

/// Every event published so far, oldest first.
pub struct EventHistory {
    pub events: Vec<Event>,
}

impl EventHistory {
    /// An empty history.
    pub fn new() -> (h: Self)
        ensures
            h.events@ == Seq::<Event>::empty(),
    {
        EventHistory { events: Vec::new() }
    }

    /// A copy of every event so far, oldest first.
    pub fn get_history(&self) -> (events: Vec<Event>)
        ensures
            events@ == self.events@,
    {
        let mut events: Vec<Event> = Vec::new();
        let mut i: usize = 0;
        while i < self.events.len()
            invariant
                i <= self.events@.len(),
                events@ == self.events@.subrange(0, i as int),
            decreases self.events@.len() - i,
        {
            events.push(self.events[i].clone());
            assert(events@ =~= self.events@.subrange(0, i + 1));
            i = i + 1;
        }
        assert(events@ =~= self.events@);
        events
    }

    fn add_event(&mut self, event: Event)
        ensures
            final(self).events@ == old(self).events@.push(event),
    {
        self.events.push(event);
    }

    /// Records an event at the end of the history.
    pub fn update_by_event(&mut self, event: Event)
        ensures
            final(self).events@ == old(self).events@.push(event),
    {
        match event {
            Event::OrderAdded(order_added) => self.add_event(Event::OrderAdded(order_added)),
            Event::OrderExecuted(order_executed) => self.add_event(Event::OrderExecuted(order_executed)),
            Event::OrderRemoved(order_removed) => self.add_event(Event::OrderRemoved(order_removed)),
        }
    }
}

} // verus!
