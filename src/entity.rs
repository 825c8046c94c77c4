//! The event bus through which the components of an entity communicate.
use std::collections::VecDeque;
use vstd::prelude::*;

verus! {

/// A queue of events shared by the components of one entity.
pub struct EventBus<E> {
    queue: VecDeque<E>,
}

impl<E> EventBus<E> {
    /// The events waiting on the bus, the next one first.
    pub closed spec fn spec_queue(&self) -> Seq<E> {
        self.queue@
    }

    /// Create a bus with no events on it.
    pub fn new() -> (r: EventBus<E>)
        ensures
            r.spec_queue() == Seq::<E>::empty(),
    {
        EventBus { queue: VecDeque::new() }
    }

    /// Fire an event on the bus: it goes behind every event already there.
    pub fn fire(&mut self, event: E)
        ensures
            final(self).spec_queue() == old(self).spec_queue().push(event),
    {
        self.queue.push_back(event)
    }

    /// Take the next event off the bus, if there is one.
    pub fn next(&mut self) -> (r: Option<E>)
        ensures
            old(self).spec_queue().len() == 0 ==> r is None && final(self).spec_queue() == old(self).spec_queue(),
            old(self).spec_queue().len() > 0 ==> r == Some(old(self).spec_queue()[0])
                && final(self).spec_queue() == old(self).spec_queue().drop_first(),
    {
        self.queue.pop_front()
    }
}

/// A piece of functionality of an entity. Components talk to one another
/// over the entity's event bus.
pub trait Component<E> {
    /// Called at the start of each update, to add events to the bus.
    fn stage(&mut self, bus: &mut EventBus<E>);

    /// Called once per event, before it is acted upon, to modify it.
    fn react(&mut self, event: &mut E, bus: &mut EventBus<E>);

    /// Called once per event, after every component has reacted to it.
    fn commit(&mut self, event: &E, bus: &mut EventBus<E>);
}

} // verus!
