use vstd::prelude::*;

use std::collections::VecDeque;

verus! {

/// A type-erased event payload.
///
/// An `Event` wraps an arbitrary `'static` value; a receiver recovers it by
/// asking for the concrete type it expects with `downcast`. The erasure goes
/// through `core::any::Any`, which Verus cannot look into, so both operations
/// are trusted; nothing is proved about what an `Event` holds.
#[verifier::external_body]
pub struct Event {
    payload: Box<dyn core::any::Any>,
}

impl Event {
    /// Relies on `Box::new` and the unsizing to `dyn core::any::Any`:
    /// stores the value so that `downcast` with the same type finds it.
    #[verifier::external_body]
    pub fn new<T: 'static>(event: T) -> (r: Event) {
        Event { payload: Box::new(event) }
    }

    /// Relies on `core::any::Any::downcast_ref`: returns the stored value
    /// when `T` is the type it was stored with, and `None` otherwise.
    #[verifier::external_body]
    pub fn downcast<T: 'static>(&self) -> (r: Option<&T>) {
        self.payload.downcast_ref::<T>()
    }
}

/// A first-in, first-out queue of events.
///
/// Mutations of the world push domain events here; the server loop drains the
/// queue in order and turns each event into packets and callbacks. The queue
/// is generic in its element so that the world code can carry typed domain
/// events while other users carry type-erased `Event` values.
pub struct EventManager<E> {
    events: VecDeque<E>,
}

impl<E> View for EventManager<E> {
    type V = Seq<E>;

    closed spec fn view(&self) -> Seq<E> {
        self.events@
    }
}

impl<E> EventManager<E> {
    pub fn new() -> (r: Self)
        ensures
            r@ =~= Seq::<E>::empty(),
    {
        Self { events: VecDeque::new() }
    }

    /// Appends an event at the back of the queue.
    pub fn push_event(&mut self, event: E)
        ensures
            final(self)@ == old(self)@.push(event),
    {
        self.events.push_back(event);
    }

    /// Removes and returns the oldest queued event, or `None` when the
    /// queue is empty.
    pub fn pop_event(&mut self) -> (r: Option<E>)
        ensures
            old(self)@.len() == 0 ==> r is None && final(self)@ == old(self)@,
            old(self)@.len() > 0 ==> r == Some(old(self)@[0]) && final(self)@ == old(
                self,
            )@.subrange(1, old(self)@.len() as int),
    {
        self.events.pop_front()
    }
}

impl<E> Default for EventManager<E> {
    fn default() -> (r: Self)
        ensures
            r@ =~= Seq::<E>::empty(),
    {
        Self::new()
    }
}

} // verus!
