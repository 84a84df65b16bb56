//! The event-sourcing vocabulary: domain events, aggregate roots, and
//! repositories.

use vstd::prelude::*;

use crate::store::Store;

verus! {

/// An immutable record of a fact that occurred, buffered by its aggregate
/// until it has been durably persisted.
pub struct DomainEvent<T> {
    pub event: T,
}

/// The single in-memory object through which all mutations to a consistency
/// boundary must pass. Mutations record domain events; the buffer of
/// uncommitted events describes exactly what must be written to storage
/// since the last flush.
pub trait AggregateRoot<Event> {
    /// Record one more uncommitted event.
    fn apply(&mut self, event: Event);

    /// Clear the uncommitted-event buffer. To be called only after a
    /// repository has durably written the buffered events.
    fn commit(&mut self);

    /// The events recorded since the last commit, in arrival order.
    fn get_uncommited_events(&self) -> &Vec<DomainEvent<Event>>;
}

/// The translation layer between an aggregate and its durable storage shape:
/// one direction per operation, never both in the same call.
pub trait Repository<E, A: AggregateRoot<E>> {
    /// Rebuild the aggregate from storage, with an empty event buffer.
    fn get(store: &Store) -> A;

    /// Write one row per uncommitted event, in arrival order. Does not clear
    /// the buffer: that is the caller's responsibility, via `commit`, once
    /// the write is known to have succeeded.
    fn save(&self, store: &mut Store);
}

} // verus!
