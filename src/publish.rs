//! The decisions of a publish, between the store operations that carry it out.
use crate::event::Event;
use crate::keys::{storage_key, storage_key_of};
use crate::retention::persists;
use vstd::prelude::*;

verus! {

/// What a publish does next.
#[derive(Debug)]
pub enum PublishStep {
    /// The queue does not exist: nothing is stored or sent.
    Rejected,
    /// The event has no sequence: one must be allocated for its key.
    Allocate,
    /// Store the event under this key, trim the key, then broadcast it.
    Store(Vec<u8>),
    /// Broadcast the event without storing it.
    Broadcast,
}

/// The first step of publishing `event` into a queue that exists or not.
/// Sequence zero is reserved, so an event that carries it is given a fresh
/// sequence like one that carries none.
pub fn start_publish(exists: bool, event: &Event, max_key_updates: Option<usize>) -> (r: PublishStep)
    ensures
        !exists ==> r is Rejected,
        exists ==> match event.sequence {
            Some(s) => if s == 0 {
                r is Allocate
            } else if max_key_updates == Some(0usize) {
                r is Broadcast
            } else {
                (r matches PublishStep::Store(k) && k@ == storage_key_of(event.key_bytes(), s))
            },
            None => r is Allocate,
        },
{
    if !exists {
        return PublishStep::Rejected;
    }
    match event.sequence {
        None => PublishStep::Allocate,
        Some(s) => if s == 0 {
            PublishStep::Allocate
        } else if persists(max_key_updates) {
            PublishStep::Store(storage_key(event.get_id(), s))
        } else {
            PublishStep::Broadcast
        },
    }
}

/// Writes an allocated sequence into the event and gives the step that
/// follows: storing it under its key, or only broadcasting under a cap of zero.
pub fn with_sequence(event: &mut Event, sequence: u64, max_key_updates: Option<usize>) -> (r: PublishStep)
    requires
        sequence != 0,
    ensures
        *final(event) == (Event { sequence: Some(sequence), ..*old(event) }),
        if max_key_updates == Some(0usize) {
            r is Broadcast
        } else {
            (r matches PublishStep::Store(k) && k@ == storage_key_of(final(event).key_bytes(), sequence))
        },
{
    event.set_sequence(sequence);
    if persists(max_key_updates) {
        PublishStep::Store(storage_key(event.get_id(), sequence))
    } else {
        PublishStep::Broadcast
    }
}

} // verus!
