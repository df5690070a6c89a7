//! Events as the queue sees them, and the errors of its operations.
use vstd::prelude::*;
use vstd::string::StringSliceAdditionalSpecFns;

verus! {

/// An event published into a queue: a stable key, an optional sequence
/// number within that key, the terminal flag of a replay batch, and an opaque
/// body.
#[derive(Debug, Clone)]
pub struct Event {
    pub id: String,
    pub sequence: Option<u64>,
    pub last: bool,
    pub body: String,
}

impl Event {
    /// The bytes of the event's key, as the store sees them.
    pub closed spec fn key_bytes(&self) -> Seq<u8> {
        vstd::utf8::encode_utf8(self.id@)
    }

    /// The bytes of the event's key.
    pub fn key_slice(&self) -> (r: &[u8])
        ensures
            r@ == self.key_bytes(),
    {
        self.id.as_str().as_bytes()
    }

    pub fn new(id: String, sequence: Option<u64>, body: String) -> (r: Event)
        ensures
            r == (Event { id, sequence, last: false, body }),
    {
        Event { id, sequence, last: false, body }
    }

    pub fn get_id(&self) -> (r: &str)
        ensures
            r@ == self.id@,
            r.spec_bytes() == self.key_bytes(),
    {
        self.id.as_str()
    }

    pub fn get_sequence(&self) -> (r: Option<u64>)
        ensures
            r == self.sequence,
    {
        self.sequence
    }

    pub fn set_sequence(&mut self, sequence: u64)
        ensures
            *final(self) == (Event { sequence: Some(sequence), ..*old(self) }),
    {
        self.sequence = Some(sequence);
    }

    pub fn set_last(&mut self, last: bool)
        ensures
            *final(self) == (Event { last, ..*old(self) }),
    {
        self.last = last;
    }
}

/// What can go wrong in a queue operation.
#[derive(Debug)]
pub enum QueueError {
    /// The embedded store failed; the text is the store's own message.
    Db(String),
    /// An event could not be serialised.
    Encode(String),
    /// A stored event could not be read back.
    Decode(String),
    /// The sequence counter held zero or a malformed value.
    ZeroSequence,
    /// The name belongs to the reserved counter namespace.
    SystemQueueName,
}

pub type QueueResult<T> = Result<T, QueueError>;

} // verus!
