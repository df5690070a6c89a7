//! Joining a replay to the live stream that was opened before it: a live
//! event that the replay already delivered is not delivered again.
use crate::bytes::{lemma_lex_irreflexive, lemma_lex_total, lex_less};
use crate::event::Event;
use crate::keys::append_bytes;
use vstd::prelude::*;

verus! {

/// The key bytes and sequences of the events a replay delivered.
pub struct Stitcher {
    seen: Vec<(Vec<u8>, Option<u64>)>,
}

/// The identity of an event for deduplication: its key bytes and sequence.
pub open spec fn identity(e: Event) -> (Seq<u8>, Option<u64>) {
    (e.key_bytes(), e.sequence)
}

impl Stitcher {
    /// The identities of the replayed events, in replay order.
    pub closed spec fn replayed(&self) -> Seq<(Seq<u8>, Option<u64>)> {
        self.seen@.map_values(|p: (Vec<u8>, Option<u64>)| (p.0@, p.1))
    }

    /// Remembers the identities of the events of a replay.
    pub fn new(items: &Vec<Event>) -> (r: Stitcher)
        ensures
            r.replayed().len() == items@.len(),
            forall|i: int| 0 <= i < items@.len() ==> #[trigger] r.replayed()[i] == identity(items@[i]),
    {
        let mut seen: Vec<(Vec<u8>, Option<u64>)> = Vec::new();
        let mut i: usize = 0;
        while i < items.len()
            invariant
                i <= items@.len(),
                seen@.len() == i,
                forall|k: int| 0 <= k < i ==> (#[trigger] seen@[k]).0@ == items@[k].key_bytes() && seen@[k].1
                    == items@[k].sequence,
            decreases items@.len() - i,
        {
            let mut key: Vec<u8> = Vec::new();
            append_bytes(&mut key, items[i].key_slice());
            assert(key@ =~= items@[i as int].key_bytes());
            seen.push((key, items[i].sequence));
            i = i + 1;
        }
        let r = Stitcher { seen };
        assert forall|k: int| 0 <= k < items@.len() implies #[trigger] r.replayed()[k] == identity(items@[k]) by {
            assert(r.seen@[k].0@ == items@[k].key_bytes());
        }
        r
    }

    /// Whether a live event is to be delivered: it is unless the replay
    /// already delivered an event with the same key and sequence.
    pub fn forward(&self, e: &Event) -> (r: bool)
        ensures
            r == !(exists|i: int| 0 <= i < self.replayed().len() && #[trigger] self.replayed()[i] == identity(*e)),
    {
        let ek = e.key_slice();
        let mut i: usize = 0;
        while i < self.seen.len()
            invariant
                i <= self.seen@.len(),
                ek@ == e.key_bytes(),
                forall|k: int| 0 <= k < i ==> #[trigger] self.replayed()[k] != identity(*e),
            decreases self.seen@.len() - i,
        {
            let (k, s) = (&self.seen[i].0, self.seen[i].1);
            let same_key = !lex_less(k.as_slice(), ek) && !lex_less(ek, k.as_slice());
            proof {
                lemma_lex_total(k@, ek@);
                lemma_lex_irreflexive(ek@);
                assert(self.replayed()[i as int] == (k@, s));
            }
            if same_key && s == e.sequence {
                assert(self.replayed()[i as int] == identity(*e));
                return false;
            }
            i = i + 1;
        }
        true
    }
}

} // verus!
