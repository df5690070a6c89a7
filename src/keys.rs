//! Storage keys of events and of sequence counters, and the counter update.
use crate::bytes::{lemma_be_bytes_len, be64, be_value, decode_be64, encode_be64, lemma_be64_order,
    lemma_be64_round_trip, lemma_lex_prefix, lex_lt};
use crate::event::QueueError;
use vstd::prelude::*;
use vstd::string::StringSliceAdditionalSpecFns;

verus! {

/// The storage key of the event with key bytes `id` and sequence `s`.
pub open spec fn storage_key_of(id: Seq<u8>, s: u64) -> Seq<u8> {
    id + be64(s)
}

/// The prefix of every sequence counter key.
pub open spec fn counter_prefix() -> Seq<u8> {
    seq![0x69u8, 0x64u8, 0x5fu8]
}

/// The key under which the last sequence issued for `(queue, id)` is kept.
pub open spec fn counter_key_of(queue: Seq<u8>, id: Seq<u8>) -> Seq<u8> {
    counter_prefix() + queue + id
}

/// The sequence that follows the stored counter value `prev`: one more than
/// a well-formed eight-byte value, and one when the counter is unset,
/// malformed or would overflow.
pub open spec fn next_sequence(prev: Option<Seq<u8>>) -> u64 {
    match prev {
        Some(b) => if b.len() == 8 && be_value(b) < u64::MAX {
            (be_value(b) + 1) as u64
        } else {
            1
        },
        None => 1,
    }
}

/// The counter value after `n` allocations from an unset counter.
pub open spec fn counter_after(n: nat) -> Option<Seq<u8>>
    decreases n,
{
    if n == 0 {
        None
    } else {
        Some(be64(next_sequence(counter_after((n - 1) as nat))))
    }
}

pub(crate) fn append_bytes(v: &mut Vec<u8>, b: &[u8])
    ensures
        final(v)@ == old(v)@ + b@,
{
    let mut i: usize = 0;
    while i < b.len()
        invariant
            i <= b@.len(),
            v@ == old(v)@ + b@.subrange(0, i as int),
        decreases b@.len() - i,
    {
        v.push(b[i]);
        i = i + 1;
        assert(v@ =~= old(v)@ + b@.subrange(0, i as int));
    }
    assert(b@.subrange(0, b@.len() as int) =~= b@);
}

/// The storage key of an event: its key bytes followed by the eight-byte
/// big-endian sequence.
pub fn storage_key(id: &str, sequence: u64) -> (r: Vec<u8>)
    ensures
        r@ == storage_key_of(id.spec_bytes(), sequence),
{
    let mut key: Vec<u8> = Vec::new();
    append_bytes(&mut key, id.as_bytes());
    let s = encode_be64(sequence);
    append_bytes(&mut key, s.as_slice());
    assert(key@ =~= storage_key_of(id.spec_bytes(), sequence));
    key
}

/// The key of the sequence counter of `(queue_name, id)`.
pub fn counter_key(queue_name: &str, id: &str) -> (r: Vec<u8>)
    ensures
        r@ == counter_key_of(queue_name.spec_bytes(), id.spec_bytes()),
{
    let mut key: Vec<u8> = Vec::new();
    key.push(0x69u8);
    key.push(0x64u8);
    key.push(0x5fu8);
    append_bytes(&mut key, queue_name.as_bytes());
    append_bytes(&mut key, id.as_bytes());
    assert(key@ =~= counter_key_of(queue_name.spec_bytes(), id.spec_bytes()));
    key
}

/// The new counter value written by one allocation, from the value stored
/// before it.
pub fn next_counter(prev: Option<&[u8]>) -> (r: Vec<u8>)
    ensures
        r@ == be64(next_sequence(
            match prev {
                Some(b) => Some(b@),
                None => None,
            },
        )),
{
    let next: u64 = match prev {
        Some(b) => match decode_be64(b) {
            Some(v) => if v < u64::MAX {
                v + 1
            } else {
                1
            },
            None => 1,
        },
        None => 1,
    };
    encode_be64(next)
}

/// The sequence that an allocation hands out, from the counter value the
/// store returned after the update.
pub fn sequence_from_counter(stored: Option<&[u8]>) -> (r: Result<u64, QueueError>)
    ensures
        match stored {
            Some(b) => if b@.len() == 8 && be_value(b@) != 0 {
                r == Ok::<u64, QueueError>(be_value(b@) as u64)
            } else {
                r == Err::<u64, QueueError>(QueueError::ZeroSequence)
            },
            None => r == Err::<u64, QueueError>(QueueError::ZeroSequence),
        },
{
    match stored {
        Some(b) => match decode_be64(b) {
            Some(v) => if v != 0 {
                Ok(v)
            } else {
                Err(QueueError::ZeroSequence)
            },
            None => Err(QueueError::ZeroSequence),
        },
        None => Err(QueueError::ZeroSequence),
    }
}

/// Successive allocations from an unset counter hand out 1, 2, 3, ... : the
/// `n`-th allocation stores and returns `n`, so no value is issued twice.
pub proof fn lemma_allocations_count_up(n: nat)
    requires
        1 <= n <= u64::MAX,
    ensures
        counter_after(n) == Some(be64(n as u64)),
        next_sequence(counter_after((n - 1) as nat)) == n,
    decreases n,
{
    if n > 1 {
        lemma_allocations_count_up((n - 1) as nat);
        lemma_be64_round_trip((n - 1) as u64);
    }
}

/// Within one key, storage order is sequence order: the store keeps the
/// events of a key with strictly increasing sequences.
pub proof fn lemma_storage_order(id: Seq<u8>, a: u64, b: u64)
    ensures
        a < b <==> lex_lt(storage_key_of(id, a), storage_key_of(id, b)),
{
    lemma_lex_prefix(id, be64(a), be64(b));
    lemma_be64_order(a, b);
}

/// `key` is the storage key of an event of key bytes `id`: those bytes
/// followed by exactly eight sequence bytes. A longer key that merely starts
/// with `id` belongs to another event key.
pub open spec fn is_key_entry(id: Seq<u8>, key: Seq<u8>) -> bool {
    key.len() == id.len() + 8 && key.subrange(0, id.len() as int) == id
}

/// The keys of `keys` that belong to the event key `id`, in order.
pub open spec fn own_keys(id: Seq<u8>, keys: Seq<Vec<u8>>) -> Seq<Vec<u8>>
    decreases keys.len(),
{
    if keys.len() == 0 {
        Seq::empty()
    } else {
        let before = own_keys(id, keys.drop_last());
        if is_key_entry(id, keys.last()@) {
            before.push(keys.last())
        } else {
            before
        }
    }
}

/// Every storage key of an event of key bytes `id` belongs to `id`.
pub proof fn lemma_storage_key_is_key_entry(id: Seq<u8>, s: u64)
    ensures
        is_key_entry(id, storage_key_of(id, s)),
{
    lemma_be_bytes_len(s as nat, 8);
    assert(storage_key_of(id, s).subrange(0, id.len() as int) =~= id);
}

/// Whether `key` is a storage key of the event key `id`.
pub fn is_key_of(id: &[u8], key: &[u8]) -> (r: bool)
    ensures
        r == is_key_entry(id@, key@),
{
    if key.len() < 8 || key.len() - 8 != id.len() {
        return false;
    }
    let mut i: usize = 0;
    while i < id.len()
        invariant
            i <= id@.len(),
            key@.len() == id@.len() + 8,
            key@.subrange(0, i as int) == id@.subrange(0, i as int),
        decreases id@.len() - i,
    {
        if key[i] != id[i] {
            assert(key@.subrange(0, id@.len() as int)[i as int] != id@[i as int]);
            return false;
        }
        i = i + 1;
        assert(key@.subrange(0, i as int) =~= id@.subrange(0, i as int));
    }
    assert(id@.subrange(0, id@.len() as int) =~= id@);
    true
}

/// `v` in reverse order.
pub(crate) fn reversed<T>(v: Vec<T>) -> (r: Vec<T>)
    ensures
        r@.len() == v@.len(),
        forall|i: int| 0 <= i < v@.len() ==> #[trigger] r@[i] == v@[v@.len() - 1 - i],
{
    let ghost all = v@;
    let mut v = v;
    let mut r: Vec<T> = Vec::new();
    while v.len() > 0
        invariant
            v@ == all.subrange(0, v@.len() as int),
            r@.len() + v@.len() == all.len(),
            forall|i: int| 0 <= i < r@.len() ==> #[trigger] r@[i] == all[all.len() - 1 - i],
        decreases v@.len(),
    {
        let x = v.pop().unwrap();
        r.push(x);
        assert(v@ =~= all.subrange(0, v@.len() as int));
    }
    r
}

/// The storage keys, among those a scan of the prefix `id` returned, that
/// belong to the event key `id` itself: what deleting that key removes.
pub fn keys_of(id: &str, keys: Vec<Vec<u8>>) -> (r: Vec<Vec<u8>>)
    ensures
        r@ == own_keys(id.spec_bytes(), keys@),
{
    let ghost all = keys@;
    let idb = id.as_bytes();
    let n = keys.len();
    let mut rev = reversed(keys);
    let mut r: Vec<Vec<u8>> = Vec::new();
    let mut i: usize = 0;
    while i < n
        invariant
            n == all.len(),
            i <= n,
            idb@ == id.spec_bytes(),
            rev@.len() == n - i,
            forall|k: int| 0 <= k < rev@.len() ==> #[trigger] rev@[k] == all[n - 1 - k],
            r@ == own_keys(idb@, all.subrange(0, i as int)),
        decreases n - i,
    {
        let k = rev.pop().unwrap();
        assert(all.subrange(0, i + 1).drop_last() =~= all.subrange(0, i as int));
        assert(all[i as int] == k);
        if is_key_of(idb, k.as_slice()) {
            r.push(k);
        }
        i = i + 1;
    }
    assert(all.subrange(0, n as int) =~= all);
    r
}

/// Whether `name` lies in the namespace reserved for sequence counters.
pub open spec fn is_reserved_name(name: Seq<u8>) -> bool {
    name.len() >= 3 && name.subrange(0, 3) == counter_prefix()
}

/// Refuses a queue name in the namespace reserved for sequence counters.
pub fn check_queue_name(name: &str) -> (r: Result<(), QueueError>)
    ensures
        is_reserved_name(name.spec_bytes()) ==> r == Err::<(), QueueError>(QueueError::SystemQueueName),
        !is_reserved_name(name.spec_bytes()) ==> r == Ok::<(), QueueError>(()),
{
    let b = name.as_bytes();
    if b.len() >= 3 && b[0] == 0x69u8 && b[1] == 0x64u8 && b[2] == 0x5fu8 {
        assert(b@.subrange(0, 3) =~= counter_prefix());
        Err(QueueError::SystemQueueName)
    } else {
        proof {
            if b@.len() >= 3 {
                assert(b@.subrange(0, 3)[0] == b@[0]);
                assert(b@.subrange(0, 3)[1] == b@[1]);
                assert(b@.subrange(0, 3)[2] == b@[2]);
            }
        }
        Ok(())
    }
}

} // verus!
