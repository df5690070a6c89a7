//! The per-key retention cap: which stored entries of a key survive a publish.
use crate::keys::{keys_of, own_keys};
use vstd::prelude::*;
use vstd::string::StringSliceAdditionalSpecFns;

verus! {

/// The newest `m` entries of `s` (all of them when there are fewer).
pub open spec fn kept<A>(s: Seq<A>, m: nat) -> Seq<A> {
    if s.len() > m {
        s.subrange(s.len() - m, s.len() as int)
    } else {
        s
    }
}

/// The entries of `s` older than its newest `m`.
pub open spec fn trimmed<A>(s: Seq<A>, m: nat) -> Seq<A> {
    if s.len() > m {
        s.subrange(0, s.len() - m)
    } else {
        Seq::empty()
    }
}

/// The sequences stored under one key after the publishes `pubs`, in storage
/// order, under the cap `max_key_updates`. A publish lands at the end of its
/// key's storage order when sequences increase (see `lemma_storage_order`).
pub open spec fn log_after(pubs: Seq<u64>, max_key_updates: Option<usize>) -> Seq<u64>
    decreases pubs.len(),
{
    if pubs.len() == 0 {
        Seq::empty()
    } else {
        let before = log_after(pubs.drop_last(), max_key_updates);
        match max_key_updates {
            None => before.push(pubs.last()),
            Some(m) => if m == 0 {
                before
            } else {
                kept(before.push(pubs.last()), m as nat)
            },
        }
    }
}

/// Whether an event body is written to the store at all under the cap.
pub fn persists(max_key_updates: Option<usize>) -> (r: bool)
    ensures
        r == (max_key_updates != Some(0usize)),
{
    match max_key_updates {
        Some(m) => m != 0,
        None => true,
    }
}

/// The storage keys to remove after an insert of an event of key `id`, from
/// the keys that a scan of the prefix `id` returned, in storage order. Of the
/// keys of `id` itself, all but the newest `m` under a cap of `m`; none
/// without a cap. Keys of other event keys are never chosen.
pub fn trim_plan(max_key_updates: Option<usize>, id: &str, keys: Vec<Vec<u8>>) -> (r: Vec<Vec<u8>>)
    ensures
        match max_key_updates {
            None => r@.len() == 0,
            Some(m) => {
                let own = own_keys(id.spec_bytes(), keys@);
                r@ == trimmed(own, m as nat) && r@ + kept(own, m as nat) == own
            },
        },
{
    match max_key_updates {
        None => Vec::new(),
        Some(m) => {
            let keys = keys_of(id, keys);
            let ghost all = keys@;
            let mut keys = keys;
            let n = keys.len();
            if n > m {
                keys.truncate(n - m);
            } else {
                keys.truncate(0);
            }
            assert(keys@ =~= trimmed(all, m as nat));
            assert(keys@ + kept(all, m as nat) =~= all);
            keys
        },
    }
}

/// Under a cap of `m > 0`, after `n` publishes with increasing sequences a
/// key holds exactly `min(n, m)` entries: the `m` most recent. Without a cap
/// it holds all of them, and under a cap of zero none.
pub proof fn lemma_retention(pubs: Seq<u64>, max_key_updates: Option<usize>)
    ensures
        match max_key_updates {
            None => log_after(pubs, max_key_updates) == pubs,
            Some(m) => if m == 0 {
                log_after(pubs, max_key_updates).len() == 0
            } else {
                log_after(pubs, max_key_updates) == kept(pubs, m as nat)
                    && log_after(pubs, max_key_updates).len() == if pubs.len() < m {
                    pubs.len()
                } else {
                    m as nat
                }
            },
        },
    decreases pubs.len(),
{
    if pubs.len() > 0 {
        let p = pubs.drop_last();
        lemma_retention(p, max_key_updates);
        assert(p.push(pubs.last()) =~= pubs);
        match max_key_updates {
            None => {},
            Some(m) => if m != 0 {
                let mm = m as nat;
                let a = kept(p, mm).push(pubs.last());
                assert(kept(a, mm) =~= kept(pubs, mm));
            },
        }
    }
}

} // verus!
