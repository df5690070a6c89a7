//! Selection of the historical prefix of a subscription.
use crate::bytes::{lemma_lex_irreflexive, lemma_lex_total,
    lemma_lex_transitive, lex_less, lex_lt};
use crate::event::Event;
use crate::keys::{is_key_entry, is_key_of, lemma_storage_key_is_key_entry, lemma_storage_order, reversed, storage_key, storage_key_of};
use vstd::prelude::*;
use vstd::string::StringSliceAdditionalSpecFns;

verus! {

/// Which stored events a subscription replays before going live.
#[derive(Clone, Copy, Debug, PartialEq, Eq, Structural)]
pub enum ReplayMode {
    /// Every stored event whose sequence is at least the given one.
    Id(u64),
    /// Every stored event, in storage order.
    First,
    /// The newest stored event of each key.
    Last,
}

/// A replay request: none means live events only.
pub type RequestSequence = Option<ReplayMode>;

/// Whether storage key `key` lies in the scanned range of an `Id(s)` replay
/// of key bytes `id`: from the key of sequence `s`, up to but excluding the
/// key of the largest sequence.
pub open spec fn in_id_range(id: Seq<u8>, s: u64, key: Seq<u8>) -> bool {
    !lex_lt(key, storage_key_of(id, s)) && !lex_lt(storage_key_of(id, u64::MAX), key)
}

/// The values of the entries whose keys lie in the range of an `Id(s)` replay.
pub open spec fn values_in_range<V>(id: Seq<u8>, s: u64, entries: Seq<(Vec<u8>, V)>) -> Seq<V>
    decreases entries.len(),
{
    if entries.len() == 0 {
        Seq::empty()
    } else {
        let before = values_in_range(id, s, entries.drop_last());
        if in_id_range(id, s, entries.last().0@) {
            before.push(entries.last().1)
        } else {
            before
        }
    }
}

/// The values of a replay of one key, from the entries under that key's
/// prefix in storage order.
pub open spec fn key_replay<V>(id: Seq<u8>, mode: ReplayMode, entries: Seq<(Vec<u8>, V)>) -> Seq<V> {
    match mode {
        ReplayMode::First => entries.map_values(|e: (Vec<u8>, V)| e.1),
        ReplayMode::Last => if entries.len() == 0 {
            Seq::empty()
        } else {
            seq![entries.last().1]
        },
        ReplayMode::Id(s) => values_in_range(id, s, entries),
    }
}

/// The events that an `Id(s)` replay of a whole queue keeps: those whose
/// sequence is present and at least `s`, in order.
pub open spec fn events_from(s: u64, events: Seq<Event>) -> Seq<Event>
    decreases events.len(),
{
    if events.len() == 0 {
        Seq::empty()
    } else {
        let before = events_from(s, events.drop_last());
        match events.last().sequence {
            Some(c) => if c >= s {
                before.push(events.last())
            } else {
                before
            },
            None => before,
        }
    }
}

/// No later event of `events` has the key of the one at `j`.
#[verifier::opaque]
pub open spec fn is_last_of_key(events: Seq<Event>, j: int) -> bool {
    forall|k: int| j < k < events.len() ==> #[trigger] events[k].key_bytes() != events[j].key_bytes()
}

/// `r` holds, in increasing key order, the newest event of each key of
/// `events`, and nothing else.
pub open spec fn is_newest_per_key(events: Seq<Event>, r: Seq<Event>) -> bool {
    &&& forall|i: int, j: int|
        0 <= i < j < r.len() ==> lex_lt(#[trigger] r[i].key_bytes(), #[trigger] r[j].key_bytes())
    &&& forall|i: int| 0 <= i < r.len() ==> #[trigger] is_newest_event(events, r[i])
    &&& forall|j: int|
        0 <= j < events.len() && #[trigger] is_last_of_key(events, j) ==> contains_event(r, events[j])
}

/// `e` is the newest event of its key in `events`.
pub open spec fn is_newest_event(events: Seq<Event>, e: Event) -> bool {
    exists|j: int| 0 <= j < events.len() && is_last_of_key(events, j) && events[j] == e
}

/// `e` is one of the events of `r`.
pub open spec fn contains_event(r: Seq<Event>, e: Event) -> bool {
    exists|i: int| 0 <= i < r.len() && r[i] == e
}

/// The entries of `entries` whose storage keys belong to the event key `id`.
pub open spec fn key_entries<V>(id: Seq<u8>, entries: Seq<(Vec<u8>, V)>) -> Seq<(Vec<u8>, V)>
    decreases entries.len(),
{
    if entries.len() == 0 {
        Seq::empty()
    } else {
        let before = key_entries(id, entries.drop_last());
        if is_key_entry(id, entries.last().0@) {
            before.push(entries.last())
        } else {
            before
        }
    }
}

fn own_entries<V>(id: &str, entries: Vec<(Vec<u8>, V)>) -> (r: Vec<(Vec<u8>, V)>)
    ensures
        r@ == key_entries(id.spec_bytes(), entries@),
{
    let ghost all = entries@;
    let idb = id.as_bytes();
    let n = entries.len();
    let mut rev = reversed(entries);
    let mut r: Vec<(Vec<u8>, V)> = Vec::new();
    let mut i: usize = 0;
    while i < n
        invariant
            n == all.len(),
            i <= n,
            idb@ == id.spec_bytes(),
            rev@.len() == n - i,
            forall|k: int| 0 <= k < rev@.len() ==> #[trigger] rev@[k] == all[n - 1 - k],
            r@ == key_entries(idb@, all.subrange(0, i as int)),
        decreases n - i,
    {
        let e = rev.pop().unwrap();
        assert(all.subrange(0, i + 1).drop_last() =~= all.subrange(0, i as int));
        assert(all[i as int] == e);
        if is_key_of(idb, e.0.as_slice()) {
            r.push(e);
        }
        i = i + 1;
    }
    assert(all.subrange(0, n as int) =~= all);
    r
}

/// The values of the replay of key `id` in `mode`, from the entries that a
/// scan of the prefix `id` returned, in storage order. Only the entries of
/// `id` itself count (its bytes and eight sequence bytes; not those of a
/// longer key that starts with them): all of them for `First`, the newest
/// for `Last`, and for `Id(s)` those from the key of sequence `s` up to the
/// key of the largest sequence, both included.
pub fn select_key_replay<V>(id: &str, mode: ReplayMode, entries: Vec<(Vec<u8>, V)>) -> (r: Vec<V>)
    ensures
        r@ == key_replay(id.spec_bytes(), mode, key_entries(id.spec_bytes(), entries@)),
{
    let own = own_entries(id, entries);
    select_own_replay(id, mode, own)
}

fn select_own_replay<V>(id: &str, mode: ReplayMode, entries: Vec<(Vec<u8>, V)>) -> (r: Vec<V>)
    ensures
        r@ == key_replay(id.spec_bytes(), mode, entries@),
{
    let ghost all = entries@;
    let ghost idb = id.spec_bytes();
    let n = entries.len();
    let (lo, hi) = match mode {
        ReplayMode::Id(s) => (storage_key(id, s), storage_key(id, u64::MAX)),
        _ => (Vec::new(), Vec::new()),
    };
    if n == 0 {
        let r: Vec<V> = Vec::new();
        proof {
            assert(r@ =~= key_replay(idb, mode, all));
        }
        return r;
    }
    if let ReplayMode::Last = mode {
        let mut entries = entries;
        let (_, v) = entries.pop().unwrap();
        let mut r: Vec<V> = Vec::new();
        r.push(v);
        assert(r@ =~= key_replay(idb, mode, all));
        return r;
    }
    let mut rev = reversed(entries);
    let mut r: Vec<V> = Vec::new();
    let mut i: usize = 0;
    while i < n
        invariant
            n == all.len(),
            i <= n,
            rev@.len() == n - i,
            forall|k: int| 0 <= k < rev@.len() ==> #[trigger] rev@[k] == all[n - 1 - k],
            mode is First ==> r@ == all.subrange(0, i as int).map_values(|e: (Vec<u8>, V)| e.1),
            mode matches ReplayMode::Id(s) ==> (lo@ == storage_key_of(idb, s) && hi@
                == storage_key_of(idb, u64::MAX) && r@ == values_in_range(
                idb,
                s,
                all.subrange(0, i as int),
            )),
            !(mode is Last),
        decreases n - i,
    {
        let (k, v) = rev.pop().unwrap();
        let ghost pre = all.subrange(0, i as int);
        assert(all.subrange(0, i + 1).drop_last() =~= pre);
        assert(all[i as int] == (k, v));
        match mode {
            ReplayMode::Id(_) => {
                if !lex_less(k.as_slice(), lo.as_slice()) && !lex_less(hi.as_slice(), k.as_slice()) {
                    r.push(v);
                }
            },
            _ => {
                r.push(v);
                assert(r@ =~= all.subrange(0, i + 1).map_values(|e: (Vec<u8>, V)| e.1));
            },
        }
        i = i + 1;
    }
    assert(all.subrange(0, n as int) =~= all);
    r
}

/// The events of a replay of a whole queue, from every stored event in
/// storage order: all of them for `First`; those whose sequence is at least
/// `s` for `Id(s)`; for `Last` the newest event of each key, in key order.
pub fn select_queue_replay(mode: ReplayMode, events: Vec<Event>) -> (r: Vec<Event>)
    ensures
        match mode {
            ReplayMode::First => r@ == events@,
            ReplayMode::Id(s) => r@ == events_from(s, events@),
            ReplayMode::Last => is_newest_per_key(events@, r@),
        },
{
    match mode {
        ReplayMode::First => events,
        ReplayMode::Id(s) => filter_from(s, events),
        ReplayMode::Last => newest_per_key(events),
    }
}

fn filter_from(s: u64, events: Vec<Event>) -> (r: Vec<Event>)
    ensures
        r@ == events_from(s, events@),
{
    let ghost all = events@;
    let n = events.len();
    let mut rev = reversed(events);
    let mut r: Vec<Event> = Vec::new();
    let mut i: usize = 0;
    while i < n
        invariant
            n == all.len(),
            i <= n,
            rev@.len() == n - i,
            forall|k: int| 0 <= k < rev@.len() ==> #[trigger] rev@[k] == all[n - 1 - k],
            r@ == events_from(s, all.subrange(0, i as int)),
        decreases n - i,
    {
        let e = rev.pop().unwrap();
        assert(all.subrange(0, i + 1).drop_last() =~= all.subrange(0, i as int));
        assert(all[i as int] == e);
        match e.sequence {
            Some(c) => if c >= s {
                r.push(e);
            },
            None => {},
        }
        i = i + 1;
    }
    assert(all.subrange(0, n as int) =~= all);
    r
}

/// The events of `r` are in strictly increasing key order.
pub open spec fn sorted_by_key(r: Seq<Event>) -> bool {
    forall|i: int, j: int|
        0 <= i < j < r.len() ==> lex_lt(#[trigger] r[i].key_bytes(), #[trigger] r[j].key_bytes())
}

/// Some event of `r` has key bytes `k`.
#[verifier::opaque]
pub open spec fn has_key(r: Seq<Event>, k: Seq<u8>) -> bool {
    exists|i: int| 0 <= i < r.len() && #[trigger] r[i].key_bytes() == k
}

/// Inserts `e` at its place in `r` unless `r` already holds its key.
fn place_by_key(r: &mut Vec<Event>, e: Event) -> (inserted: bool)
    requires
        sorted_by_key(old(r)@),
    ensures
        sorted_by_key(final(r)@),
        inserted == !has_key(old(r)@, e.key_bytes()),
        !inserted ==> final(r)@ == old(r)@,
        inserted ==> exists|p: int| 0 <= p <= old(r)@.len() && final(r)@ == old(r)@.insert(p, e),
{
    reveal(has_key);
    let ghost ek = e.key_bytes();
    let ghost old_r = r@;
    let mut p: usize = 0;
    while p < r.len() && lex_less(r[p].key_slice(), e.key_slice())
        invariant
            r@ == old_r,
            p <= r@.len(),
            ek == e.key_bytes(),
            forall|q: int| 0 <= q < p ==> lex_lt(#[trigger] r@[q].key_bytes(), ek),
        decreases r@.len() - p,
    {
        p = p + 1;
    }
    if p < r.len() && !lex_less(e.key_slice(), r[p].key_slice()) {
        proof {
            lemma_lex_total(ek, r@[p as int].key_bytes());
            assert(r@[p as int].key_bytes() == ek);
        }
        false
    } else {
        proof {
            assert forall|i: int| 0 <= i < old_r.len() implies #[trigger] old_r[i].key_bytes() != ek by {
                if i < p {
                    lemma_lex_irreflexive(ek);
                } else {
                    let pk = old_r[p as int].key_bytes();
                    lemma_lex_total(ek, pk);
                    if i > p {
                        lemma_lex_transitive(ek, pk, old_r[i].key_bytes());
                    }
                    lemma_lex_irreflexive(ek);
                }
            }
        }
        r.insert(p, e);
        proof {
            assert forall|i: int, j: int|
                0 <= i < j < r@.len() implies lex_lt(#[trigger] r@[i].key_bytes(), #[trigger] r@[j].key_bytes()) by {
                if i < p && j == p {
                } else if i < p && j > p {
                    assert(r@[j] == old_r[j - 1]);
                } else if i == p {
                    let pk = old_r[p as int].key_bytes();
                    lemma_lex_total(ek, pk);
                    assert(r@[j] == old_r[j - 1]);
                    if j - 1 > p {
                        lemma_lex_transitive(ek, pk, old_r[j - 1].key_bytes());
                    }
                } else if j < p {
                    assert(r@[i] == old_r[i]);
                    assert(r@[j] == old_r[j]);
                } else {
                    assert(r@[i] == old_r[i - 1]);
                    assert(r@[j] == old_r[j - 1]);
                }
            }
        }
        true
    }
}

/// The event at `i` of `r` is the newest of its key among the events of
/// `all` from `m` on.
#[verifier::opaque]
spec fn from_newest(all: Seq<Event>, r: Seq<Event>, m: int, i: int) -> bool {
    exists|j: int| m <= j < all.len() && is_last_of_key(all, j) && r[i] == all[j]
}

/// `e` is one of the events of `r`.
#[verifier::opaque]
spec fn in_result(r: Seq<Event>, e: Event) -> bool {
    exists|i: int| 0 <= i < r.len() && r[i] == e
}

/// What the newest-per-key scan has established once the events from `m`
/// on have been taken.
spec fn scan_inv(all: Seq<Event>, r: Seq<Event>, m: int) -> bool {
    &&& sorted_by_key(r)
    &&& forall|i: int| 0 <= i < r.len() ==> #[trigger] from_newest(all, r, m, i)
    &&& forall|j: int| m <= j < all.len() ==> #[trigger] has_key(r, all[j].key_bytes())
    &&& forall|j: int|
        m <= j < all.len() && #[trigger] is_last_of_key(all, j) ==> in_result(r, all[j])
}

proof fn lemma_scan_skip(all: Seq<Event>, r: Seq<Event>, j0: int)
    requires
        0 <= j0 < all.len(),
        scan_inv(all, r, j0 + 1),
        has_key(r, all[j0].key_bytes()),
    ensures
        scan_inv(all, r, j0),
{
    let n = all.len();
    let ek = all[j0].key_bytes();
    assert forall|i: int| 0 <= i < r.len() implies #[trigger] from_newest(all, r, j0, i) by {
        assert(from_newest(all, r, j0 + 1, i));
        reveal(from_newest);
        let j = choose|j: int| j0 + 1 <= j < all.len() && is_last_of_key(all, j) && r[i] == all[j];
        assert(j0 <= j < all.len() && is_last_of_key(all, j) && r[i] == all[j]);
    }
    assert(!is_last_of_key(all, j0)) by {
        reveal(has_key);
        let i = choose|i: int| 0 <= i < r.len() && #[trigger] r[i].key_bytes() == ek;
        assert(from_newest(all, r, j0 + 1, i));
        reveal(from_newest);
        let jj = choose|jj: int| j0 + 1 <= jj < n && is_last_of_key(all, jj) && r[i] == all[jj];
        reveal(is_last_of_key);
        assert(all[jj].key_bytes() == all[j0].key_bytes());
    }
}

proof fn lemma_scan_insert(all: Seq<Event>, old_r: Seq<Event>, r: Seq<Event>, j0: int, p: int)
    requires
        0 <= j0 < all.len(),
        scan_inv(all, old_r, j0 + 1),
        sorted_by_key(r),
        !has_key(old_r, all[j0].key_bytes()),
        0 <= p <= old_r.len(),
        r == old_r.insert(p, all[j0]),
    ensures
        scan_inv(all, r, j0),
{
    let n = all.len();
    let ek = all[j0].key_bytes();
    assert(is_last_of_key(all, j0)) by {
        reveal(is_last_of_key);
        assert forall|k: int| j0 < k < n implies #[trigger] all[k].key_bytes() != ek by {
            assert(has_key(old_r, all[k].key_bytes()));
        }
    }
    assert(r[p] == all[j0]);
    assert forall|i: int| 0 <= i < r.len() implies #[trigger] from_newest(all, r, j0, i) by {
        reveal(from_newest);
        if i == p {
            assert(j0 <= j0 < n && is_last_of_key(all, j0) && r[i] == all[j0]);
        } else {
            let i0 = if i < p { i } else { i - 1 };
            assert(r[i] == old_r[i0]);
            assert(from_newest(all, old_r, j0 + 1, i0));
            let j = choose|j: int| j0 + 1 <= j < all.len() && is_last_of_key(all, j) && old_r[i0] == all[j];
            assert(j0 <= j < all.len() && is_last_of_key(all, j) && r[i] == all[j]);
        }
    }
    assert forall|j: int| j0 <= j < n implies #[trigger] has_key(r, all[j].key_bytes()) by {
        reveal(has_key);
        if j == j0 {
            assert(r[p].key_bytes() == all[j].key_bytes());
        } else {
            assert(has_key(old_r, all[j].key_bytes()));
            let i = choose|i: int| 0 <= i < old_r.len() && #[trigger] old_r[i].key_bytes() == all[j].key_bytes();
            if i < p {
                assert(r[i] == old_r[i]);
            } else {
                assert(r[i + 1] == old_r[i]);
            }
        }
    }
    assert forall|j: int| j0 <= j < n && #[trigger] is_last_of_key(all, j) implies in_result(r, all[j]) by {
        reveal(in_result);
        if j == j0 {
            assert(r[p] == all[j]);
        } else {
            assert(in_result(old_r, all[j]));
            let i = choose|i: int| 0 <= i < old_r.len() && old_r[i] == all[j];
            if i < p {
                assert(r[i] == old_r[i]);
            } else {
                assert(r[i + 1] == old_r[i]);
            }
        }
    }
}

proof fn lemma_scan_done(all: Seq<Event>, r: Seq<Event>)
    requires
        scan_inv(all, r, 0),
    ensures
        is_newest_per_key(all, r),
{
    assert forall|i: int| 0 <= i < r.len() implies #[trigger] is_newest_event(all, r[i]) by {
        assert(from_newest(all, r, 0, i));
        reveal(from_newest);
    }
    assert forall|j: int| 0 <= j < all.len() && #[trigger] is_last_of_key(all, j) implies contains_event(r, all[j]) by {
        assert(in_result(r, all[j]));
        reveal(in_result);
    }
}

fn newest_per_key(events: Vec<Event>) -> (r: Vec<Event>)
    ensures
        is_newest_per_key(events@, r@),
{
    let ghost all = events@;
    let n = events.len();
    let mut evs = events;
    let mut r: Vec<Event> = Vec::new();
    while evs.len() > 0
        invariant
            n == all.len(),
            evs@.len() <= n,
            evs@ == all.subrange(0, evs@.len() as int),
            scan_inv(all, r@, evs@.len() as int),
        decreases evs@.len(),
    {
        let ghost old_r = r@;
        let ghost j0 = (evs@.len() - 1) as int;
        assert(all[j0] == evs@[j0]);
        let e = evs.pop().unwrap();
        assert(evs@ =~= all.subrange(0, j0));
        let inserted = place_by_key(&mut r, e);
        proof {
            if inserted {
                let p = choose|p: int| 0 <= p <= old_r.len() && r@ == old_r.insert(p, all[j0]);
                lemma_scan_insert(all, old_r, r@, j0, p);
            } else {
                lemma_scan_skip(all, r@, j0);
            }
        }
    }
    proof {
        lemma_scan_done(all, r@);
    }
    r
}

proof fn lemma_newest_exists(events: Seq<Event>, j: int)
    requires
        0 <= j < events.len(),
    ensures
        exists|k: int|
            j <= k < events.len() && is_last_of_key(events, k) && #[trigger] events[k].key_bytes()
                == events[j].key_bytes(),
    decreases events.len() - j,
{
    if !is_last_of_key(events, j) {
        reveal(is_last_of_key);
        let k = choose|k: int| j < k < events.len() && #[trigger] events[k].key_bytes() == events[j].key_bytes();
        lemma_newest_exists(events, k);
    } else {
        assert(events[j].key_bytes() == events[j].key_bytes());
    }
}

/// A `Last` replay of a whole queue holds exactly one event for each key
/// present among the stored events.
pub proof fn lemma_last_one_per_key(events: Seq<Event>, r: Seq<Event>)
    requires
        is_newest_per_key(events, r),
    ensures
        forall|i: int, j: int|
            0 <= i < j < r.len() ==> #[trigger] r[i].key_bytes() != #[trigger] r[j].key_bytes(),
        forall|j: int| 0 <= j < events.len() ==> has_key(r, #[trigger] events[j].key_bytes()),
{
    assert forall|i: int, j: int| 0 <= i < j < r.len() implies #[trigger] r[i].key_bytes()
        != #[trigger] r[j].key_bytes() by {
        lemma_lex_irreflexive(r[i].key_bytes());
    }
    assert forall|j: int| 0 <= j < events.len() implies has_key(r, #[trigger] events[j].key_bytes()) by {
        reveal(has_key);
        lemma_newest_exists(events, j);
        let k = choose|k: int|
            j <= k < events.len() && is_last_of_key(events, k) && #[trigger] events[k].key_bytes()
                == events[j].key_bytes();
        assert(contains_event(r, events[k]));
        let i = choose|i: int| 0 <= i < r.len() && r[i] == events[k];
        assert(r[i].key_bytes() == events[j].key_bytes());
    }
}

/// An `Id(s)` replay of a whole queue whose stored sequences are all below
/// `s` replays nothing.
pub proof fn lemma_id_past_end_queue(s: u64, events: Seq<Event>)
    requires
        forall|i: int| 0 <= i < events.len() ==> match #[trigger] events[i].sequence {
            Some(c) => c < s,
            None => true,
        },
    ensures
        events_from(s, events).len() == 0,
    decreases events.len(),
{
    if events.len() > 0 {
        let p = events.drop_last();
        assert forall|i: int| 0 <= i < p.len() implies match #[trigger] p[i].sequence {
            Some(c) => c < s,
            None => true,
        } by {
            assert(p[i] == events[i]);
        }
        lemma_id_past_end_queue(s, p);
        assert(events.last() == events[events.len() - 1]);
    }
}

/// `key` is the storage key of key bytes `id` with a sequence below `s`.
pub open spec fn stored_below(id: Seq<u8>, s: u64, key: Seq<u8>) -> bool {
    exists|c: u64| c < s && key == storage_key_of(id, c)
}

/// An `Id(s)` replay of one key whose stored sequences are all below `s`
/// replays nothing.
pub proof fn lemma_id_past_end_key<V>(id: Seq<u8>, s: u64, entries: Seq<(Vec<u8>, V)>)
    requires
        forall|i: int| 0 <= i < entries.len() ==> stored_below(id, s, #[trigger] entries[i].0@),
    ensures
        values_in_range(id, s, entries).len() == 0,
    decreases entries.len(),
{
    if entries.len() > 0 {
        let p = entries.drop_last();
        assert forall|i: int| 0 <= i < p.len() implies stored_below(id, s, #[trigger] p[i].0@) by {
            assert(p[i] == entries[i]);
        }
        lemma_id_past_end_key(id, s, p);
        let n = entries.len() - 1;
        assert(entries.last() == entries[n]);
        let c = choose|c: u64| c < s && entries[n].0@ == #[trigger] storage_key_of(id, c);
        lemma_storage_order(id, c, s);
    }
}

/// The entries that remain once the entries of the event key `id` are deleted.
pub open spec fn without_key<V>(id: Seq<u8>, entries: Seq<(Vec<u8>, V)>) -> Seq<(Vec<u8>, V)>
    decreases entries.len(),
{
    if entries.len() == 0 {
        Seq::empty()
    } else {
        let before = without_key(id, entries.drop_last());
        if is_key_entry(id, entries.last().0@) {
            before
        } else {
            before.push(entries.last())
        }
    }
}

/// After the entries of the event key `id` are deleted, a replay of `id`
/// finds none of them, and a replay of any other key finds exactly the
/// entries it found before.
pub proof fn lemma_delete_key<V>(id: Seq<u8>, other: Seq<u8>, entries: Seq<(Vec<u8>, V)>)
    ensures
        key_entries(id, without_key(id, entries)).len() == 0,
        other != id ==> key_entries(other, without_key(id, entries)) == key_entries(other, entries),
    decreases entries.len(),
{
    if entries.len() > 0 {
        let p = entries.drop_last();
        let e = entries.last();
        lemma_delete_key(id, other, p);
        let w = without_key(id, p);
        if !is_key_entry(id, e.0@) {
            assert(w.push(e).drop_last() =~= w);
        } else if other != id && is_key_entry(other, e.0@) {
            assert(e.0@.subrange(0, id.len() as int) =~= e.0@.subrange(0, other.len() as int));
        }
    }
}

/// An entry stored under a storage key of `id` is among the values that a
/// `First` replay of `id` yields.
pub proof fn lemma_first_replays_stored<V>(id: Seq<u8>, s: u64, v: V, entries: Seq<(Vec<u8>, V)>, j: int)
    requires
        0 <= j < entries.len(),
        entries[j].0@ == storage_key_of(id, s),
        entries[j].1 == v,
    ensures
        key_replay(id, ReplayMode::First, key_entries(id, entries)).contains(v),
    decreases entries.len(),
{
    let own = key_entries(id, entries);
    let p = entries.drop_last();
    lemma_storage_key_is_key_entry(id, s);
    if j < entries.len() - 1 {
        assert(p[j] == entries[j]);
        lemma_first_replays_stored(id, s, v, p, j);
        let q = key_entries(id, p);
        let qs = q.map_values(|e: (Vec<u8>, V)| e.1);
        let k = choose|k: int| 0 <= k < qs.len() && #[trigger] qs[k] == v;
        if is_key_entry(id, entries.last().0@) {
            assert(own == q.push(entries.last()));
            assert(own.map_values(|e: (Vec<u8>, V)| e.1)[k] == v);
        } else {
            assert(own == q);
        }
    } else {
        assert(own == key_entries(id, p).push(entries[j]));
        assert(own.map_values(|e: (Vec<u8>, V)| e.1)[own.len() - 1] == v);
    }
}

/// Marks the final event of a replay as the end of the batch and every
/// other one as not, and counts the events replayed. Without a replay there
/// is nothing to mark or count.
pub fn finish_replay(items: Option<Vec<Event>>) -> (r: (Option<Vec<Event>>, Option<usize>))
    ensures
        match items {
            None => r.0 is None && r.1 is None,
            Some(v) => r.1 == Some(v@.len() as usize) && (r.0 matches Some(w) && w@.len() == v@.len()
                && forall|i: int|
                0 <= i < v@.len() ==> #[trigger] w@[i] == (Event { last: i == v@.len() - 1, ..v@[i] })),
        },
{
    match items {
        None => (None, None),
        Some(v) => {
            let ghost all = v@;
            let n = v.len();
            let mut rev = reversed(v);
            let mut w: Vec<Event> = Vec::new();
            let mut i: usize = 0;
            while i < n
                invariant
                    n == all.len(),
                    i <= n,
                    rev@.len() == n - i,
                    forall|k: int| 0 <= k < rev@.len() ==> #[trigger] rev@[k] == all[n - 1 - k],
                    w@.len() == i,
                    forall|k: int|
                        0 <= k < i ==> #[trigger] w@[k] == (Event { last: k == n - 1, ..all[k] }),
                decreases n - i,
            {
                let mut e = rev.pop().unwrap();
                assert(all[i as int] == e);
                e.set_last(i + 1 == n);
                w.push(e);
                i = i + 1;
            }
            (Some(w), Some(n))
        },
    }
}

} // verus!
