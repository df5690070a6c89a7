use sonya::bytes::{decode_be64, encode_be64, lex_less};
use sonya::event::{Event, QueueError};
use sonya::keys::{check_queue_name, counter_key, keys_of, next_counter, sequence_from_counter, storage_key};
use sonya::publish::{start_publish, with_sequence, PublishStep};
use sonya::replay::{finish_replay, select_key_replay, select_queue_replay, ReplayMode};
use sonya::retention::{persists, trim_plan};
use sonya::stitch::Stitcher;
use std::collections::BTreeMap;

/// An ordered byte-keyed map standing in for one queue's tree, plus the
/// counter namespace.
struct Store {
    tree: BTreeMap<Vec<u8>, Event>,
    counters: BTreeMap<Vec<u8>, Vec<u8>>,
    exists: bool,
    max_key_updates: Option<usize>,
}

impl Store {
    fn new(max_key_updates: Option<usize>) -> Store {
        Store { tree: BTreeMap::new(), counters: BTreeMap::new(), exists: true, max_key_updates }
    }

    fn prefix_keys(&self, prefix: &[u8]) -> Vec<Vec<u8>> {
        self.tree.keys().filter(|k| k.starts_with(prefix)).cloned().collect()
    }

    fn publish(&mut self, mut ev: Event) -> (bool, Option<u64>) {
        let step = match start_publish(self.exists, &ev, self.max_key_updates) {
            PublishStep::Rejected => return (false, None),
            PublishStep::Allocate => {
                let ck = counter_key("q", ev.get_id());
                let next = next_counter(self.counters.get(&ck).map(|v| v.as_slice()));
                self.counters.insert(ck.clone(), next);
                let seq = sequence_from_counter(self.counters.get(&ck).map(|v| v.as_slice())).unwrap();
                with_sequence(&mut ev, seq, self.max_key_updates)
            }
            step => step,
        };
        let seq = ev.get_sequence();
        if let PublishStep::Store(key) = step {
            self.tree.insert(key, ev.clone());
            let keys = self.prefix_keys(ev.get_id().as_bytes());
            for k in trim_plan(self.max_key_updates, ev.get_id(), keys) {
                self.tree.remove(&k);
            }
        }
        (true, seq)
    }

    fn key_replay(&self, id: &str, mode: ReplayMode) -> (Option<Vec<Event>>, Option<usize>) {
        let entries: Vec<(Vec<u8>, Event)> = self
            .tree
            .iter()
            .filter(|(k, _)| k.starts_with(id.as_bytes()))
            .map(|(k, v)| (k.clone(), v.clone()))
            .collect();
        finish_replay(Some(select_key_replay(id, mode, entries)))
    }

    fn queue_replay(&self, mode: ReplayMode) -> Vec<Event> {
        let events: Vec<Event> = self.tree.values().cloned().collect();
        select_queue_replay(mode, events)
    }

    fn delete_key(&mut self, id: &str) {
        for k in keys_of(id, self.prefix_keys(id.as_bytes())) {
            self.tree.remove(&k);
        }
    }
}

fn ev(id: &str, body: &str) -> Event {
    Event::new(id.to_string(), None, body.to_string())
}

#[test]
fn retention_keeps_two_newest() {
    let mut s = Store::new(Some(2));
    assert_eq!(s.publish(ev("a", "x1")), (true, Some(1)));
    assert_eq!(s.publish(ev("a", "x2")), (true, Some(2)));
    assert_eq!(s.publish(ev("a", "x3")), (true, Some(3)));
    let (items, count) = s.key_replay("a", ReplayMode::First);
    let items = items.unwrap();
    assert_eq!(count, Some(2));
    assert_eq!(items.len(), 2);
    assert_eq!((items[0].sequence, items[0].body.as_str(), items[0].last), (Some(2), "x2", false));
    assert_eq!((items[1].sequence, items[1].body.as_str(), items[1].last), (Some(3), "x3", true));
}

fn five_and_three() -> Store {
    let mut s = Store::new(None);
    for i in 0..5 {
        s.publish(ev("a", &format!("a{}", i)));
    }
    for i in 0..3 {
        s.publish(ev("b", &format!("b{}", i)));
    }
    s
}

#[test]
fn last_replay_of_queue_gives_one_per_key() {
    let s = five_and_three();
    let r = s.queue_replay(ReplayMode::Last);
    assert_eq!(r.len(), 2);
    assert_eq!((r[0].id.as_str(), r[0].sequence), ("a", Some(5)));
    assert_eq!((r[1].id.as_str(), r[1].sequence), ("b", Some(3)));
}

#[test]
fn zero_cap_stores_nothing() {
    let mut s = Store::new(Some(0));
    assert!(!persists(Some(0)));
    assert_eq!(s.publish(ev("k", "v")), (true, Some(1)));
    assert!(s.tree.is_empty());
    let (items, count) = s.key_replay("k", ReplayMode::First);
    assert_eq!(items.unwrap().len(), 0);
    assert_eq!(count, Some(0));
}

#[test]
fn delete_key_leaves_other_keys() {
    let mut s = five_and_three();
    s.delete_key("a");
    let r = s.queue_replay(ReplayMode::First);
    assert_eq!(r.len(), 3);
    for (i, e) in r.iter().enumerate() {
        assert_eq!(e.id, "b");
        assert_eq!(e.sequence, Some(i as u64 + 1));
    }
    assert_eq!(s.key_replay("a", ReplayMode::First).0.unwrap().len(), 0);
}

#[test]
fn interleaved_producers_get_distinct_increasing_sequences() {
    let mut s = Store::new(None);
    let mut seen = Vec::new();
    for i in 0..2000 {
        let producer = if i % 2 == 0 { "p1" } else { "p2" };
        let (ok, seq) = s.publish(ev("k", producer));
        assert!(ok);
        seen.push(seq.unwrap());
    }
    let stored: Vec<u64> = s.queue_replay(ReplayMode::First).iter().map(|e| e.sequence.unwrap()).collect();
    let expected: Vec<u64> = (1..=2000).collect();
    assert_eq!(seen, expected);
    assert_eq!(stored, expected);
}

#[test]
fn publish_to_missing_queue_is_rejected() {
    let mut s = Store::new(None);
    s.exists = false;
    assert_eq!(s.publish(ev("a", "x")), (false, None));
    assert!(s.tree.is_empty());
    assert!(s.counters.is_empty());
}

#[test]
fn id_replay_past_end_is_empty() {
    let s = five_and_three();
    assert_eq!(s.key_replay("a", ReplayMode::Id(6)).0.unwrap().len(), 0);
    assert_eq!(s.queue_replay(ReplayMode::Id(6)).len(), 0);
    let from3: Vec<u64> = s.key_replay("a", ReplayMode::Id(3)).0.unwrap().iter().map(|e| e.sequence.unwrap()).collect();
    assert_eq!(from3, vec![3, 4, 5]);
    let all3: Vec<u64> = s.queue_replay(ReplayMode::Id(3)).iter().map(|e| e.sequence.unwrap()).collect();
    assert_eq!(all3, vec![3, 4, 5, 3]);
}

#[test]
fn last_replay_of_key_is_newest() {
    let s = five_and_three();
    let (items, count) = s.key_replay("b", ReplayMode::Last);
    let items = items.unwrap();
    assert_eq!(count, Some(1));
    assert_eq!((items[0].sequence, items[0].body.as_str(), items[0].last), (Some(3), "b2", true));
}

#[test]
fn cap_of_three_keeps_newest_three() {
    let mut s = Store::new(Some(3));
    for i in 0..10 {
        s.publish(ev("a", &format!("{}", i)));
        assert!(s.prefix_keys(b"a").len() <= 3);
    }
    let seqs: Vec<u64> = s.queue_replay(ReplayMode::First).iter().map(|e| e.sequence.unwrap()).collect();
    assert_eq!(seqs, vec![8, 9, 10]);
}

#[test]
fn first_replay_round_trips_event() {
    let mut s = Store::new(None);
    let e = Event::new("k".to_string(), Some(42), "payload".to_string());
    assert_eq!(s.publish(e), (true, Some(42)));
    let (items, _) = s.key_replay("k", ReplayMode::First);
    let items = items.unwrap();
    assert_eq!(items.len(), 1);
    assert_eq!((items[0].id.as_str(), items[0].sequence, items[0].body.as_str()), ("k", Some(42), "payload"));
}

#[test]
fn last_replay_later_duplicate_wins() {
    let events = vec![
        Event::new("b".to_string(), Some(1), "b1".to_string()),
        Event::new("a".to_string(), Some(7), "a7".to_string()),
        Event::new("b".to_string(), Some(2), "b2".to_string()),
        Event::new("a".to_string(), Some(3), "a3".to_string()),
        Event::new("ab".to_string(), Some(1), "ab1".to_string()),
    ];
    let r = select_queue_replay(ReplayMode::Last, events);
    let got: Vec<(&str, &str)> = r.iter().map(|e| (e.id.as_str(), e.body.as_str())).collect();
    assert_eq!(got, vec![("a", "a3"), ("ab", "ab1"), ("b", "b2")]);
}

#[test]
fn id_replay_of_queue_skips_missing_sequences() {
    let events = vec![
        Event::new("a".to_string(), None, "n".to_string()),
        Event::new("a".to_string(), Some(4), "x".to_string()),
        Event::new("a".to_string(), Some(2), "y".to_string()),
    ];
    let r = select_queue_replay(ReplayMode::Id(3), events);
    assert_eq!(r.len(), 1);
    assert_eq!(r[0].body, "x");
}

#[test]
fn no_replay_has_no_count() {
    let (items, count) = finish_replay(None);
    assert!(items.is_none());
    assert!(count.is_none());
}

#[test]
fn be64_encoding_exact() {
    assert_eq!(encode_be64(0x0102_0304_0506_0708), vec![1, 2, 3, 4, 5, 6, 7, 8]);
    assert_eq!(encode_be64(1), vec![0, 0, 0, 0, 0, 0, 0, 1]);
    assert_eq!(encode_be64(u64::MAX), vec![255; 8]);
    assert_eq!(decode_be64(&[0, 0, 0, 0, 0, 0, 1, 0]), Some(256));
    assert_eq!(decode_be64(&[1, 2, 3]), None);
    assert_eq!(decode_be64(&encode_be64(123_456_789)), Some(123_456_789));
}

#[test]
fn byte_order_of_keys() {
    assert!(lex_less(b"a", b"b"));
    assert!(lex_less(b"a", b"ab"));
    assert!(!lex_less(b"ab", b"a"));
    assert!(!lex_less(b"a", b"a"));
    assert!(lex_less(&storage_key("k", 255), &storage_key("k", 256)));
}

#[test]
fn storage_and_counter_keys() {
    assert_eq!(storage_key("ab", 2), vec![b'a', b'b', 0, 0, 0, 0, 0, 0, 0, 2]);
    assert_eq!(counter_key("q", "k"), b"id_qk".to_vec());
}

#[test]
fn counter_steps() {
    assert_eq!(next_counter(None), encode_be64(1));
    assert_eq!(next_counter(Some(&encode_be64(41))), encode_be64(42));
    assert_eq!(next_counter(Some(&encode_be64(u64::MAX))), encode_be64(1));
    assert_eq!(next_counter(Some(&[1, 2])), encode_be64(1));
    assert_eq!(sequence_from_counter(Some(&encode_be64(9))).unwrap(), 9);
    assert!(matches!(sequence_from_counter(Some(&encode_be64(0))), Err(QueueError::ZeroSequence)));
    assert!(matches!(sequence_from_counter(Some(&[7])), Err(QueueError::ZeroSequence)));
    assert!(matches!(sequence_from_counter(None), Err(QueueError::ZeroSequence)));
}

#[test]
fn trim_plan_drops_oldest() {
    let keys: Vec<Vec<u8>> = (1..=4).map(|s| storage_key("k", s)).collect();
    let k = |s: u64| storage_key("k", s);
    assert_eq!(trim_plan(Some(3), "k", keys.clone()), vec![k(1)]);
    assert_eq!(trim_plan(Some(4), "k", keys.clone()), Vec::<Vec<u8>>::new());
    assert_eq!(trim_plan(Some(1), "k", keys.clone()), vec![k(1), k(2), k(3)]);
    assert_eq!(trim_plan(None, "k", keys), Vec::<Vec<u8>>::new());
    let mixed = vec![k(1), storage_key("kk", 1), k(2), storage_key("kk", 2)];
    assert_eq!(trim_plan(Some(1), "k", mixed), vec![k(1)]);
}

#[test]
fn key_replay_excludes_largest_sequence_and_other_ranges() {
    let entries = vec![
        (storage_key("a", 1), 1u32),
        (storage_key("a", 5), 5),
        (storage_key("a", u64::MAX), 9),
    ];
    assert_eq!(select_key_replay("a", ReplayMode::Id(2), entries.clone()), vec![5, 9]);
    assert_eq!(select_key_replay("a", ReplayMode::Id(6), entries.clone()), vec![9]);
    assert_eq!(select_key_replay("a", ReplayMode::First, entries.clone()), vec![1, 5, 9]);
    assert_eq!(select_key_replay("a", ReplayMode::Last, entries), vec![9]);
    assert_eq!(select_key_replay::<u32>("a", ReplayMode::Last, vec![]), Vec::<u32>::new());
}

#[test]
fn publish_steps() {
    let e = Event::new("k".to_string(), Some(3), "v".to_string());
    assert!(matches!(start_publish(false, &e, None), PublishStep::Rejected));
    assert!(matches!(start_publish(true, &e, Some(0)), PublishStep::Broadcast));
    match start_publish(true, &e, Some(2)) {
        PublishStep::Store(k) => assert_eq!(k, storage_key("k", 3)),
        other => panic!("unexpected {:?}", other),
    }
    let mut n = ev("k", "v");
    assert!(matches!(start_publish(true, &n, None), PublishStep::Allocate));
    match with_sequence(&mut n, 7, None) {
        PublishStep::Store(k) => assert_eq!(k, storage_key("k", 7)),
        other => panic!("unexpected {:?}", other),
    }
    assert_eq!(n.sequence, Some(7));
    let z = Event::new("k".to_string(), Some(0), "v".to_string());
    assert!(matches!(start_publish(true, &z, None), PublishStep::Allocate));
}

#[test]
fn stitcher_drops_replayed_live_events() {
    let replayed = vec![
        Event::new("a".to_string(), Some(1), "x".to_string()),
        Event::new("a".to_string(), Some(2), "y".to_string()),
    ];
    let st = Stitcher::new(&replayed);
    assert!(!st.forward(&Event::new("a".to_string(), Some(2), "y".to_string())));
    assert!(st.forward(&Event::new("a".to_string(), Some(3), "z".to_string())));
    assert!(st.forward(&Event::new("b".to_string(), Some(1), "x".to_string())));
    assert!(Stitcher::new(&Vec::new()).forward(&replayed[0]));
}

#[test]
fn key_replay_ignores_longer_keys_with_same_prefix() {
    let entries = vec![
        (storage_key("a", 1), "a1"),
        (storage_key("a", 2), "a2"),
        (storage_key("ab", 1), "ab1"),
    ];
    assert_eq!(select_key_replay("a", ReplayMode::First, entries.clone()), vec!["a1", "a2"]);
    assert_eq!(select_key_replay("a", ReplayMode::Last, entries.clone()), vec!["a2"]);
    assert_eq!(select_key_replay("a", ReplayMode::Id(1), entries), vec!["a1", "a2"]);
}

#[test]
fn delete_selects_only_own_keys() {
    let keys = vec![storage_key("a", 1), storage_key("ab", 1), storage_key("a", 9), b"a".to_vec()];
    assert_eq!(keys_of("a", keys), vec![storage_key("a", 1), storage_key("a", 9)]);
    let mut s = Store::new(None);
    s.publish(ev("a", "1"));
    s.publish(ev("ab", "2"));
    s.delete_key("a");
    let left: Vec<String> = s.queue_replay(ReplayMode::First).iter().map(|e| e.id.clone()).collect();
    assert_eq!(left, vec!["ab".to_string()]);
}

#[test]
fn finish_replay_marks_only_last() {
    let mut first = Event::new("a".to_string(), Some(1), "x".to_string());
    first.set_last(true);
    let items = vec![first, Event::new("a".to_string(), Some(2), "y".to_string())];
    let (w, count) = finish_replay(Some(items));
    let w = w.unwrap();
    assert_eq!(count, Some(2));
    assert!(!w[0].last);
    assert!(w[1].last);
    assert_eq!(w[0].body, "x");
}

#[test]
fn reserved_queue_names_are_refused() {
    assert!(matches!(check_queue_name("id_q"), Err(QueueError::SystemQueueName)));
    assert!(check_queue_name("queue").is_ok());
    assert!(check_queue_name("id").is_ok());
    assert!(check_queue_name("").is_ok());
}
