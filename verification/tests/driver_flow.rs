use mini_pd::command::Command;
use mini_pd::driver::{Action, Driver, FailReason, ReadState, ReadyInfo, Reply};
use mini_pd::engine::MemEngine;
use mini_pd::keys::address_key;
use mini_pd::state::{Entry, EntryKind};
use mini_pd::store::{bootstrap, open, StorageError};

fn empty_ready(number: u64, leader: u64) -> ReadyInfo {
    ReadyInfo {
        number,
        leader_id: leader,
        committed: Vec::new(),
        messages: Vec::new(),
        persisted_messages: Vec::new(),
        read_states: Vec::new(),
        hard_state: None,
        new_entries: Vec::new(),
        must_sync: false,
    }
}

fn put_entry(index: u64, term: u64, key: &[u8], value: &[u8]) -> Entry {
    let (context, data) = Command::Put { key: key.to_vec(), value: value.to_vec() }
        .into_proposal();
    Entry { index, term, kind: EntryKind::Normal, context, data }
}

fn singleton_driver() -> Driver {
    let mut engine = MemEngine::new();
    bootstrap(&mut engine, &vec![1], 1, &vec![(1, b"127.0.0.1:2379".to_vec())]);
    let store = open(&engine, 1).expect("bootstrapped engine must open");
    assert!(store.singleton());
    Driver::new(store, engine, 0)
}

fn find_notify(actions: &[Action], notifier: u64) -> Option<&Reply> {
    actions.iter().find_map(|a| match a {
        Action::Notify { notifier: n, reply } if *n == notifier => Some(reply),
        _ => None,
    })
}

fn count_syncs(actions: &[Action]) -> usize {
    actions.iter().filter(|a| matches!(a, Action::Sync)).count()
}

#[test]
fn singleton_autocommit_put_then_snapshot() {
    let mut d = singleton_driver();
    assert_eq!(d.store.apply.applied_index, 1);

    // propose Put(D|k, v); the core assigns (term 1, index 2)
    let acts = d.on_propose_result(true, 1, 2, Some(7));
    assert!(acts.is_empty());

    let e = put_entry(2, 1, b"Dk", b"v");
    let mut ready = empty_ready(1, 1);
    ready.new_entries = vec![put_entry(2, 1, b"Dk", b"v")];
    ready.committed = vec![e];
    ready.must_sync = true;
    let acts = d.process_ready(0, Some(ready));
    assert!(matches!(find_notify(&acts, 7), Some(Reply::Success)));
    // durability demanded: the cycle ends with exactly one sync
    assert_eq!(count_syncs(&acts), 1);
    assert_eq!(d.store.apply.applied_index, 2);

    // a snapshot read at read index 2 resolves at once and sees the put
    let ctx = d.handle_snapshot_request(8, 0);
    let mut ready = empty_ready(2, 1);
    ready.read_states = vec![ReadState { ctx, index: 2 }];
    let acts = d.process_ready(0, Some(ready));
    match find_notify(&acts, 8) {
        Some(Reply::Snapshot(snap)) => {
            assert_eq!(snap.get(&b"Dk".to_vec()), Some(b"v".to_vec()));
        }
        other => panic!("expected a snapshot reply, got {:?}", other.is_some()),
    }
}

#[test]
fn invalid_key_rejected_but_log_consistent() {
    let mut d = singleton_driver();
    // a put into the reserved hard-state row is refused at apply time
    d.on_propose_result(true, 1, 2, Some(9));
    let mut ready = empty_ready(1, 1);
    ready.committed = vec![put_entry(2, 1, b"H", b"x")];
    let acts = d.process_ready(0, Some(ready));
    assert!(matches!(find_notify(&acts, 9), Some(Reply::Fail(FailReason::InvalidKey))));
    // the entry is still applied: the applied index advances
    assert_eq!(d.store.apply.applied_index, 2);
    // the reserved row is untouched
    assert_eq!(d.engine.get(&b"H".to_vec()).map(|v| v.len()), Some(24));

    // a follow-up valid put still succeeds
    d.on_propose_result(true, 1, 3, Some(10));
    let mut ready = empty_ready(2, 1);
    ready.committed = vec![put_entry(3, 1, b"Dk", b"v")];
    let acts = d.process_ready(0, Some(ready));
    assert!(matches!(find_notify(&acts, 10), Some(Reply::Success)));
    assert_eq!(d.store.apply.applied_index, 3);
}

#[test]
fn read_waits_for_apply() {
    let mut d = singleton_driver();
    // a read at index 2 arrives while only index 1 is applied: it queues
    let ctx = d.handle_snapshot_request(12, 0);
    d.on_tick(true);
    let mut ready = empty_ready(1, 1);
    ready.read_states = vec![ReadState { ctx, index: 2 }];
    let acts = d.process_ready(0, Some(ready));
    assert!(find_notify(&acts, 12).is_none());

    // once index 2 applies, the read resolves and observes the put
    d.on_propose_result(true, 1, 2, Some(13));
    let mut ready = empty_ready(2, 1);
    ready.committed = vec![put_entry(2, 1, b"Dk", b"v2")];
    let acts = d.process_ready(0, Some(ready));
    match find_notify(&acts, 12) {
        Some(Reply::Snapshot(snap)) => {
            assert_eq!(snap.get(&b"Dk".to_vec()), Some(b"v2".to_vec()));
        }
        _ => panic!("queued read must resolve after apply"),
    }
}

#[test]
fn stale_read_times_out() {
    let mut d = singleton_driver();
    let _ctx = d.handle_snapshot_request(11, 0);
    // ten seconds pass without a read state; the sweep fails the request
    d.on_tick(true);
    let acts = d.process_ready(10_000_001, Some(empty_ready(1, 1)));
    assert!(matches!(find_notify(&acts, 11), Some(Reply::Fail(FailReason::Timeout))));
    // the request is gone: nothing fires twice
    d.on_tick(true);
    let acts = d.process_ready(10_000_002, Some(empty_ready(2, 1)));
    assert!(find_notify(&acts, 11).is_none());
}

#[test]
fn wait_till_leader_resolves_exactly_once() {
    let mut d = singleton_driver();
    // no leader yet: the waiter parks
    let acts = d.on_wait_till_leader(21, 0);
    assert!(acts.is_empty());
    // election done: the observer is released exactly once
    d.on_tick(true);
    let acts = d.process_ready(0, Some(empty_ready(1, 2)));
    assert!(matches!(find_notify(&acts, 21), Some(Reply::Leader(2))));
    d.on_tick(true);
    let acts = d.process_ready(0, Some(empty_ready(2, 2)));
    assert!(find_notify(&acts, 21).is_none());
    // a known leader answers immediately
    let acts = d.on_wait_till_leader(22, 2);
    assert!(matches!(find_notify(&acts, 22), Some(Reply::Leader(2))));
}

#[test]
fn rejected_proposal_fails_fast() {
    let mut d = singleton_driver();
    let acts = d.on_propose_result(false, 0, 0, Some(30));
    assert!(matches!(find_notify(&acts, 30), Some(Reply::Fail(FailReason::ProposeRejected))));
}

#[test]
fn update_address_reaches_map_and_disk() {
    let mut d = singleton_driver();
    // the bootstrap address book row is durable
    assert_eq!(d.engine.get(&address_key(1)), Some(b"127.0.0.1:2379".to_vec()));

    let (context, data) = Command::UpdateAddress { id: 5, address: b"10.1.1.1:2379".to_vec() }
        .into_proposal();
    d.on_propose_result(true, 1, 2, Some(31));
    let mut ready = empty_ready(1, 1);
    ready.committed = vec![Entry { index: 2, term: 1, kind: EntryKind::Normal, context, data }];
    let acts = d.process_ready(0, Some(ready));
    assert!(matches!(find_notify(&acts, 31), Some(Reply::Success)));
    // the in-memory map the transport reads is updated in the same batch
    assert_eq!(d.lookup_address(5), Some(b"10.1.1.1:2379".to_vec()));
    assert_eq!(d.lookup_address(99), None);
    // and the row is durable: a restart reads it back
    assert_eq!(d.engine.get(&address_key(5)), Some(b"10.1.1.1:2379".to_vec()));
    let store2 = open(&d.engine, 1).expect("engine must reopen");
    assert_eq!(store2.apply.applied_index, 2);
}

#[test]
fn address_map_reloads_after_restart() {
    let mut d = singleton_driver();
    let (context, data) = Command::UpdateAddress { id: 5, address: b"10.1.1.1:2379".to_vec() }
        .into_proposal();
    d.on_propose_result(true, 1, 2, Some(31));
    let mut ready = empty_ready(1, 1);
    ready.committed = vec![Entry { index: 2, term: 1, kind: EntryKind::Normal, context, data }];
    d.process_ready(0, Some(ready));

    // restart: a fresh driver over the same engine replays the address rows
    let engine = d.engine;
    let store = open(&engine, 1).expect("reopen");
    let mut d2 = Driver::new(store, engine, 0);
    assert_eq!(d2.lookup_address(5), None);
    d2.load_address_map();
    assert_eq!(d2.lookup_address(5), Some(b"10.1.1.1:2379".to_vec()));
    assert_eq!(d2.lookup_address(1), Some(b"127.0.0.1:2379".to_vec()));
    assert_eq!(d2.lookup_address(99), None);
}

#[test]
fn bootstrap_is_idempotent() {
    let mut engine = MemEngine::new();
    bootstrap(&mut engine, &vec![1, 2, 3], 2, &vec![(1, b"a".to_vec())]);
    let s1 = open(&engine, 2).expect("first open");
    // a second bootstrap on a seeded engine is a no-op
    bootstrap(&mut engine, &vec![9, 9, 9], 2, &vec![(9, b"z".to_vec())]);
    let s2 = open(&engine, 2).expect("second open");
    assert_eq!(s2.last, s1.last);
    assert_eq!(s2.apply, s1.apply);
    assert_eq!(s2.hard_state, s1.hard_state);
    assert_eq!(s2.voters, vec![1, 2, 3]);
    assert_eq!(engine.get(&address_key(9)), None);
}

#[test]
fn bootstrap_outside_peer_set_seeds_empty_voters() {
    let mut engine = MemEngine::new();
    bootstrap(&mut engine, &vec![1, 2, 3], 9, &Vec::new());
    let s = open(&engine, 9).expect("open");
    assert!(s.voters.is_empty());
    assert!(!s.singleton());
    assert_eq!(s.last, 0);
}

#[test]
fn applied_index_survives_restart() {
    let mut d = singleton_driver();
    d.on_propose_result(true, 1, 2, None);
    let mut ready = empty_ready(1, 1);
    ready.committed = vec![put_entry(2, 1, b"Dk", b"v")];
    ready.new_entries = vec![put_entry(2, 1, b"Dk", b"v")];
    d.process_ready(0, Some(ready));
    assert_eq!(d.store.apply.applied_index, 2);

    // restart: the persisted apply state never went backwards
    let store2 = open(&d.engine, 1).expect("reopen");
    assert_eq!(store2.apply.applied_index, 2);
    assert_eq!(store2.last, 2);
    // and the log row round-trips
    let es = store2.entries(2, 3, u64::MAX).expect("entries");
    assert_eq!(es.len(), 1);
    assert_eq!(es[0].index, 2);
}

#[test]
fn storage_adapter_bounds() {
    let d = singleton_driver();
    assert!(matches!(d.store.entries(0, 1, u64::MAX), Err(StorageError::Compacted)));
    assert!(matches!(d.store.entries(1, 3, u64::MAX), Err(StorageError::Unavailable)));
    assert_eq!(d.store.term(0).unwrap(), 0);
    assert_eq!(d.store.term(1).unwrap(), 1);
    assert!(matches!(d.store.term(2), Err(StorageError::Unavailable)));
    assert!(matches!(
        d.store.snapshot(1),
        Err(StorageError::SnapshotTemporarilyUnavailable)
    ));
}

#[test]
fn persisted_messages_wait_for_sync() {
    let mut d = singleton_driver();
    // a cycle that writes nothing but has no backlog may send at once
    d.on_tick(true);
    let mut ready = empty_ready(1, 1);
    ready.persisted_messages = vec![41];
    let acts = d.process_ready(0, Some(ready));
    assert!(acts.iter().any(|a| matches!(a, Action::Send { token: 41 })));

    // a cycle that writes defers them until the sync that follows
    d.on_propose_result(true, 1, 2, None);
    let mut ready = empty_ready(2, 1);
    ready.committed = vec![put_entry(2, 1, b"Dk", b"v")];
    ready.persisted_messages = vec![42];
    ready.must_sync = false;
    let acts = d.process_ready(1, Some(ready));
    if count_syncs(&acts) == 0 {
        assert!(!acts.iter().any(|a| matches!(a, Action::Send { token: 42 })));
        // the interval passes; the sync releases the backlog
        d.on_tick(true);
        let acts = d.process_ready(200, Some(empty_ready(3, 1)));
        assert_eq!(count_syncs(&acts), 1);
        assert!(acts.iter().any(|a| matches!(a, Action::Send { token: 42 })));
    } else {
        assert!(acts.iter().any(|a| matches!(a, Action::Send { token: 42 })));
    }
}
