use mini_pd::codec::{sub_vec, u64_from_be, u64_to_be};
use mini_pd::command::Command;
use mini_pd::keys::{address_key, decode_address_row, log_key, valid_data_key};
use mini_pd::proposal::{Proposal, ProposalQueue};
use mini_pd::state::{
    decode_apply_state, decode_entry, decode_hard_state, encode_apply_state, encode_entry,
    encode_hard_state, ApplyState, Entry, EntryKind, HardState,
};
use mini_pd::wal::WalControl;

#[test]
fn be_bytes_round_trip() {
    for x in [0u64, 1, 255, 256, 0xDEAD_BEEF, u64::MAX] {
        let b = u64_to_be(x);
        assert_eq!(b.len(), 8);
        assert_eq!(u64_from_be(&b), x);
    }
    assert_eq!(u64_to_be(1), vec![0, 0, 0, 0, 0, 0, 0, 1]);
}

#[test]
fn be_order_matches_numeric_order() {
    // big-endian keys iterate in numeric order
    let a = u64_to_be(255);
    let b = u64_to_be(256);
    assert!(a < b);
    assert!(log_key(9) < log_key(10));
}

#[test]
fn command_round_trip_put() {
    let cmd = Command::Put { key: b"Dk".to_vec(), value: b"v".to_vec() };
    let (ctx, data) = cmd.into_proposal();
    assert!(ctx.is_empty());
    match Command::from_proposal(ctx, data) {
        Some(Command::Put { key, value }) => {
            assert_eq!(key, b"Dk".to_vec());
            assert_eq!(value, b"v".to_vec());
        }
        _ => panic!("put did not round-trip"),
    }
}

#[test]
fn command_round_trip_update_address() {
    let cmd = Command::UpdateAddress { id: 7, address: b"10.0.0.1:20160".to_vec() };
    let (ctx, data) = cmd.into_proposal();
    match Command::from_proposal(ctx, data) {
        Some(Command::UpdateAddress { id, address }) => {
            assert_eq!(id, 7);
            assert_eq!(address, b"10.0.0.1:20160".to_vec());
        }
        _ => panic!("update-address did not round-trip"),
    }
}

#[test]
fn command_rejects_garbage() {
    assert!(Command::from_proposal(Vec::new(), Vec::new()).is_none());
    assert!(Command::from_proposal(Vec::new(), vec![9, 0, 0, 0]).is_none());
}

#[test]
fn hard_and_apply_state_round_trip() {
    let h = HardState { term: 3, vote: 2, commit: 9 };
    assert_eq!(decode_hard_state(&encode_hard_state(&h)), Some(h));
    let a = ApplyState { applied_index: 12, applied_term: 3 };
    assert_eq!(decode_apply_state(&encode_apply_state(&a)), Some(a));
    assert_eq!(decode_hard_state(&vec![1, 2, 3]), None);
    assert_eq!(decode_apply_state(&vec![]), None);
}

#[test]
fn entry_round_trip() {
    let e = Entry {
        index: 4,
        term: 2,
        kind: EntryKind::ConfChange,
        context: b"ctx".to_vec(),
        data: b"payload".to_vec(),
    };
    let row = encode_entry(&e);
    let back = decode_entry(&row).expect("entry must decode");
    assert_eq!(back.index, 4);
    assert_eq!(back.term, 2);
    assert!(matches!(back.kind, EntryKind::ConfChange));
    assert_eq!(back.context, b"ctx".to_vec());
    assert_eq!(back.data, b"payload".to_vec());
    assert!(decode_entry(&vec![0; 10]).is_none());
}

#[test]
fn address_row_round_trip() {
    let key = address_key(42);
    let row = decode_address_row(&key, &b"addr".to_vec());
    assert_eq!(row, Some((42, b"addr".to_vec())));
    assert_eq!(decode_address_row(&log_key(42), &b"addr".to_vec()), None);
}

#[test]
fn data_key_prefix_is_enforced() {
    assert!(valid_data_key(&b"Dk".to_vec()));
    assert!(valid_data_key(&b"D".to_vec()));
    assert!(!valid_data_key(&b"H".to_vec()));
    assert!(!valid_data_key(&b"L\x00".to_vec()));
    assert!(!valid_data_key(&Vec::new()));
}

#[test]
fn sub_vec_copies_range() {
    let v = vec![1u8, 2, 3, 4];
    assert_eq!(sub_vec(&v, 1, 3), vec![2, 3]);
    assert_eq!(sub_vec(&v, 0, 0), Vec::<u8>::new());
}

#[test]
fn proposal_queue_matches_index_and_term() {
    let mut q = ProposalQueue::new();
    q.enqueue(Proposal { index: 5, term: 1, notifier: 100 });
    q.enqueue(Proposal { index: 6, term: 1, notifier: 101 });
    q.enqueue(Proposal { index: 7, term: 2, notifier: 102 });
    // entry (5,1) resolves the first proposal
    assert_eq!(q.get_notifier(5, 1), Some(100));
    // a term change drops superseded proposals silently
    assert_eq!(q.get_notifier(7, 2), Some(102));
    assert_eq!(q.len(), 0);
}

#[test]
fn proposal_queue_no_match_leaves_queue() {
    let mut q = ProposalQueue::new();
    q.enqueue(Proposal { index: 9, term: 3, notifier: 1 });
    // an entry before the queued proposal has no notifier
    assert_eq!(q.get_notifier(8, 3), None);
    assert_eq!(q.len(), 1);
}

#[test]
fn wal_batches_small_writes() {
    // back-to-back small writes inside one sync interval share one sync
    let mut w = WalControl::new(0);
    let mut syncs = 0;
    for _ in 0..1000 {
        w.note_written(100);
        if w.should_sync(0, false) {
            syncs += 1;
            w.on_synced(0);
        }
    }
    // 100000 bytes never reach the 512 KiB ceiling and no time passed
    assert_eq!(syncs, 0);
    // the interval floor forces the one deferred sync
    assert!(w.should_sync(100, false));
    w.on_synced(100);
    syncs += 1;
    assert!(syncs <= 100 * 1000 / (512 * 1024) + 1);
}

#[test]
fn wal_size_ceiling_fires_immediately() {
    let mut w = WalControl::new(0);
    w.note_written(512 * 1024);
    assert!(w.should_sync(0, false));
    w.on_synced(0);
    assert!(!w.should_sync(0, false));
    // must_sync overrides everything
    assert!(w.should_sync(0, true));
}

#[test]
fn wal_suggest_timeout_tracks_interval() {
    let mut w = WalControl::new(1000);
    assert_eq!(w.suggest_timeout(1000, false), None);
    w.note_written(10);
    assert_eq!(w.suggest_timeout(1030, false), Some(70));
    assert_eq!(w.suggest_timeout(1200, false), Some(0));
}
