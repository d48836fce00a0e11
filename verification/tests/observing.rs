use lock_observing::action::Action;
use lock_observing::codec::{encode_action, encode_log, parse_action, parse_log};
use lock_observing::observer::{AcquisitionTracker, LocationInterner, ThreadObserver};
use lock_observing::registry::{RankRegistry, RegistryError};

fn loc(address: u64, file: &[u8], line: u32, column: u32) -> Action {
    Action::Location { address, file: file.to_vec(), line, column }
}

fn acq(older_rank: u32, older_location: u64, newer_rank: u32, newer_location: u64) -> Action {
    Action::Acquisition { older_rank, older_location, newer_rank, newer_location }
}

#[test]
fn first_acquisition_emits_no_edges() {
    let mut tracker = AcquisitionTracker::new();
    let emitted = tracker.on_acquire(7, 3);
    assert_eq!(emitted.len(), 0);
    assert_eq!(tracker.depth(), 1);
}

#[test]
fn acquisition_emits_one_edge_per_held_lock() {
    let mut tracker = AcquisitionTracker::new();
    assert_eq!(tracker.on_acquire(1, 10).len(), 0);
    assert_eq!(tracker.on_acquire(2, 20).len(), 1);
    let emitted = tracker.on_acquire(3, 30);
    assert_eq!(emitted.len(), 2);
    match &emitted[0] {
        Action::Acquisition { older_rank, older_location, newer_rank, newer_location } => {
            assert_eq!((*older_rank, *older_location, *newer_rank, *newer_location), (1, 10, 3, 30));
        }
        _ => panic!("expected an acquisition record"),
    }
    match &emitted[1] {
        Action::Acquisition { older_rank, older_location, newer_rank, newer_location } => {
            assert_eq!((*older_rank, *older_location, *newer_rank, *newer_location), (2, 20, 3, 30));
        }
        _ => panic!("expected an acquisition record"),
    }
}

#[test]
fn release_pops_the_newest_lock() {
    let mut tracker = AcquisitionTracker::new();
    tracker.on_acquire(1, 0);
    tracker.on_acquire(2, 1);
    tracker.on_release();
    assert_eq!(tracker.depth(), 1);
    // Re-acquiring emits an edge only against the still-held lock.
    let emitted = tracker.on_acquire(3, 2);
    assert_eq!(emitted.len(), 1);
}

#[test]
fn interning_twice_returns_same_address_and_one_record() {
    let mut interner = LocationInterner::new();
    let file = b"src/device.rs".to_vec();
    let (a1, rec1) = interner.intern(&file, 41, 9);
    assert!(rec1.is_some());
    let (a2, rec2) = interner.intern(&file, 41, 9);
    assert_eq!(a1, a2);
    assert!(rec2.is_none());
    assert_eq!(interner.len(), 1);
    // A different column is a different coordinate.
    let (a3, rec3) = interner.intern(&file, 41, 10);
    assert_ne!(a3, a1);
    assert!(rec3.is_some());
}

#[test]
fn observer_hook_emits_location_then_edges() {
    let mut obs = ThreadObserver::new();
    let file = b"a.rs".to_vec();
    let (addr1, emitted1) = obs.acquire_hook(1, &file, 5, 1);
    // New coordinate: one Location record, no held locks, no edges.
    assert_eq!(emitted1.len(), 1);
    match &emitted1[0] {
        Action::Location { address, file: f, line, column } => {
            assert_eq!(*address, addr1);
            assert_eq!(f.as_slice(), b"a.rs");
            assert_eq!((*line, *column), (5, 1));
        }
        _ => panic!("expected a location record"),
    }
    // Same coordinate again, one lock held: just the one edge.
    let (addr2, emitted2) = obs.acquire_hook(2, &file, 5, 1);
    assert_eq!(addr2, addr1);
    assert_eq!(emitted2.len(), 1);
    match &emitted2[0] {
        Action::Acquisition { older_rank, newer_rank, .. } => {
            assert_eq!((*older_rank, *newer_rank), (1, 2));
        }
        _ => panic!("expected an acquisition record"),
    }
    obs.release_hook();
    obs.release_hook();
}

#[test]
fn log_round_trip_yields_the_original_records() {
    let records = vec![
        Action::Rank { bit: 0, member_name: b"device".to_vec(), const_name: b"DEVICE".to_vec() },
        loc(0, b"src/a.rs", 10, 5),
        loc(1, b"src/b.rs", 99, 1),
        acq(0, 0, 1, 1),
    ];
    let bytes = encode_log(&records);
    let parsed = parse_log(&bytes).expect("well-formed log must parse");
    assert_eq!(parsed.len(), records.len());
    for (a, b) in records.iter().zip(parsed.iter()) {
        assert_eq!(encode_action(a), encode_action(b));
    }
}

#[test]
fn encoding_is_the_documented_line_format() {
    let a = Action::Rank { bit: 2, member_name: b"device".to_vec(), const_name: b"DEVICE".to_vec() };
    assert_eq!(
        encode_action(&a),
        b"Rank { bit: 2, member_name: \"device\", const_name: \"DEVICE\" }".to_vec()
    );
    let l = loc(3, b"src/a.rs", 10, 5);
    assert_eq!(
        encode_action(&l),
        b"Location { address: 3, file: \"src/a.rs\", line: 10, column: 5 }".to_vec()
    );
    let e = acq(1, 3, 2, 4);
    assert_eq!(
        encode_action(&e),
        b"Acquisition { older_rank: 1, older_location: 3, newer_rank: 2, newer_location: 4 }"
            .to_vec()
    );
}

#[test]
fn quoting_round_trips_awkward_file_names() {
    let nasty = b"dir\\\"odd\nname\".rs".to_vec();
    let a = Action::Location { address: 0, file: nasty.clone(), line: 1, column: 1 };
    let line = encode_action(&a);
    match parse_action(&line) {
        Some(Action::Location { file, .. }) => assert_eq!(file, nasty),
        _ => panic!("canonical line must parse back"),
    }
}

#[test]
fn unknown_fields_and_noncanonical_lines_are_rejected() {
    // An unknown field name.
    let bad = b"Location { address: 3, path: \"a.rs\", line: 1, column: 1 }".to_vec();
    assert!(parse_action(&bad).is_none());
    // An unknown record head.
    let bad = b"Release { rank: 1 }".to_vec();
    assert!(parse_action(&bad).is_none());
    // Trailing bytes after a well-formed record.
    let bad = b"Acquisition { older_rank: 1, older_location: 0, newer_rank: 2, newer_location: 0 } x"
        .to_vec();
    assert!(parse_action(&bad).is_none());
    // A non-canonical number.
    let bad = b"Rank { bit: 02, member_name: \"a\", const_name: \"A\" }".to_vec();
    assert!(parse_action(&bad).is_none());
}

#[test]
fn truncated_last_line_is_dropped_and_mid_file_damage_is_an_error() {
    let records = vec![loc(0, b"a.rs", 1, 1), loc(1, b"b.rs", 2, 2)];
    let mut bytes = encode_log(&records);
    // A final record cut off before its newline was flushed.
    bytes.extend_from_slice(b"Location { address: 2, fi");
    let parsed = parse_log(&bytes).expect("the complete prefix still parses");
    assert_eq!(parsed.len(), 2);
    // The same damage in the middle of the file is a hard error,
    // reported with the index of the bad line.
    let mut bytes = encode_log(&vec![loc(0, b"a.rs", 1, 1)]);
    bytes.extend_from_slice(b"Location { address: 2, fi\n");
    bytes.extend_from_slice(&encode_log(&vec![loc(1, b"b.rs", 2, 2)]));
    assert_eq!(parse_log(&bytes), Err(1));
}

#[test]
fn registry_assigns_ranks_and_rejects_duplicates() {
    let mut reg = RankRegistry::new();
    let r0 = reg.register(b"device".to_vec(), b"DEVICE".to_vec()).unwrap();
    let r1 = reg.register(b"queue".to_vec(), b"QUEUE".to_vec()).unwrap();
    assert_eq!((r0, r1), (0, 1));
    assert_eq!(
        reg.register(b"device".to_vec(), b"OTHER".to_vec()),
        Err(RegistryError::DuplicateRank)
    );
    assert_eq!(reg.count(), 2);
    let info = reg.lookup(1).unwrap();
    assert_eq!(info.member_name.as_slice(), b"queue");
    assert_eq!(info.const_name.as_slice(), b"QUEUE");
    assert!(reg.lookup(2).is_none());
}

#[test]
fn registry_exhausts_at_the_rank_space() {
    let mut reg = RankRegistry::new();
    for i in 0..64u32 {
        let name = format!("class{}", i).into_bytes();
        let upper = format!("CLASS{}", i).into_bytes();
        assert!(reg.register(name, upper).is_ok());
    }
    assert_eq!(
        reg.register(b"one_too_many".to_vec(), b"ONE_TOO_MANY".to_vec()),
        Err(RegistryError::RankSpaceExhausted)
    );
    assert_eq!(reg.count(), 64);
}

#[test]
fn rank_records_announce_every_class() {
    let mut reg = RankRegistry::new();
    reg.register(b"device".to_vec(), b"DEVICE".to_vec()).unwrap();
    reg.register(b"queue".to_vec(), b"QUEUE".to_vec()).unwrap();
    let records = reg.rank_records();
    assert_eq!(records.len(), 2);
    match &records[0] {
        Action::Rank { bit, member_name, .. } => {
            assert_eq!(*bit, 0);
            assert_eq!(member_name.as_slice(), b"device");
        }
        _ => panic!("expected a rank record"),
    }
    match &records[1] {
        Action::Rank { bit, member_name, .. } => {
            assert_eq!(*bit, 1);
            assert_eq!(member_name.as_slice(), b"queue");
        }
        _ => panic!("expected a rank record"),
    }
}
