use lock_observing::action::Action;
use lock_observing::analyzer::{analyze, AnalysisError};
use lock_observing::codec::encode_log;
use lock_observing::graph::{RankEdge, RankGraph};
use lock_observing::observer::ThreadObserver;
use lock_observing::registry::RankRegistry;
use lock_observing::SourceCoord;

fn coord(file: &[u8], line: u32, column: u32) -> SourceCoord {
    SourceCoord { file: file.to_vec(), line, column }
}

fn edge(older: u32, newer: u32) -> RankEdge {
    RankEdge {
        older_rank: older,
        newer_rank: newer,
        older_coord: coord(b"x.rs", 1, 1),
        newer_coord: coord(b"x.rs", 2, 1),
    }
}

fn cycle_set(cycle: &[u32]) -> Vec<u32> {
    let mut s = cycle.to_vec();
    s.sort();
    s
}

#[test]
fn three_rank_cycle_is_reported_once_without_bystanders() {
    let mut g = RankGraph::new();
    g.insert_edge(edge(1, 2));
    g.insert_edge(edge(2, 3));
    g.insert_edge(edge(3, 1));
    g.insert_edge(edge(1, 4));
    let cycles = g.detect_cycles();
    assert_eq!(cycles.len(), 1);
    assert_eq!(cycles[0].len(), 3);
    assert_eq!(cycle_set(&cycles[0]), vec![1, 2, 3]);
    assert!(!cycles[0].contains(&4));
}

#[test]
fn two_disjoint_cycles_are_both_reported() {
    let mut g = RankGraph::new();
    g.insert_edge(edge(1, 2));
    g.insert_edge(edge(2, 1));
    g.insert_edge(edge(3, 4));
    g.insert_edge(edge(4, 3));
    let cycles = g.detect_cycles();
    assert_eq!(cycles.len(), 2);
    let mut sets: Vec<Vec<u32>> = cycles.iter().map(|c| cycle_set(c)).collect();
    sets.sort();
    assert_eq!(sets, vec![vec![1, 2], vec![3, 4]]);
}

#[test]
fn acyclic_graph_yields_no_violations_however_often_edges_recur() {
    let mut g = RankGraph::new();
    for _ in 0..5 {
        g.insert_edge(edge(1, 2));
        g.insert_edge(edge(2, 3));
        g.insert_edge(edge(1, 3));
    }
    assert_eq!(g.edge_count(), 3);
    assert_eq!(g.detect_cycles().len(), 0);
}

#[test]
fn self_loop_is_a_cycle() {
    let mut g = RankGraph::new();
    g.insert_edge(edge(5, 5));
    let cycles = g.detect_cycles();
    assert_eq!(cycles.len(), 1);
    assert_eq!(cycles[0], vec![5]);
}

#[test]
fn first_observed_evidence_is_kept_per_rank_pair() {
    let mut g = RankGraph::new();
    g.insert_edge(RankEdge {
        older_rank: 1,
        newer_rank: 2,
        older_coord: coord(b"first.rs", 1, 1),
        newer_coord: coord(b"first.rs", 2, 2),
    });
    g.insert_edge(RankEdge {
        older_rank: 1,
        newer_rank: 2,
        older_coord: coord(b"later.rs", 9, 9),
        newer_coord: coord(b"later.rs", 10, 10),
    });
    assert_eq!(g.edge_count(), 1);
    let e = g.find_edge(1, 2).unwrap();
    assert_eq!(e.older_coord.file.as_slice(), b"first.rs");
}

fn rank(bit: u32, member: &[u8], constant: &[u8]) -> Action {
    Action::Rank { bit, member_name: member.to_vec(), const_name: constant.to_vec() }
}

fn loc(address: u64, file: &[u8], line: u32, column: u32) -> Action {
    Action::Location { address, file: file.to_vec(), line, column }
}

fn acq(older_rank: u32, older_location: u64, newer_rank: u32, newer_location: u64) -> Action {
    Action::Acquisition { older_rank, older_location, newer_rank, newer_location }
}

#[test]
fn addresses_resolve_against_their_own_file_only() {
    // Both logs use address 3, for different coordinates.
    let log1 = encode_log(&vec![
        loc(3, b"alpha.rs", 10, 1),
        loc(4, b"alpha.rs", 20, 1),
        acq(1, 3, 2, 4),
    ]);
    let log2 = encode_log(&vec![
        loc(3, b"beta.rs", 77, 7),
        loc(4, b"beta.rs", 88, 8),
        acq(5, 3, 6, 4),
    ]);
    let analysis = analyze(&vec![log1, log2]).expect("both logs are well formed");
    assert_eq!(analysis.graph.edge_count(), 2);
    let e1 = analysis.graph.find_edge(1, 2).unwrap();
    assert_eq!(e1.older_coord.file.as_slice(), b"alpha.rs");
    assert_eq!(e1.older_coord.line, 10);
    let e2 = analysis.graph.find_edge(5, 6).unwrap();
    assert_eq!(e2.older_coord.file.as_slice(), b"beta.rs");
    assert_eq!(e2.older_coord.line, 77);
}

#[test]
fn rank_records_are_idempotent_but_a_mismatch_is_fatal() {
    let log1 = encode_log(&vec![rank(0, b"device", b"DEVICE")]);
    let log2 = encode_log(&vec![rank(0, b"device", b"DEVICE")]);
    let analysis = analyze(&vec![log1.clone(), log2]).expect("identical rank records merge");
    assert_eq!(analysis.ranks.len(), 1);
    let log3 = encode_log(&vec![rank(0, b"queue", b"QUEUE")]);
    match analyze(&vec![log1, log3]) {
        Err(AnalysisError::RankMismatch { file_index, bit }) => {
            assert_eq!((file_index, bit), (1, 0));
        }
        _ => panic!("mixed-build logs must fail with a rank mismatch"),
    }
}

#[test]
fn unresolved_address_is_reported_with_the_file() {
    let log = encode_log(&vec![loc(3, b"a.rs", 1, 1), acq(1, 3, 2, 9)]);
    match analyze(&vec![log]) {
        Err(AnalysisError::UnknownLocation { file_index, address }) => {
            assert_eq!((file_index, address), (0, 9));
        }
        _ => panic!("an unannounced address must fail the file"),
    }
}

#[test]
fn malformed_file_is_reported_with_file_and_line() {
    let good = encode_log(&vec![loc(0, b"a.rs", 1, 1)]);
    let mut bad = encode_log(&vec![loc(0, b"b.rs", 1, 1)]);
    bad.extend_from_slice(b"Location { address: 1, nonsense\n");
    match analyze(&vec![good, bad]) {
        Err(AnalysisError::MalformedLine { file_index, line_index }) => {
            assert_eq!((file_index, line_index), (1, 1));
        }
        _ => panic!("a malformed terminated line must fail its file"),
    }
}

#[test]
fn no_input_files_is_clean_no_data_not_an_error() {
    let analysis = analyze(&Vec::new()).expect("no files is not an error");
    assert_eq!(analysis.graph.edge_count(), 0);
    assert_eq!(analysis.ranks.len(), 0);
    assert_eq!(analysis.graph.detect_cycles().len(), 0);
}

#[test]
fn end_to_end_inconsistent_ordering_is_detected_and_described() {
    // A process with two lock classes, observed by two threads that
    // disagree about the order.
    let mut registry = RankRegistry::new();
    let device = registry.register(b"device".to_vec(), b"DEVICE".to_vec()).unwrap();
    let queue = registry.register(b"queue".to_vec(), b"QUEUE".to_vec()).unwrap();

    let mut thread1 = ThreadObserver::new();
    let mut log1 = registry.rank_records();
    let file1 = b"pipeline.rs".to_vec();
    let (_, mut e) = thread1.acquire_hook(device, &file1, 100, 9);
    log1.append(&mut e);
    let (_, mut e) = thread1.acquire_hook(queue, &file1, 101, 13);
    log1.append(&mut e);
    thread1.release_hook();
    thread1.release_hook();

    let mut thread2 = ThreadObserver::new();
    let mut log2 = registry.rank_records();
    let file2 = b"submit.rs".to_vec();
    let (_, mut e) = thread2.acquire_hook(queue, &file2, 40, 5);
    log2.append(&mut e);
    let (_, mut e) = thread2.acquire_hook(device, &file2, 41, 5);
    log2.append(&mut e);
    thread2.release_hook();
    thread2.release_hook();

    let files = vec![encode_log(&log1), encode_log(&log2)];
    let analysis = analyze(&files).expect("both logs are well formed");
    let cycles = analysis.graph.detect_cycles();
    assert_eq!(cycles.len(), 1);
    assert_eq!(cycle_set(&cycles[0]), vec![device, queue]);

    let entries = analysis.describe_cycle(&cycles[0]);
    assert_eq!(entries.len(), 2);
    for entry in &entries {
        if entry.rank == device {
            assert_eq!(entry.member_name.as_slice(), b"device");
            assert_eq!(entry.const_name.as_slice(), b"DEVICE");
        } else {
            assert_eq!(entry.rank, queue);
            assert_eq!(entry.member_name.as_slice(), b"queue");
        }
    }
    // The evidence for device->queue comes from the thread that held
    // device while taking queue.
    let device_entry = entries.iter().find(|e| e.rank == device).unwrap();
    assert_eq!(device_entry.older_coord.file.as_slice(), b"pipeline.rs");
    assert_eq!(device_entry.older_coord.line, 100);
    assert_eq!(device_entry.newer_coord.file.as_slice(), b"pipeline.rs");
    assert_eq!(device_entry.newer_coord.line, 101);
}
