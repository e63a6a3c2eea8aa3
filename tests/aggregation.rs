use dealing_mesh::aggregator::{handle_received_dealings, CompletionError, RoundAggregator};
use dealing_mesh::types::Dealing;

fn d(sender: u8, round: u64, payload: u8) -> Dealing {
    Dealing::new(vec![payload], round, vec![sender])
}

#[test]
fn round_completes_at_node_count_distinct_senders() {
    let mut agg = RoundAggregator::new(3);
    assert!(agg.insert(d(1, 0, 10)).is_none());
    assert!(agg.insert(d(1, 0, 11)).is_none());
    assert!(agg.insert(d(2, 0, 20)).is_none());
    let done = agg.insert(d(3, 0, 30)).expect("round complete");
    assert_eq!(done.len(), 3);
    let mut payloads: Vec<(Vec<u8>, Vec<u8>)> =
        done.iter().map(|x| (x.public_key.clone(), x.dealing.clone())).collect();
    payloads.sort();
    assert_eq!(
        payloads,
        vec![(vec![1], vec![11]), (vec![2], vec![20]), (vec![3], vec![30])]
    );
}

#[test]
fn completion_is_reported_once() {
    let mut agg = RoundAggregator::new(2);
    assert!(agg.insert(d(1, 4, 1)).is_none());
    assert!(agg.insert(d(2, 4, 2)).is_some());
    assert!(agg.insert(d(2, 4, 2)).is_none());
    assert!(agg.insert(d(1, 4, 9)).is_none());
    assert!(agg.insert(d(3, 4, 3)).is_none());
}

#[test]
fn rounds_are_independent() {
    let mut agg = RoundAggregator::new(2);
    assert!(agg.insert(d(1, 0, 1)).is_none());
    assert!(agg.insert(d(1, 1, 1)).is_none());
    assert!(agg.insert(d(2, 1, 2)).is_some());
    assert!(agg.insert(d(2, 0, 2)).is_some());
}

#[test]
fn closed_stream_leaves_later_round_open() {
    let mut agg = RoundAggregator::new(3);
    let mut completed = Vec::new();
    for x in [d(1, 0, 1), d(2, 0, 2), d(3, 0, 3), d(1, 1, 1), d(2, 1, 2)] {
        if let Some(v) = agg.insert(x) {
            completed.push(v[0].protocol_round);
        }
    }
    assert_eq!(completed, vec![0]);
    assert!(agg.insert(d(1, 2, 1)).is_none());
    assert!(agg.insert(d(2, 2, 2)).is_none());
    assert!(agg.insert(d(3, 2, 3)).is_some());
}

#[test]
fn handler_indexes_by_sender_order() {
    let ds = vec![d(7, 0, 70), d(2, 0, 20), d(5, 0, 50)];
    let out = handle_received_dealings(&ds, 3).expect("processed");
    assert_eq!(out, vec![(0, vec![20]), (1, vec![50]), (2, vec![70])]);
}

#[test]
fn handler_refuses_wrong_count() {
    let ds = vec![d(7, 0, 70), d(2, 0, 20)];
    assert_eq!(handle_received_dealings(&ds, 3), Err(CompletionError::WrongCount));
}

#[test]
fn handler_accepts_empty_round_of_zero_nodes() {
    assert_eq!(handle_received_dealings(&vec![], 0), Ok(vec![]));
}

#[test]
fn sort_orders_by_identity_bytes() {
    let ds = vec![d(9, 1, 90), d(1, 1, 10), d(4, 1, 40)];
    let sorted = dealing_mesh::aggregator::sort_by_sender(&ds);
    let keys: Vec<Vec<u8>> = sorted.iter().map(|x| x.public_key.clone()).collect();
    assert_eq!(keys, vec![vec![1], vec![4], vec![9]]);
}
