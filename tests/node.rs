use dealing_mesh::aggregator::{handle_received_dealings, RoundAggregator};
use dealing_mesh::node_setup::{produce_dealing_value, NodeSetup};
use dealing_mesh::peer::Route;
use dealing_mesh::service::{Admission, AdmissionError, MySample, SELF_ADDRESS};
use dealing_mesh::types::Dealing;

#[test]
fn identity_starts_at_round_zero() {
    let n = NodeSetup::new(4).expect("identity");
    assert_eq!(n.public_key.len(), 32);
    assert_eq!(n.ad, b"asdfasdfasdfasdfasdfasdf".to_vec());
    assert_eq!(n.receivers, 4);
    assert_eq!(n.next_round(), 0);
}

#[test]
fn rounds_are_consecutive_and_distinct() {
    let mut n = NodeSetup::new(1).expect("identity");
    let got: Vec<u64> = (0..5).map(|_| n.get_next_round()).collect();
    assert_eq!(got, vec![0, 1, 2, 3, 4]);
    assert_eq!(n.next_round(), 5);
}

#[test]
fn two_identities_differ() {
    let a = NodeSetup::new(1).expect("identity");
    let b = NodeSetup::new(1).expect("identity");
    assert_ne!(a.public_key, b.public_key);
}

#[test]
fn dealing_value_is_a_signature() {
    assert_eq!(produce_dealing_value(2).expect("work").len(), 64);
    assert!(produce_dealing_value(0).expect("work").is_empty());
}

#[test]
fn new_node_registers_itself() {
    let s: MySample<u32> = MySample::new(3, "h".to_string()).expect("node");
    assert_eq!(s.peers.peers_count(), 1);
    assert_eq!(s.peers.peer(0).address, SELF_ADDRESS);
    assert_eq!(s.peers.public_keys(), vec![s.node_setup.public_key.clone()]);
    let (healthy, key) = s.check_health();
    assert!(healthy);
    assert_eq!(key, s.node_setup.public_key);
    assert_eq!(s.fan_out_routes(), vec![Route::Own]);
}

#[test]
fn local_dealings_take_consecutive_rounds() {
    let mut s: MySample<u32> = MySample::new(3, "h".to_string()).expect("node");
    for r in 0..3u64 {
        let d = s.local_dealing(vec![r as u8]).expect("dealing");
        assert_eq!(d.protocol_round, r);
        assert_eq!(d.public_key, s.node_setup.public_key);
        assert_eq!(d.dealing, vec![r as u8]);
    }
}

#[test]
fn unhealthy_peer_is_rejected_and_not_registered() {
    let mut s: MySample<u32> = MySample::new(2, "h".to_string()).expect("node");
    let r = s.add_peer("http://other:2323".to_string(), false, vec![1; 32], 5);
    assert_eq!(r, Err(AdmissionError::Unhealthy));
    assert_eq!(s.peers.peers_count(), 1);
    assert!(!s.peers.contains_public_key(&[1; 32]));
}

#[test]
fn self_connection_is_rejected() {
    let mut s: MySample<u32> = MySample::new(2, "h".to_string()).expect("node");
    let own = s.node_setup.public_key.clone();
    assert_eq!(s.add_peer("http://me:2323".to_string(), true, own, 5), Err(AdmissionError::SelfConnection));
    assert_eq!(s.peers.peers_count(), 1);
}

#[test]
fn admission_is_idempotent_per_identity() {
    let mut s: MySample<u32> = MySample::new(2, "h".to_string()).expect("node");
    assert_eq!(s.add_peer("http://p:2323".to_string(), true, vec![1; 32], 5), Ok(Admission::Registered));
    assert_eq!(s.add_peer("http://q:2323".to_string(), true, vec![1; 32], 6), Ok(Admission::AlreadyKnown));
    assert_eq!(s.peers.peers_count(), 2);
    assert_eq!(s.peers.peer(1).client_dealing_sender, Some(5));
}

#[test]
fn inbound_stream_registers_and_attaches_channel() {
    let mut s: MySample<u32> = MySample::new(2, "h".to_string()).expect("node");
    assert_eq!(s.receive_dealings(vec![4; 32], "10.0.0.4:5000".to_string(), 9), Ok(()));
    assert_eq!(s.peers.peers_count(), 2);
    assert_eq!(s.peers.peer(1).server_dealing_sender, Some(9));
    assert_eq!(s.peers.peer(1).address, "10.0.0.4:5000");
    assert_eq!(s.receive_dealings(vec![4; 32], "10.0.0.4:5001".to_string(), 10), Ok(()));
    assert_eq!(s.peers.peers_count(), 2);
    assert_eq!(s.peers.peer(1).server_dealing_sender, Some(10));
}

/// Three nodes, each dialing the others; channels are the index of the
/// node a dealing is delivered to.
#[test]
fn three_nodes_complete_three_rounds() {
    let mut nodes: Vec<MySample<usize>> =
        (0..3).map(|i| MySample::new(3, format!("n{}", i)).expect("node")).collect();
    let keys: Vec<Vec<u8>> = nodes.iter().map(|n| n.node_setup.public_key.clone()).collect();
    let mut admitted = 0;
    for i in 0..3 {
        for j in 0..3 {
            if i != j {
                let r = nodes[i].add_peer(format!("http://node-{}:2323", j), true, keys[j].clone(), j);
                assert_eq!(r, Ok(Admission::Registered));
                admitted += 1;
            }
        }
    }
    assert_eq!(admitted, 6);
    let mut aggs: Vec<RoundAggregator> = (0..3).map(|_| RoundAggregator::new(3)).collect();
    let mut handled = vec![0usize; 3];
    let mut deliver = |to: usize, d: Dealing, aggs: &mut Vec<RoundAggregator>, handled: &mut Vec<usize>| {
        if let Some(all) = aggs[to].insert(d) {
            let out = handle_received_dealings(&all, 3).expect("handled");
            assert_eq!(out.len(), 3);
            handled[to] += 1;
        }
    };
    for _ in 0..3 {
        for i in 0..3 {
            let d = nodes[i].local_dealing(vec![i as u8]).expect("dealing");
            let routes = nodes[i].fan_out_routes();
            for (k, route) in routes.iter().enumerate() {
                match route {
                    Route::Own => deliver(i, d.duplicate(), &mut aggs, &mut handled),
                    Route::Client => {
                        let to = nodes[i].peers.peer(k).client_dealing_sender.unwrap();
                        deliver(to, d.duplicate(), &mut aggs, &mut handled)
                    }
                    other => panic!("unexpected route {:?}", other),
                }
            }
        }
    }
    assert_eq!(handled, vec![3, 3, 3]);
}

#[test]
fn topology_dials_lower_indices() {
    assert_eq!(dealing_mesh::service::iterate_peers(0), Vec::<u32>::new());
    assert_eq!(dealing_mesh::service::iterate_peers(1), Vec::<u32>::new());
    assert_eq!(dealing_mesh::service::iterate_peers(4), vec![1, 2, 3]);
}
