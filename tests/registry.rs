use dealing_mesh::peer::{Peer, PeerMap, RegistryError, Route};
use dealing_mesh::utils::{bytes_lt, has_unique_elements, rank_of};

fn peer(addr: &str, key: &[u8]) -> Peer<u32> {
    Peer::new(addr.to_string(), key.to_vec())
}

#[test]
fn unique_elements_detects_duplicates() {
    assert!(has_unique_elements(&vec![]));
    assert!(has_unique_elements(&vec![vec![1], vec![2], vec![1, 2]]));
    assert!(!has_unique_elements(&vec![vec![1, 2], vec![3], vec![1, 2]]));
}

#[test]
fn byte_order_is_lexicographic() {
    assert!(bytes_lt(&[1, 2], &[1, 3]));
    assert!(bytes_lt(&[1], &[1, 0]));
    assert!(!bytes_lt(&[1, 0], &[1]));
    assert!(!bytes_lt(&[2], &[2]));
    assert!(bytes_lt(&[], &[0]));
    assert_eq!(rank_of(&vec![vec![5], vec![1], vec![3]], &[3]), 1);
    assert_eq!(rank_of(&vec![vec![5], vec![1], vec![3]], &[9]), 3);
}

#[test]
fn inserting_same_identity_twice_is_refused() {
    let mut m: PeerMap<u32> = PeerMap::new();
    assert_eq!(m.add_peer(peer("a", &[1])), Ok(()));
    assert_eq!(m.add_peer(peer("b", &[1])), Err(RegistryError::DuplicateIdentity));
    assert_eq!(m.peers_count(), 1);
    assert_eq!(m.peer(0).address, "a");
    assert_eq!(m.public_keys(), vec![vec![1u8]]);
}

#[test]
fn shared_address_is_refused() {
    let mut m: PeerMap<u32> = PeerMap::new();
    assert_eq!(m.add_peer(peer("a", &[1])), Ok(()));
    assert_eq!(m.add_peer(peer("a", &[2])), Err(RegistryError::DuplicateAddress));
    assert_eq!(m.peers_count(), 1);
    assert!(!m.contains_public_key(&[2]));
}

#[test]
fn index_follows_identity_order() {
    let mut m: PeerMap<u32> = PeerMap::new();
    assert_eq!(m.add_peer(peer("a", &[9, 1])), Ok(()));
    assert_eq!(m.add_peer(peer("b", &[3])), Ok(()));
    assert_eq!(m.add_peer(peer("c", &[9])), Ok(()));
    assert_eq!(m.index_of_public_key(&[3]), Ok(0));
    assert_eq!(m.index_of_public_key(&[9]), Ok(1));
    assert_eq!(m.index_of_public_key(&[9, 1]), Ok(2));
    assert_eq!(m.index_of_public_key(&[4]), Err(RegistryError::NotFound));
}

#[test]
fn server_sender_needs_a_registered_peer() {
    let mut m: PeerMap<u32> = PeerMap::new();
    assert_eq!(m.set_peer_server_dealing_sender(&[1], 7), Err(RegistryError::NotFound));
    assert_eq!(m.add_peer(peer("a", &[1])), Ok(()));
    assert_eq!(m.set_peer_server_dealing_sender(&[1], 7), Ok(()));
    assert_eq!(m.peer(0).server_dealing_sender, Some(7));
    assert_eq!(m.peer(0).client_dealing_sender, None);
}

#[test]
fn unreachable_peer_does_not_affect_others() {
    let mut m: PeerMap<u32> = PeerMap::new();
    assert_eq!(m.add_peer(peer("self", &[0])), Ok(()));
    assert_eq!(m.add_peer(peer("silent", &[1])), Ok(()));
    let mut dialed = peer("dialed", &[2]);
    dialed.client_dealing_sender = Some(2);
    dialed.server_dealing_sender = Some(20);
    assert_eq!(m.add_peer(dialed), Ok(()));
    assert_eq!(m.add_peer(peer("accepted", &[3])), Ok(()));
    assert_eq!(m.set_peer_server_dealing_sender(&[3], 30), Ok(()));
    assert_eq!(
        m.fan_out_routes(&[0]),
        vec![Route::Own, Route::Unreachable, Route::Client, Route::Server]
    );
}

#[test]
fn attaching_server_sender_keeps_other_channels() {
    let mut m: PeerMap<u32> = PeerMap::new();
    let mut dialed = peer("a", &[1]);
    dialed.client_dealing_sender = Some(3);
    assert_eq!(m.add_peer(dialed), Ok(()));
    let mut other = peer("b", &[2]);
    other.server_dealing_sender = Some(4);
    assert_eq!(m.add_peer(other), Ok(()));
    assert_eq!(m.set_peer_server_dealing_sender(&[1], 8), Ok(()));
    assert_eq!(m.peer(0).client_dealing_sender, Some(3));
    assert_eq!(m.peer(0).server_dealing_sender, Some(8));
    assert_eq!(m.peer(1).server_dealing_sender, Some(4));
    assert_eq!(m.peer(1).client_dealing_sender, None);
}
