//! The decisions of the protocol service: admitting peers, accepting their
//! streams, numbering this node's own dealings and routing them. The
//! service's transport runs these and performs what they decide.

use vstd::prelude::*;
use crate::node_setup::{IdentityError, NodeSetup, PUBLIC_KEY_LEN};
use crate::peer::{
    add_outcome, attach_server, keys, route_of, with_server, Peer, PeerMap, PeerView,
    RegistryError, Route,
};
use crate::types::{Dealing, DealingValue, DealingView, PublicKey};
use crate::utils::{bytes_eq, copy_bytes};

verus! {

/// The address under which a node registers itself.
pub const SELF_ADDRESS: &'static str = "http://localhost:2323";

/// Number of rounds one `InitialDealing` request produces.
pub const INITIAL_DEALING_ROUNDS: u64 = 3;

/// Why a local dealing could not be numbered.
#[derive(Debug, PartialEq, Eq, Structural)]
pub enum ServiceError {
    /// The round counter has no next value.
    RoundsExhausted,
}

/// Why a peer was not admitted.
#[derive(Debug, PartialEq, Eq, Structural)]
pub enum AdmissionError {
    /// The peer's health probe reported it unhealthy.
    Unhealthy,
    /// The probed identity is this node's own.
    SelfConnection,
    /// The registry refused the peer.
    Registry(RegistryError),
}

/// How an admission that was not refused ended.
#[derive(Debug, PartialEq, Eq, Structural, Clone, Copy)]
pub enum Admission {
    /// The peer was registered with the dialed channel.
    Registered,
    /// A peer with this identity was already registered; nothing changed.
    AlreadyKnown,
}

/// A node's protocol state: its identity, and its registry of peers. `C` is
/// the type of a delivery channel.
pub struct MySample<C> {
    pub peers: PeerMap<C>,
    pub node_setup: NodeSetup,
    pub node_count: u32,
    pub hostname: String,
}

impl<C> MySample<C> {
    /// The representation invariant.
    pub open spec fn wf(&self) -> bool {
        self.peers.wf()
    }

    /// A node with a fresh identity, registered in its own registry under
    /// `SELF_ADDRESS` so that its own dealings are handled like everyone
    /// else's.
    pub fn new(node_count: u32, hostname: String) -> (r: Result<Self, IdentityError>)
        ensures
            r matches Ok(s) ==> {
                &&& s.wf()
                &&& s.node_count == node_count
                &&& s.hostname == hostname
                &&& s.node_setup.receivers == node_count
                &&& s.node_setup.public_key@.len() == PUBLIC_KEY_LEN
                &&& s.node_setup.next_round_spec() == 0
                &&& s.peers@ == seq![
                    PeerView {
                        address: SELF_ADDRESS@,
                        public_key: s.node_setup.public_key@,
                        has_client: false,
                        has_server: false,
                    },
                ]
            },
    {
        let node_setup = NodeSetup::new(node_count)?;
        let mut peers: PeerMap<C> = PeerMap::new();
        let self_peer: Peer<C> = Peer::new(
            SELF_ADDRESS.to_owned(),
            copy_bytes(node_setup.public_key.as_slice()),
        );
        let _added = peers.add_peer(self_peer);
        proof {
            assert(peers@ =~= seq![
                PeerView {
                    address: SELF_ADDRESS@,
                    public_key: node_setup.public_key@,
                    has_client: false,
                    has_server: false,
                },
            ]);
        }
        Ok(MySample { peers, node_setup, node_count, hostname })
    }

    /// Numbers this node's next dealing with the next round and signs it
    /// with this node's identity; refused when the counter is exhausted.
    pub fn local_dealing(&mut self, dealing: DealingValue) -> (r: Result<Dealing, ServiceError>)
        ensures
            final(self).peers == old(self).peers,
            final(self).node_count == old(self).node_count,
            final(self).node_setup.public_key == old(self).node_setup.public_key,
            old(self).node_setup.next_round_spec() < u64::MAX <==> r is Ok,
            r matches Ok(d) ==> {
                &&& d@ == DealingView {
                    payload: dealing@,
                    round: old(self).node_setup.next_round_spec(),
                    sender: old(self).node_setup.public_key@,
                }
                &&& final(self).node_setup.next_round_spec() == old(
                    self,
                ).node_setup.next_round_spec() + 1
            },
            r is Err ==> r == Err::<Dealing, ServiceError>(ServiceError::RoundsExhausted)
                && final(self).node_setup.next_round_spec() == old(self).node_setup.next_round_spec(),
    {
        if self.node_setup.next_round() == u64::MAX {
            return Err(ServiceError::RoundsExhausted);
        }
        let protocol_round = self.node_setup.get_next_round();
        Ok(Dealing::new(dealing, protocol_round, copy_bytes(self.node_setup.public_key.as_slice())))
    }

    /// The route of this node's dealings to each registry entry, in
    /// registry order.
    pub fn fan_out_routes(&self) -> (r: Vec<Route>)
        ensures
            r@.len() == self.peers@.len(),
            forall|i: int|
                0 <= i < r@.len() ==> #[trigger] r@[i] == route_of(
                    self.peers@[i],
                    self.node_setup.public_key@,
                ),
    {
        self.peers.fan_out_routes(self.node_setup.public_key.as_slice())
    }

    /// A peer dialed this node and presented `peer_public_key`: registers it
    /// under the address the connection came from unless the identity is
    /// known, then attaches `sender` as its accepted-connection channel.
    pub fn receive_dealings(&mut self, peer_public_key: PublicKey, remote_address: String, sender: C) -> (r:
        Result<(), RegistryError>)
        requires
            old(self).wf(),
        ensures
            final(self).wf(),
            final(self).node_setup == old(self).node_setup,
            final(self).node_count == old(self).node_count,
            r is Ok <==> keys(old(self).peers@).contains(peer_public_key@) || add_outcome(
                old(self).peers@,
                PeerView {
                    address: remote_address@,
                    public_key: peer_public_key@,
                    has_client: false,
                    has_server: false,
                },
            ).1 is Ok,
            r is Err ==> r == Err::<(), RegistryError>(RegistryError::DuplicateAddress)
                && final(self).peers@ == old(self).peers@,
            r is Err ==> final(self).peers.entries() == old(self).peers.entries(),
            r is Ok ==> final(self).peers.entries() == attach_server(
                if keys(old(self).peers@).contains(peer_public_key@) {
                    old(self).peers.entries()
                } else {
                    old(self).peers.entries().push(Peer::<C>::spec_new(remote_address, peer_public_key))
                },
                peer_public_key@,
                sender,
            ),
            r is Ok ==> final(self).peers@ == with_server(
                add_outcome(
                    old(self).peers@,
                    PeerView {
                        address: remote_address@,
                        public_key: peer_public_key@,
                        has_client: false,
                        has_server: false,
                    },
                ).0,
                peer_public_key@,
            ),
    {
        let key = copy_bytes(peer_public_key.as_slice());
        if !self.peers.contains_public_key(key.as_slice()) {
            let new_peer: Peer<C> = Peer::new(remote_address, peer_public_key);
            match self.peers.add_peer(new_peer) {
                Ok(()) => {},
                Err(e) => {
                    return Err(e);
                },
            }
            assert(self.peers@.last().public_key == key@);
            assert(keys(self.peers@)[self.peers@.len() - 1] == key@);
        }
        self.peers.set_peer_server_dealing_sender(key.as_slice(), sender)
    }

    /// Decides on a peer this node dialed at `address`: its health probe
    /// answered `healthy` and `peer_public_key`, and `sender` is the channel
    /// opened to it. An unhealthy peer is refused and a peer that is this
    /// node itself is refused; otherwise the peer is registered with
    /// `sender` unless its identity is already known.
    pub fn add_peer(
        &mut self,
        address: String,
        healthy: bool,
        peer_public_key: PublicKey,
        sender: C,
    ) -> (r: Result<Admission, AdmissionError>)
        requires
            old(self).wf(),
        ensures
            final(self).wf(),
            final(self).node_setup == old(self).node_setup,
            final(self).node_count == old(self).node_count,
            !healthy ==> r == Err::<Admission, AdmissionError>(AdmissionError::Unhealthy)
                && final(self).peers@ == old(self).peers@,
            !healthy || peer_public_key@ == old(self).node_setup.public_key@
                ==> final(self).peers.entries() == old(self).peers.entries(),
            healthy && peer_public_key@ == old(self).node_setup.public_key@ ==> r == Err::<
                Admission,
                AdmissionError,
            >(AdmissionError::SelfConnection) && final(self).peers@ == old(self).peers@,
            healthy && peer_public_key@ != old(self).node_setup.public_key@ ==> {
                let p = PeerView {
                    address: address@,
                    public_key: peer_public_key@,
                    has_client: true,
                    has_server: false,
                };
                &&& final(self).peers@ == add_outcome(old(self).peers@, p).0
                &&& final(self).peers.entries() == if add_outcome(old(self).peers@, p).1 is Ok {
                    old(self).peers.entries().push(
                        Peer {
                            address,
                            public_key: peer_public_key,
                            client_dealing_sender: Some(sender),
                            server_dealing_sender: None,
                        },
                    )
                } else {
                    old(self).peers.entries()
                }
                &&& r == match add_outcome(old(self).peers@, p).1 {
                    Ok(()) => Ok::<Admission, AdmissionError>(Admission::Registered),
                    Err(RegistryError::DuplicateIdentity) => Ok(Admission::AlreadyKnown),
                    Err(e) => Err(AdmissionError::Registry(e)),
                }
            },
    {
        if !healthy {
            return Err(AdmissionError::Unhealthy);
        }
        if bytes_eq(peer_public_key.as_slice(), self.node_setup.public_key.as_slice()) {
            return Err(AdmissionError::SelfConnection);
        }
        let new_peer = Peer {
            address,
            public_key: peer_public_key,
            client_dealing_sender: Some(sender),
            server_dealing_sender: None,
        };
        match self.peers.add_peer(new_peer) {
            Ok(()) => Ok(Admission::Registered),
            Err(RegistryError::DuplicateIdentity) => Ok(Admission::AlreadyKnown),
            Err(e) => Err(AdmissionError::Registry(e)),
        }
    }

    /// The answer to a health probe: healthy, and this node's identity.
    pub fn check_health(&self) -> (r: (bool, PublicKey))
        ensures
            r.0,
            r.1@ == self.node_setup.public_key@,
    {
        (true, copy_bytes(self.node_setup.public_key.as_slice()))
    }
}

/// The indices of the nodes that the node with index `node_index` dials
/// when the test topology is brought up: every index from 1 up to, not
/// including, its own.
pub fn iterate_peers(node_index: u32) -> (r: Vec<u32>)
    ensures
        r@.len() == if node_index == 0 { 0 } else { node_index - 1 },
        forall|i: int| 0 <= i < r@.len() ==> #[trigger] r@[i] == i + 1,
{
    let mut r: Vec<u32> = Vec::new();
    let mut n: u32 = 1;
    while n < node_index
        invariant
            1 <= n,
            node_index == 0 ==> n == 1,
            node_index > 0 ==> n <= node_index,
            r@.len() == n - 1,
            forall|i: int| 0 <= i < r@.len() ==> #[trigger] r@[i] == i + 1,
        decreases node_index - n,
    {
        r.push(n);
        n = n + 1;
    }
    r
}

} // verus!
