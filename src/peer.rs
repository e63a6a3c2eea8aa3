//! The peer registry: one entry per known node, identities and addresses
//! unique, each entry holding the delivery channels to that node.

use vstd::prelude::*;
use crate::types::{NodeIndex, PublicKey};
use crate::utils::{all_distinct, bytes_eq, copy_bytes, count_less, rank_of};

verus! {

/// A known node and the channels through which dealings reach it. `C` is
/// the channel type: the channel this node opened when it dialed the peer
/// (`client_dealing_sender`), and the one made when the peer dialed this
/// node (`server_dealing_sender`).
pub struct Peer<C> {
    pub address: String,
    pub public_key: PublicKey,
    pub client_dealing_sender: Option<C>,
    pub server_dealing_sender: Option<C>,
}

/// Mathematical value of a peer entry.
pub ghost struct PeerView {
    pub address: Seq<char>,
    pub public_key: Seq<u8>,
    pub has_client: bool,
    pub has_server: bool,
}

impl<C> View for Peer<C> {
    type V = PeerView;

    open spec fn view(&self) -> PeerView {
        PeerView {
            address: self.address@,
            public_key: self.public_key@,
            has_client: self.client_dealing_sender is Some,
            has_server: self.server_dealing_sender is Some,
        }
    }
}

impl<C> Peer<C> {
    /// A peer with no channel yet.
    pub open spec fn spec_new(address: String, public_key: PublicKey) -> Self {
        Peer { address, public_key, client_dealing_sender: None, server_dealing_sender: None }
    }

    /// A peer with no channel yet.
    pub fn new(address: String, public_key: PublicKey) -> (r: Self)
        ensures
            r == Self::spec_new(address, public_key),
            r@ == (PeerView {
                address: address@,
                public_key: public_key@,
                has_client: false,
                has_server: false,
            }),
    {
        Peer { address, public_key, client_dealing_sender: None, server_dealing_sender: None }
    }
}

/// Why a registry operation did not change the registry.
#[derive(Debug, PartialEq, Eq, Structural)]
pub enum RegistryError {
    /// A peer with this identity is already registered.
    DuplicateIdentity,
    /// Another registered peer already has this address.
    DuplicateAddress,
    /// No peer with this identity is registered.
    NotFound,
}

/// How a dealing reaches one registry entry.
#[derive(Debug, PartialEq, Eq, Structural, Clone, Copy)]
pub enum Route {
    /// The entry is this node itself: nothing is sent.
    Own,
    /// Through the channel opened when this node dialed the peer.
    Client,
    /// Through the channel made when the peer dialed this node.
    Server,
    /// The peer has no channel.
    Unreachable,
}

/// The route to `p` from the node whose identity is `own`: the dialed
/// channel first, else the accepted one.
pub open spec fn route_of(p: PeerView, own: Seq<u8>) -> Route {
    if p.public_key == own {
        Route::Own
    } else if p.has_client {
        Route::Client
    } else if p.has_server {
        Route::Server
    } else {
        Route::Unreachable
    }
}

/// The identities of a sequence of entries.
pub open spec fn keys(v: Seq<PeerView>) -> Seq<Seq<u8>> {
    v.map_values(|p: PeerView| p.public_key)
}

/// The addresses of a sequence of entries.
pub open spec fn addresses(v: Seq<PeerView>) -> Seq<Seq<char>> {
    v.map_values(|p: PeerView| p.address)
}

/// The entries `v` with the accepted-connection channel of the peer
/// `key` present.
pub open spec fn with_server(v: Seq<PeerView>, key: Seq<u8>) -> Seq<PeerView> {
    v.map_values(
        |p: PeerView|
            if p.public_key == key {
                PeerView { has_server: true, ..p }
            } else {
                p
            },
    )
}

/// The entries `es` with `sender` attached as the accepted-connection
/// channel of the peer `key`, and nothing else changed.
pub open spec fn attach_server<C>(es: Seq<Peer<C>>, key: Seq<u8>, sender: C) -> Seq<Peer<C>> {
    es.map_values(
        |p: Peer<C>|
            if p.public_key@ == key {
                Peer { server_dealing_sender: Some(sender), ..p }
            } else {
                p
            },
    )
}

/// Identities and addresses are each unique.
pub open spec fn registry_wf(v: Seq<PeerView>) -> bool {
    all_distinct(keys(v)) && all_distinct(addresses(v))
}

/// What inserting `p` into the entries `v` gives: the new entries and the
/// result. A known identity is refused first, then a known address.
pub open spec fn add_outcome(v: Seq<PeerView>, p: PeerView) -> (Seq<PeerView>, Result<(), RegistryError>) {
    if keys(v).contains(p.public_key) {
        (v, Err(RegistryError::DuplicateIdentity))
    } else if addresses(v).contains(p.address) {
        (v, Err(RegistryError::DuplicateAddress))
    } else {
        (v.push(p), Ok(()))
    }
}

/// Inserting an identity a second time leaves the registry as the first
/// insertion left it and is refused; when the first insertion was
/// accepted, the second is refused as a duplicate identity.
pub proof fn lemma_add_twice(v: Seq<PeerView>, p: PeerView)
    ensures
        add_outcome(add_outcome(v, p).0, p).0 == add_outcome(v, p).0,
        add_outcome(add_outcome(v, p).0, p).1 is Err,
        add_outcome(v, p).1 is Ok ==> add_outcome(add_outcome(v, p).0, p).1 == Err::<
            (),
            RegistryError,
        >(RegistryError::DuplicateIdentity),
{
    let v1 = add_outcome(v, p).0;
    if add_outcome(v, p).1 is Ok {
        assert(keys(v1)[v.len() as int] == p.public_key);
    }
}

/// Two peers with different identities and the same address are never
/// both registered: once the first is inserted, the second is refused.
pub proof fn lemma_shared_address_refused(v: Seq<PeerView>, p: PeerView, q: PeerView)
    requires
        add_outcome(v, p).1 is Ok,
        p.public_key != q.public_key,
        p.address == q.address,
    ensures
        add_outcome(add_outcome(v, p).0, q).1 is Err,
{
    let v1 = add_outcome(v, p).0;
    if add_outcome(v, p).1 is Ok {
        assert(addresses(v1)[v.len() as int] == q.address);
    }
}

/// The registry of known peers, this node included.
pub struct PeerMap<C> {
    peers: Vec<Peer<C>>,
}

impl<C> View for PeerMap<C> {
    type V = Seq<PeerView>;

    closed spec fn view(&self) -> Seq<PeerView> {
        self.peers@.map_values(|p: Peer<C>| p@)
    }
}

impl<C> PeerMap<C> {
    /// The stored entries, channels included, in registry order.
    pub closed spec fn entries(&self) -> Seq<Peer<C>> {
        self.peers@
    }

    /// The representation invariant.
    pub open spec fn wf(&self) -> bool {
        registry_wf(self@)
    }

    /// An empty registry.
    pub fn new() -> (r: Self)
        ensures
            r@ == Seq::<PeerView>::empty(),
            r.entries() == Seq::<Peer<C>>::empty(),
            r.wf(),
    {
        let r = PeerMap { peers: Vec::new() };
        assert(r@ =~= Seq::<PeerView>::empty());
        r
    }

    /// Number of registered peers, this node included.
    pub fn peers_count(&self) -> (r: usize)
        ensures
            r == self@.len(),
    {
        self.peers.len()
    }

    /// The entry at position `i`.
    pub fn peer(&self, i: usize) -> (r: &Peer<C>)
        requires
            i < self@.len(),
        ensures
            r@ == self@[i as int],
            *r == self.entries()[i as int],
    {
        &self.peers[i]
    }

    /// Position of the entry with identity `public_key`, if any.
    fn find_key(&self, public_key: &[u8]) -> (r: Option<usize>)
        ensures
            match r {
                Some(i) => i < self@.len() && self@[i as int].public_key == public_key@,
                None => !keys(self@).contains(public_key@),
            },
    {
        let mut i: usize = 0;
        while i < self.peers.len()
            invariant
                0 <= i <= self@.len(),
                self@.len() == self.peers@.len(),
                forall|k: int| 0 <= k < i ==> self@[k].public_key != public_key@,
            decreases self@.len() - i,
        {
            assert(self@[i as int] == self.peers@[i as int]@);
            if bytes_eq(self.peers[i].public_key.as_slice(), public_key) {
                return Some(i);
            }
            i = i + 1;
        }
        proof {
            if keys(self@).contains(public_key@) {
                let k = choose|k: int| 0 <= k < keys(self@).len() && keys(self@)[k] == public_key@;
                assert(self@[k].public_key == public_key@);
            }
        }
        None
    }

    /// Whether some entry has address `address`.
    fn has_address(&self, address: &String) -> (r: bool)
        ensures
            r == addresses(self@).contains(address@),
    {
        let mut i: usize = 0;
        while i < self.peers.len()
            invariant
                0 <= i <= self@.len(),
                self@.len() == self.peers@.len(),
                forall|k: int| 0 <= k < i ==> self@[k].address != address@,
            decreases self@.len() - i,
        {
            assert(self@[i as int] == self.peers@[i as int]@);
            if self.peers[i].address == *address {
                assert(addresses(self@)[i as int] == address@);
                return true;
            }
            i = i + 1;
        }
        proof {
            if addresses(self@).contains(address@) {
                let k = choose|k: int|
                    0 <= k < addresses(self@).len() && addresses(self@)[k] == address@;
                assert(self@[k].address == address@);
            }
        }
        false
    }

    /// Whether a peer with identity `public_key` is registered.
    pub fn contains_public_key(&self, public_key: &[u8]) -> (r: bool)
        ensures
            r == keys(self@).contains(public_key@),
    {
        match self.find_key(public_key) {
            Some(i) => {
                assert(keys(self@)[i as int] == public_key@);
                true
            },
            None => false,
        }
    }

    /// The identities of all registered peers, in registry order.
    pub fn public_keys(&self) -> (r: Vec<PublicKey>)
        ensures
            r@.map_values(|v: Vec<u8>| v@) == keys(self@),
    {
        let mut r: Vec<PublicKey> = Vec::new();
        let mut i: usize = 0;
        while i < self.peers.len()
            invariant
                0 <= i <= self@.len(),
                self@.len() == self.peers@.len(),
                r@.len() == i,
                forall|k: int| 0 <= k < i ==> (#[trigger] r@[k])@ == self@[k].public_key,
            decreases self@.len() - i,
        {
            assert(self@[i as int] == self.peers@[i as int]@);
            r.push(copy_bytes(self.peers[i].public_key.as_slice()));
            i = i + 1;
        }
        assert(r@.map_values(|v: Vec<u8>| v@) =~= keys(self@));
        r
    }

    /// The canonical index of `public_key`: the number of registered
    /// identities that sort before it.
    pub fn index_of_public_key(&self, public_key: &[u8]) -> (r: Result<NodeIndex, RegistryError>)
        ensures
            keys(self@).contains(public_key@) <==> r is Ok,
            r matches Ok(i) ==> i == count_less(keys(self@), public_key@),
            r matches Err(e) ==> e == RegistryError::NotFound,
    {
        if !self.contains_public_key(public_key) {
            return Err(RegistryError::NotFound);
        }
        let all = self.public_keys();
        Ok(rank_of(&all, public_key))
    }

    /// Registers `new_peer` unless its identity or its address is already
    /// registered; the registry is unchanged on refusal.
    pub fn add_peer(&mut self, new_peer: Peer<C>) -> (r: Result<(), RegistryError>)
        requires
            old(self).wf(),
        ensures
            final(self).wf(),
            final(self)@ == add_outcome(old(self)@, new_peer@).0,
            r == add_outcome(old(self)@, new_peer@).1,
            r is Ok ==> final(self).entries() == old(self).entries().push(new_peer),
            r is Err ==> final(self).entries() == old(self).entries(),
    {
        if self.contains_public_key(new_peer.public_key.as_slice()) {
            return Err(RegistryError::DuplicateIdentity);
        }
        if self.has_address(&new_peer.address) {
            return Err(RegistryError::DuplicateAddress);
        }
        let ghost before = self@;
        let ghost pv = new_peer@;
        self.peers.push(new_peer);
        proof {
            assert(self@ =~= before.push(pv));
            assert(keys(self@) =~= keys(before).push(pv.public_key));
            assert(addresses(self@) =~= addresses(before).push(pv.address));
            assert forall|a: int, b: int|
                0 <= a < keys(self@).len() && 0 <= b < keys(self@).len() && a != b implies keys(
                self@,
            )[a] != keys(self@)[b] by {
                if a < before.len() && b < before.len() {
                    assert(keys(before)[a] == keys(self@)[a]);
                    assert(keys(before)[b] == keys(self@)[b]);
                } else if a < before.len() {
                    assert(keys(before)[a] == keys(self@)[a]);
                } else {
                    assert(keys(before)[b] == keys(self@)[b]);
                }
            }
            assert forall|a: int, b: int|
                0 <= a < addresses(self@).len() && 0 <= b < addresses(self@).len() && a
                    != b implies addresses(self@)[a] != addresses(self@)[b] by {
                if a < before.len() && b < before.len() {
                    assert(addresses(before)[a] == addresses(self@)[a]);
                    assert(addresses(before)[b] == addresses(self@)[b]);
                } else if a < before.len() {
                    assert(addresses(before)[a] == addresses(self@)[a]);
                } else {
                    assert(addresses(before)[b] == addresses(self@)[b]);
                }
            }
        }
        Ok(())
    }

    /// Attaches `sender` as the accepted-connection channel of the peer with
    /// identity `peer_public_key`; refused when no such peer is registered.
    pub fn set_peer_server_dealing_sender(&mut self, peer_public_key: &[u8], sender: C) -> (r:
        Result<(), RegistryError>)
        requires
            old(self).wf(),
        ensures
            final(self).wf(),
            r is Ok <==> keys(old(self)@).contains(peer_public_key@),
            r matches Err(e) ==> e == RegistryError::NotFound && final(self)@ == old(self)@,
            r is Ok ==> final(self)@ == with_server(old(self)@, peer_public_key@),
            r is Err ==> final(self).entries() == old(self).entries(),
            r is Ok ==> final(self).entries() == attach_server(
                old(self).entries(),
                peer_public_key@,
                sender,
            ),
    {
        match self.find_key(peer_public_key) {
            None => {
                proof {
                    assert forall|k: int| 0 <= k < self@.len() implies self@[k].public_key
                        != peer_public_key@ by {
                        assert(keys(self@)[k] == self@[k].public_key);
                    }
                    assert forall|k: int| 0 <= k < self.peers@.len() implies self.peers@[k].public_key@
                        != peer_public_key@ by {
                        assert(self@[k] == self.peers@[k]@);
                    }
                }
                Err(RegistryError::NotFound)
            },
            Some(i) => {
                let ghost before = self@;
                let ghost before_entries = self.peers@;
                let ghost attached = sender;
                let mut p = self.peers.remove(i);
                p.server_dealing_sender = Some(sender);
                self.peers.insert(i, p);
                proof {
                    assert forall|k: int| 0 <= k < before.len() implies (#[trigger] self@[k])
                        == if before[k].public_key == peer_public_key@ {
                        PeerView { has_server: true, ..before[k] }
                    } else {
                        before[k]
                    } by {
                        if k != i {
                            assert(keys(before)[k] != keys(before)[i as int]);
                        }
                    }
                    assert(keys(self@) =~= keys(before));
                    assert(addresses(self@) =~= addresses(before));
                    assert(keys(before)[i as int] == peer_public_key@);
                    assert(self@ =~= with_server(before, peer_public_key@));
                    assert forall|k: int| 0 <= k < before_entries.len() implies (
                    #[trigger] self.peers@[k]) == if before_entries[k].public_key@
                        == peer_public_key@ {
                        Peer { server_dealing_sender: Some(attached), ..before_entries[k] }
                    } else {
                        before_entries[k]
                    } by {
                        assert(before[k] == before_entries[k]@);
                        if k != i {
                            assert(keys(before)[k] != keys(before)[i as int]);
                        }
                    }
                    assert(self.peers@ =~= attach_server(before_entries, peer_public_key@, attached));
                }
                Ok(())
            },
        }
    }

    /// The route of a dealing made by the node `own` to each entry, in
    /// registry order; each entry's route depends on that entry alone.
    pub fn fan_out_routes(&self, own: &[u8]) -> (r: Vec<Route>)
        ensures
            r@.len() == self@.len(),
            forall|i: int| 0 <= i < r@.len() ==> #[trigger] r@[i] == route_of(self@[i], own@),
    {
        let mut r: Vec<Route> = Vec::new();
        let mut i: usize = 0;
        while i < self.peers.len()
            invariant
                0 <= i <= self@.len(),
                self@.len() == self.peers@.len(),
                r@.len() == i,
                forall|k: int| 0 <= k < i ==> #[trigger] r@[k] == route_of(self@[k], own@),
            decreases self@.len() - i,
        {
            assert(self@[i as int] == self.peers@[i as int]@);
            let p = &self.peers[i];
            let route = if bytes_eq(p.public_key.as_slice(), own) {
                Route::Own
            } else if p.client_dealing_sender.is_some() {
                Route::Client
            } else if p.server_dealing_sender.is_some() {
                Route::Server
            } else {
                Route::Unreachable
            };
            r.push(route);
            i = i + 1;
        }
        r
    }
}

} // verus!
