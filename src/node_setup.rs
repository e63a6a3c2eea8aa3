//! A node's identity: its Ed25519 key pair, associated data and the
//! counter from which it numbers the rounds of its own dealings.

use vstd::prelude::*;
use vstd::string::StrSliceExecFns;
use vstd::string::StringSliceAdditionalSpecFns;
use ring::signature::KeyPair;
use crate::types::{DealingValue, ProtocolRoundIndex, PublicKey};

verus! {

#[verifier::external_type_specification]
#[verifier::external_body]
pub struct ExEd25519KeyPair(ring::signature::Ed25519KeyPair);

/// Length in bytes of an Ed25519 public key.
pub const PUBLIC_KEY_LEN: usize = 32;

/// Length in bytes of an Ed25519 signature.
pub const SIGNATURE_LEN: usize = 64;

/// Associated data every node carries.
pub const ASSOCIATED_DATA: &'static str = "asdfasdfasdfasdfasdfasdf";

/// Message signed by the simulated dealing work.
pub const WORK_MESSAGE: &'static str = "hello, world";

/// Why a key pair could not be made.
#[derive(Debug, PartialEq, Eq, Structural)]
pub enum IdentityError {
    /// The system entropy source failed.
    Entropy,
    /// The freshly generated PKCS#8 document was not accepted back.
    KeyRejected,
}

#[verifier::external_type_specification]
#[verifier::external_body]
pub struct ExSystemRandom(ring::rand::SystemRandom);

/// Relies on ring's `SystemRandom::new`: a handle on the operating
/// system's entropy source; it cannot fail.
pub assume_specification[ ring::rand::SystemRandom::new ]() -> ring::rand::SystemRandom;

/// Relies on ring's `Ed25519KeyPair::generate_pkcs8`: a fresh PKCS#8 v2
/// document, or `None` when the entropy source fails.
#[verifier::external_body]
fn generate_pkcs8_document(rng: &ring::rand::SystemRandom) -> (r: Option<Vec<u8>>) {
    ring::signature::Ed25519KeyPair::generate_pkcs8(rng).ok().map(|d| d.as_ref().to_vec())
}

/// Relies on ring's `Ed25519KeyPair::from_pkcs8`: parses a PKCS#8 v2 document,
/// `None` when it is rejected.
#[verifier::external_body]
fn key_pair_from_pkcs8(document: &[u8]) -> (r: Option<ring::signature::Ed25519KeyPair>) {
    ring::signature::Ed25519KeyPair::from_pkcs8(document).ok()
}

/// Relies on ring's `KeyPair::public_key` for Ed25519: the encoded public key,
/// which is always 32 bytes long.
#[verifier::external_body]
fn public_key_bytes(key: &ring::signature::Ed25519KeyPair) -> (r: Vec<u8>)
    ensures
        r@.len() == PUBLIC_KEY_LEN,
{
    key.public_key().as_ref().to_vec()
}

/// Relies on ring's `Ed25519KeyPair::sign`: the signature of `msg`, which is
/// always 64 bytes long.
#[verifier::external_body]
fn sign_bytes(key: &ring::signature::Ed25519KeyPair, msg: &[u8]) -> (r: Vec<u8>)
    ensures
        r@.len() == SIGNATURE_LEN,
{
    key.sign(msg).as_ref().to_vec()
}

/// Generates a fresh Ed25519 key pair from the system entropy source.
pub fn generate_key_pair() -> (r: Result<ring::signature::Ed25519KeyPair, IdentityError>) {
    let rng = ring::rand::SystemRandom::new();
    match generate_pkcs8_document(&rng) {
        None => Err(IdentityError::Entropy),
        Some(document) => match key_pair_from_pkcs8(document.as_slice()) {
            None => Err(IdentityError::KeyRejected),
            Some(key) => Ok(key),
        },
    }
}

/// The expensive part of producing a dealing: `node_count * node_count`
/// fresh key pairs, each signing a fixed message. The payload is the last
/// signature made (empty when `node_count` is zero).
pub fn produce_dealing_value(node_count: u32) -> (r: Result<DealingValue, IdentityError>)
    ensures
        r matches Ok(v) ==> v@.len() == if node_count == 0 { 0 } else { SIGNATURE_LEN as int },
        node_count == 0 ==> r is Ok,
{
    let message = WORK_MESSAGE.as_bytes_vec();
    let mut sig: Vec<u8> = Vec::new();
    let mut i: u32 = 0;
    while i < node_count
        invariant
            i <= node_count,
            sig@.len() == if i == 0 { 0 } else { SIGNATURE_LEN as int },
        decreases node_count - i,
    {
        let mut j: u32 = 0;
        while j < node_count
            invariant
                i < node_count,
                j <= node_count,
                sig@.len() == if i == 0 && j == 0 { 0 } else { SIGNATURE_LEN as int },
            decreases node_count - j,
        {
            let key = generate_key_pair()?;
            sig = sign_bytes(&key, message.as_slice());
            j = j + 1;
        }
        i = i + 1;
    }
    Ok(sig)
}

/// The parts of a node's identity that only its own methods touch: the
/// private key and the round counter.
pub struct NodeSecrets {
    key: ring::signature::Ed25519KeyPair,
    protocol_round: ProtocolRoundIndex,
}

/// A node's identity and round counter.
pub struct NodeSetup {
    pub receivers: u32,
    pub ad: Vec<u8>,
    pub public_key: PublicKey,
    pub secrets: NodeSecrets,
}

impl NodeSecrets {
    /// The value of the round counter.
    pub closed spec fn round_spec(&self) -> ProtocolRoundIndex {
        self.protocol_round
    }
}

impl NodeSetup {
    /// The round number the next call of `get_next_round` hands out.
    pub open spec fn next_round_spec(&self) -> ProtocolRoundIndex {
        self.secrets.round_spec()
    }

    /// Creates a fresh identity whose round counter starts at zero.
    pub fn new(receivers: u32) -> (r: Result<Self, IdentityError>)
        ensures
            r matches Ok(s) ==> {
                &&& s.receivers == receivers
                &&& s.ad@ == ASSOCIATED_DATA.spec_bytes()
                &&& s.public_key@.len() == PUBLIC_KEY_LEN
                &&& s.next_round_spec() == 0
            },
    {
        let ad = ASSOCIATED_DATA.as_bytes_vec();
        let key = generate_key_pair()?;
        let public_key = public_key_bytes(&key);
        Ok(NodeSetup { receivers, ad, public_key, secrets: NodeSecrets { key, protocol_round: 0 } })
    }

    /// The round number the next call of `get_next_round` hands out.
    pub fn next_round(&self) -> (r: ProtocolRoundIndex)
        ensures
            r == self.next_round_spec(),
    {
        self.secrets.protocol_round
    }

    /// Hands out the current round number and advances the counter by one.
    pub fn get_next_round(&mut self) -> (r: ProtocolRoundIndex)
        requires
            old(self).next_round_spec() < u64::MAX,
        ensures
            r == old(self).next_round_spec(),
            final(self).next_round_spec() == r + 1,
            final(self).public_key == old(self).public_key,
            final(self).ad == old(self).ad,
            final(self).receivers == old(self).receivers,
    {
        let current_round = self.secrets.protocol_round;
        self.secrets.protocol_round = current_round + 1;
        current_round
    }
}

/// The values handed out by `k` successive calls of `get_next_round` that
/// start with the counter at `c`, and the counter after them: each call
/// hands out the counter and then advances it by one.
pub open spec fn take_rounds(c: int, k: nat) -> (Seq<int>, int)
    decreases k,
{
    if k == 0 {
        (Seq::empty(), c)
    } else {
        let (taken, next) = take_rounds(c, (k - 1) as nat);
        (taken.push(next), next + 1)
    }
}

/// `k` successive calls of `get_next_round` starting at counter `c` hand
/// out exactly `c, c + 1, ..., c + k - 1`, so no value twice, and leave the
/// counter at `c + k`.
pub proof fn lemma_rounds_consecutive(c: int, k: nat)
    ensures
        take_rounds(c, k).0 == Seq::new(k, |i: int| c + i),
        take_rounds(c, k).1 == c + k,
        crate::utils::all_distinct(take_rounds(c, k).0),
    decreases k,
{
    if k > 0 {
        lemma_rounds_consecutive(c, (k - 1) as nat);
        assert(take_rounds(c, k).0 =~= Seq::new(k, |i: int| c + i));
    }
}

} // verus!
