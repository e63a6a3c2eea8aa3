//! Plain value types shared by every part of the protocol core.

use vstd::prelude::*;

verus! {

/// A node's public identity: the bytes of its public key.
pub type PublicKey = Vec<u8>;

/// The opaque payload of one dealing.
pub type DealingValue = Vec<u8>;

/// A round number assigned by the node that produced a dealing.
pub type ProtocolRoundIndex = u64;

/// Dense position of a node in the canonical (identity-sorted) ordering.
pub type NodeIndex = usize;

/// One node's contribution to one round.
pub struct Dealing {
    pub dealing: DealingValue,
    pub protocol_round: ProtocolRoundIndex,
    pub public_key: PublicKey,
}

/// Mathematical value of a dealing.
pub ghost struct DealingView {
    pub payload: Seq<u8>,
    pub round: u64,
    pub sender: Seq<u8>,
}

impl View for Dealing {
    type V = DealingView;

    open spec fn view(&self) -> DealingView {
        DealingView { payload: self.dealing@, round: self.protocol_round, sender: self.public_key@ }
    }
}

impl Dealing {
    /// Builds a dealing from its three parts.
    pub fn new(dealing: DealingValue, protocol_round: ProtocolRoundIndex, public_key: PublicKey) -> (r: Dealing)
        ensures
            r@ == (DealingView { payload: dealing@, round: protocol_round, sender: public_key@ }),
    {
        Dealing { dealing, protocol_round, public_key }
    }

    /// A field-by-field copy.
    pub fn duplicate(&self) -> (r: Dealing)
        ensures
            r@ == self@,
    {
        Dealing {
            dealing: crate::utils::copy_bytes(self.dealing.as_slice()),
            protocol_round: self.protocol_round,
            public_key: crate::utils::copy_bytes(self.public_key.as_slice()),
        }
    }
}

} // verus!
