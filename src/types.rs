use vstd::prelude::*;

verus! {

/// A gossip subnet: one of the attestation subnets or one of the sync-committee subnets.
#[derive(Clone, Copy, Debug, PartialEq, Eq, Structural, Hash)]
pub enum Subnet {
    Attestation(u64),
    SyncCommittee(u64),
}

/// A validator's attestation duty: the committee it attests in, at which slot.
#[derive(Clone, Copy, Debug, PartialEq, Eq, Structural)]
pub struct ValidatorSubscription {
    pub attestation_committee_index: u64,
    pub slot: u64,
    pub committee_count_at_slot: u64,
    pub is_aggregator: bool,
}

/// A validator's sync-committee membership, needed until `until_epoch`.
#[derive(Clone, Debug, PartialEq, Eq)]
pub struct SyncCommitteeSubscription {
    pub validator_index: u64,
    pub sync_committee_indices: Vec<u64>,
    pub until_epoch: u64,
}

/// One input of the service.
#[derive(Clone, Debug, PartialEq, Eq)]
pub enum Subscription {
    Attestation(ValidatorSubscription),
    SyncCommittee(SyncCommitteeSubscription),
}

/// A subnet to look for peers on, and the slot until which such peers are useful.
#[derive(Clone, Copy, Debug, PartialEq, Eq, Structural)]
pub struct SubnetDiscovery {
    pub subnet: Subnet,
    pub min_ttl: u64,
}

/// A command of the service to the gossip, discovery and node-record layers.
#[derive(Clone, Debug, PartialEq, Eq)]
pub enum SubnetServiceMessage {
    Subscribe(Subnet),
    Unsubscribe(Subnet),
    EnrAdd(Subnet),
    EnrRemove(Subnet),
    DiscoverPeers(Vec<SubnetDiscovery>),
}

/// The mathematical value of a `SubnetServiceMessage`.
pub enum Message {
    Subscribe(Subnet),
    Unsubscribe(Subnet),
    EnrAdd(Subnet),
    EnrRemove(Subnet),
    DiscoverPeers(Seq<SubnetDiscovery>),
}

impl View for SubnetServiceMessage {
    type V = Message;

    open spec fn view(&self) -> Message {
        match self {
            SubnetServiceMessage::Subscribe(s) => Message::Subscribe(*s),
            SubnetServiceMessage::Unsubscribe(s) => Message::Unsubscribe(*s),
            SubnetServiceMessage::EnrAdd(s) => Message::EnrAdd(*s),
            SubnetServiceMessage::EnrRemove(s) => Message::EnrRemove(*s),
            SubnetServiceMessage::DiscoverPeers(d) => Message::DiscoverPeers(d@),
        }
    }
}

} // verus!
