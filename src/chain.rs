use vstd::prelude::*;

verus! {

/// Number of attestation subnets.
pub const ATTESTATION_SUBNET_COUNT: u64 = 64;

/// Number of sync-committee subnets.
pub const SYNC_COMMITTEE_SUBNET_COUNT: u64 = 4;

/// Number of members of a sync committee.
pub const SYNC_COMMITTEE_SIZE: u64 = 512;

/// Members of a sync committee per sync-committee subnet.
pub const SYNC_SUBCOMMITTEE_SIZE: u64 = 128;

/// Fewest slots between now and a duty for which a peer search is still worth starting;
/// a duty at least this far ahead is also subscribed to one slot before its slot, a nearer
/// one at once. Two slots: a duty three slots ahead must still get its search, which a
/// longer lookahead would rule out.
pub const MIN_PEER_DISCOVERY_SLOT_LOOK_AHEAD: u64 = 2;

/// Epochs a sync-committee subnet is kept after the subscription's `until_epoch` begins.
pub const SYNC_UNSUBSCRIBE_DELAY_EPOCHS: u64 = 2;

/// The attestation subnet of a committee: the committees of the epoch's earlier slots
/// come first, then the committee's own index, taken modulo the subnet count.
/// `None` where that count does not fit in 64 bits.
pub open spec fn attestation_subnet_of(
    slot: u64,
    committee_index: u64,
    committee_count_at_slot: u64,
    slots_per_epoch: u64,
) -> Option<u64>
    recommends
        slots_per_epoch > 0,
{
    let before = committee_count_at_slot * (slot % slots_per_epoch) + committee_index;
    if before > u64::MAX {
        None
    } else {
        Some((before % ATTESTATION_SUBNET_COUNT as int) as u64)
    }
}

/// Computes the attestation subnet of a committee at a slot.
pub fn compute_subnet(
    slot: u64,
    committee_index: u64,
    committee_count_at_slot: u64,
    slots_per_epoch: u64,
) -> (r: Option<u64>)
    requires
        slots_per_epoch > 0,
    ensures
        r == attestation_subnet_of(slot, committee_index, committee_count_at_slot, slots_per_epoch),
        r matches Some(id) ==> id < ATTESTATION_SUBNET_COUNT,
{
    let since_epoch_start = slot % slots_per_epoch;
    let committees = match committee_count_at_slot.checked_mul(since_epoch_start) {
        Some(c) => c,
        None => {
            proof {
                assert(committee_count_at_slot * since_epoch_start + committee_index > u64::MAX)
                    by (nonlinear_arith)
                    requires
                        committee_count_at_slot * since_epoch_start > u64::MAX,
                        committee_index >= 0,
                ;
            }
            return None;
        },
    };
    match committees.checked_add(committee_index) {
        Some(c) => Some(c % ATTESTATION_SUBNET_COUNT),
        None => None,
    }
}

/// The sync-committee subnet of a member index, where the index is that of a member.
pub open spec fn sync_subnet_of(index: u64) -> Option<u64> {
    if index < SYNC_COMMITTEE_SIZE {
        Some(index / SYNC_SUBCOMMITTEE_SIZE)
    } else {
        None
    }
}

/// Computes the sync-committee subnet of a member index.
pub fn compute_sync_subnet(index: u64) -> (r: Option<u64>)
    ensures
        r == sync_subnet_of(index),
        r matches Some(id) ==> id < SYNC_COMMITTEE_SUBNET_COUNT,
{
    if index < SYNC_COMMITTEE_SIZE {
        Some(index / SYNC_SUBCOMMITTEE_SIZE)
    } else {
        None
    }
}

/// The slot at which a sync-committee subscription needed until `until_epoch` ends:
/// the first slot of the epoch `SYNC_UNSUBSCRIBE_DELAY_EPOCHS` after `until_epoch`.
pub open spec fn sync_expiry_of(until_epoch: u64, slots_per_epoch: u64) -> Option<u64> {
    let end = (until_epoch + SYNC_UNSUBSCRIBE_DELAY_EPOCHS) * slots_per_epoch;
    if end > u64::MAX {
        None
    } else {
        Some(end as u64)
    }
}

/// Computes the slot at which a sync-committee subscription ends.
pub fn sync_expiry(until_epoch: u64, slots_per_epoch: u64) -> (r: Option<u64>)
    requires
        slots_per_epoch > 0,
    ensures
        r == sync_expiry_of(until_epoch, slots_per_epoch),
{
    if until_epoch > u64::MAX - SYNC_UNSUBSCRIBE_DELAY_EPOCHS {
        proof {
            assert((until_epoch + SYNC_UNSUBSCRIBE_DELAY_EPOCHS) * slots_per_epoch > u64::MAX)
                by (nonlinear_arith)
                requires
                    until_epoch + SYNC_UNSUBSCRIBE_DELAY_EPOCHS > u64::MAX,
                    slots_per_epoch >= 1,
            ;
        }
        return None;
    }
    let epoch: u64 = until_epoch + SYNC_UNSUBSCRIBE_DELAY_EPOCHS;
    epoch.checked_mul(slots_per_epoch)
}

/// The node's permanent subnets stand in for the chain specification's derivation from the
/// node identity: the identity's first six bits pick a subnet, and the node takes that one
/// and the ones after it.
///
/// The first six bits of a 256-bit node identity, read as a big-endian number.
pub open spec fn node_id_prefix(node_id: Seq<u8>) -> u64 {
    (node_id[0] / 4) as u64
}

/// The `index`-th permanent attestation subnet of a node whose identity starts with `prefix`.
pub open spec fn permanent_subnet(prefix: u64, index: int) -> u64 {
    ((prefix + index) % ATTESTATION_SUBNET_COUNT as int) as u64
}

/// The permanent attestation subnets of a node: `count` consecutive subnets, modulo the
/// subnet count, from its identity's prefix on.
pub open spec fn permanent_subnets_of(node_id: Seq<u8>, count: nat) -> Seq<u64> {
    Seq::new(count, |i: int| permanent_subnet(node_id_prefix(node_id), i))
}

/// Derives the permanent attestation subnets of a node.
pub fn compute_permanent_subnets(node_id: &[u8; 32], subnets_per_node: u64) -> (r: Vec<u64>)
    requires
        subnets_per_node <= ATTESTATION_SUBNET_COUNT,
    ensures
        r@ == permanent_subnets_of(node_id@, subnets_per_node as nat),
        r@.no_duplicates(),
        forall|i: int| 0 <= i < r@.len() ==> r@[i] < ATTESTATION_SUBNET_COUNT,
{
    let prefix: u64 = (node_id[0] / 4) as u64;
    let mut r: Vec<u64> = Vec::new();
    let mut i: u64 = 0;
    while i < subnets_per_node
        invariant
            i <= subnets_per_node <= ATTESTATION_SUBNET_COUNT,
            prefix == node_id_prefix(node_id@),
            prefix < 64,
            r@ =~= permanent_subnets_of(node_id@, i as nat),
        decreases subnets_per_node - i,
    {
        r.push((prefix + i) % ATTESTATION_SUBNET_COUNT);
        i = i + 1;
        assert(r@ =~= permanent_subnets_of(node_id@, i as nat));
    }
    assert forall|a: int, b: int| 0 <= a < b < r@.len() implies r@[a] != r@[b] by {
        assert(prefix + a < prefix + b < prefix + 64);
        if prefix + b < 64 {
        } else if prefix + a >= 64 {
        } else {
            assert(r@[b] == prefix + b - 64);
        }
    }
    r
}

} // verus!
