use vstd::prelude::*;

use crate::chain::{
    attestation_subnet_of, sync_expiry_of, sync_subnet_of, ATTESTATION_SUBNET_COUNT,
    MIN_PEER_DISCOVERY_SLOT_LOOK_AHEAD, SYNC_COMMITTEE_SUBNET_COUNT,
};
use crate::types::{
    Message, Subnet, SubnetDiscovery, Subscription, SyncCommitteeSubscription,
    ValidatorSubscription,
};

verus! {

/// The state of the subnet service as mathematics.
///
/// `attestation[id]` is the slot at which the short-lived subscription to attestation
/// subnet `id` ends, `sync[id]` that of sync-committee subnet `id`; `None` where there is
/// none. `scheduled` holds the attestation duties `(subnet, slot)` whose subscription
/// starts one slot before `slot`.
pub struct Model {
    pub slot: u64,
    pub slots_per_epoch: u64,
    pub permanent: Seq<u64>,
    pub attestation: Seq<Option<u64>>,
    pub sync: Seq<Option<u64>>,
    pub scheduled: Seq<(u64, u64)>,
}

/// What one call with a batch of subscriptions has built so far: the state, the messages
/// emitted, and for each subnet the latest slot until which peers are wanted on it.
pub struct Batch {
    pub model: Model,
    pub out: Seq<Message>,
    pub att_cand: Seq<Option<u64>>,
    pub sync_cand: Seq<Option<u64>>,
}

pub open spec fn later(a: u64, b: u64) -> u64 {
    if a >= b {
        a
    } else {
        b
    }
}

impl Model {
    /// The shape every reachable state has.
    pub open spec fn wf(self) -> bool {
        &&& self.slots_per_epoch > 0
        &&& self.permanent.len() <= ATTESTATION_SUBNET_COUNT
        &&& forall|i: int|
            0 <= i < self.permanent.len() ==> self.permanent[i] < ATTESTATION_SUBNET_COUNT
        &&& self.attestation.len() == ATTESTATION_SUBNET_COUNT
        &&& self.sync.len() == SYNC_COMMITTEE_SUBNET_COUNT
        &&& forall|id: u64| #[trigger]
            self.permanent.contains(id) && id < ATTESTATION_SUBNET_COUNT
                ==> self.attestation[id as int] is None
        &&& forall|i: int|
            0 <= i < self.scheduled.len() ==> {
                &&& (#[trigger] self.scheduled[i]).0 < ATTESTATION_SUBNET_COUNT
                &&& self.scheduled[i].1 < u64::MAX
            }
    }

    /// Whether the short-lived subscriptions hold `s`.
    pub open spec fn is_short_lived(self, s: Subnet) -> bool {
        match s {
            Subnet::Attestation(id) => id < ATTESTATION_SUBNET_COUNT
                && self.attestation[id as int] is Some,
            Subnet::SyncCommittee(id) => id < SYNC_COMMITTEE_SUBNET_COUNT
                && self.sync[id as int] is Some,
        }
    }

    /// The slot at which the short-lived subscription to `s` ends, if there is one.
    pub open spec fn end_of(self, s: Subnet) -> Option<u64> {
        match s {
            Subnet::Attestation(id) => if id < ATTESTATION_SUBNET_COUNT {
                self.attestation[id as int]
            } else {
                None
            },
            Subnet::SyncCommittee(id) => if id < SYNC_COMMITTEE_SUBNET_COUNT {
                self.sync[id as int]
            } else {
                None
            },
        }
    }

    /// Whether `s` is one of the permanent subnets.
    pub open spec fn is_permanent(self, s: Subnet) -> bool {
        match s {
            Subnet::Attestation(id) => self.permanent.contains(id),
            Subnet::SyncCommittee(_) => false,
        }
    }
}

/// Starts, or extends to `end`, the short-lived subscription to attestation subnet `id`.
/// A permanent subnet, or an end already reached, changes nothing.
pub open spec fn subscribe_now(m: Model, id: u64, end: u64) -> (Model, Seq<Message>) {
    if m.permanent.contains(id) || end <= m.slot {
        (m, seq![])
    } else {
        match m.attestation[id as int] {
            Some(e) => (Model { attestation: m.attestation.update(id as int, Some(later(e, end))), ..m }, seq![]),
            None => (
                Model { attestation: m.attestation.update(id as int, Some(end)), ..m },
                seq![Message::Subscribe(Subnet::Attestation(id))],
            ),
        }
    }
}

/// Records that peers on a subnet are wanted until `ttl`, keeping the later of two wishes.
pub open spec fn wish(c: Seq<Option<u64>>, id: u64, ttl: u64) -> Seq<Option<u64>> {
    match c[id as int] {
        Some(t) => c.update(id as int, Some(later(t, ttl))),
        None => c.update(id as int, Some(ttl)),
    }
}

/// Handles one attestation duty. Its subnet is wished for peers until the slot after the
/// duty, permanent or not. A duty in the past, or whose subnet or end slot cannot be
/// computed, joins nothing. One at least `MIN_PEER_DISCOVERY_SLOT_LOOK_AHEAD` slots ahead is
/// scheduled to start one slot before its slot; a nearer one starts now. Either way it ends
/// at the slot after the duty, and a permanent subnet is never joined.
pub open spec fn add_attestation(b: Batch, s: ValidatorSubscription) -> Batch {
    match attestation_subnet_of(
        s.slot,
        s.attestation_committee_index,
        s.committee_count_at_slot,
        b.model.slots_per_epoch,
    ) {
        None => b,
        Some(id) => if s.slot == u64::MAX {
            b
        } else {
            let end = (s.slot + 1) as u64;
            let b1 = Batch { att_cand: wish(b.att_cand, id, end), ..b };
            let m = b.model;
            if s.slot < m.slot {
                b1
            } else if s.slot >= m.slot + MIN_PEER_DISCOVERY_SLOT_LOOK_AHEAD {
                if m.permanent.contains(id) || m.scheduled.contains((id, s.slot)) {
                    b1
                } else {
                    Batch { model: Model { scheduled: m.scheduled.push((id, s.slot)), ..m }, ..b1 }
                }
            } else {
                let (m2, msgs) = subscribe_now(m, id, end);
                Batch { model: m2, out: b.out + msgs, ..b1 }
            }
        },
    }
}

/// Joins sync-committee subnet `id` until `end`, or extends that membership.
pub open spec fn add_sync_subnet(b: Batch, id: u64, end: u64) -> Batch {
    let b1 = Batch { sync_cand: wish(b.sync_cand, id, end), ..b };
    let m = b.model;
    match m.sync[id as int] {
        Some(e) => Batch {
            model: Model { sync: m.sync.update(id as int, Some(later(e, end))), ..m },
            ..b1
        },
        None => Batch {
            model: Model { sync: m.sync.update(id as int, Some(end)), ..m },
            out: b.out + seq![
                Message::Subscribe(Subnet::SyncCommittee(id)),
                Message::EnrAdd(Subnet::SyncCommittee(id)),
            ],
            ..b1
        },
    }
}

/// Joins the subnets of the member indices `indices`, in order, until `end`.
pub open spec fn add_sync_indices(b: Batch, indices: Seq<u64>, end: u64) -> Batch
    decreases indices.len(),
{
    if indices.len() == 0 {
        b
    } else {
        let b1 = add_sync_indices(b, indices.drop_last(), end);
        add_sync_subnet(b1, sync_subnet_of(indices.last()).unwrap(), end)
    }
}

/// Whether every index of `indices` is that of a sync-committee member.
pub open spec fn all_members(indices: Seq<u64>) -> bool {
    forall|i: int| 0 <= i < indices.len() ==> (#[trigger] sync_subnet_of(indices[i])) is Some
}

/// Handles one sync-committee subscription. One with an index outside the committee, or
/// that ends before the current slot, is dropped.
pub open spec fn add_sync(b: Batch, s: SyncCommitteeSubscription) -> Batch {
    if !all_members(s.sync_committee_indices@) {
        b
    } else {
        match sync_expiry_of(s.until_epoch, b.model.slots_per_epoch) {
            None => b,
            Some(end) => if end <= b.model.slot {
                b
            } else {
                add_sync_indices(b, s.sync_committee_indices@, end)
            },
        }
    }
}

pub open spec fn add_subscription(b: Batch, s: Subscription) -> Batch {
    match s {
        Subscription::Attestation(a) => add_attestation(b, a),
        Subscription::SyncCommittee(c) => add_sync(b, c),
    }
}

/// Handles the subscriptions in order.
pub open spec fn add_all(b: Batch, subs: Seq<Subscription>) -> Batch
    decreases subs.len(),
{
    if subs.len() == 0 {
        b
    } else {
        add_subscription(add_all(b, subs.drop_last()), subs.last())
    }
}

/// Whether a wish for peers until `c` leaves time for a search, seen from `slot`.
pub open spec fn worth_searching(c: Option<u64>, slot: u64) -> bool {
    c matches Some(t) && t > slot + MIN_PEER_DISCOVERY_SLOT_LOOK_AHEAD
}

/// The searches for the attestation subnets below `n`, in subnet order.
pub open spec fn attestation_searches(c: Seq<Option<u64>>, n: nat, slot: u64) -> Seq<SubnetDiscovery>
    decreases n,
{
    if n == 0 {
        seq![]
    } else {
        let prev = attestation_searches(c, (n - 1) as nat, slot);
        if worth_searching(c[n - 1], slot) {
            prev.push(SubnetDiscovery { subnet: Subnet::Attestation((n - 1) as u64), min_ttl: c[n - 1].unwrap() })
        } else {
            prev
        }
    }
}

/// The searches for the sync-committee subnets below `n`, in subnet order.
pub open spec fn sync_searches(c: Seq<Option<u64>>, n: nat, slot: u64) -> Seq<SubnetDiscovery>
    decreases n,
{
    if n == 0 {
        seq![]
    } else {
        let prev = sync_searches(c, (n - 1) as nat, slot);
        if worth_searching(c[n - 1], slot) {
            prev.push(SubnetDiscovery { subnet: Subnet::SyncCommittee((n - 1) as u64), min_ttl: c[n - 1].unwrap() })
        } else {
            prev
        }
    }
}

/// A message asking for peers on the subnets of `d`, where there are any.
pub open spec fn search_message(d: Seq<SubnetDiscovery>) -> Seq<Message> {
    if d.len() == 0 {
        seq![]
    } else {
        seq![Message::DiscoverPeers(d)]
    }
}

/// The peer searches a batch asks for: one over its attestation subnets, then one over its
/// sync-committee subnets, each only where some subnet is worth a search.
pub open spec fn batch_search_messages(b: Batch) -> Seq<Message> {
    search_message(attestation_searches(b.att_cand, ATTESTATION_SUBNET_COUNT as nat, b.model.slot))
        + search_message(sync_searches(b.sync_cand, SYNC_COMMITTEE_SUBNET_COUNT as nat, b.model.slot))
}

pub open spec fn empty_batch(m: Model) -> Batch {
    Batch {
        model: m,
        out: seq![],
        att_cand: Seq::new(ATTESTATION_SUBNET_COUNT as nat, |i: int| None),
        sync_cand: Seq::new(SYNC_COMMITTEE_SUBNET_COUNT as nat, |i: int| None),
    }
}

/// The state after a batch of subscriptions, and the messages it emits: those of each
/// subscription in order, then its peer searches.
pub open spec fn subscriptions_outcome(m: Model, subs: Seq<Subscription>) -> (Model, Seq<Message>) {
    let b = add_all(empty_batch(m), subs);
    (b.model, b.out + batch_search_messages(b))
}

/// The attestation subscriptions that end at or before `t`, in subnet order.
pub open spec fn attestation_expiries(a: Seq<Option<u64>>, n: nat, t: u64) -> Seq<Message>
    decreases n,
{
    if n == 0 {
        seq![]
    } else {
        let prev = attestation_expiries(a, (n - 1) as nat, t);
        if a[n - 1] matches Some(e) && e <= t {
            prev.push(Message::Unsubscribe(Subnet::Attestation((n - 1) as u64)))
        } else {
            prev
        }
    }
}

/// The sync-committee subscriptions that end at or before `t`, in subnet order.
pub open spec fn sync_expiries(s: Seq<Option<u64>>, n: nat, t: u64) -> Seq<Message>
    decreases n,
{
    if n == 0 {
        seq![]
    } else {
        let prev = sync_expiries(s, (n - 1) as nat, t);
        if s[n - 1] matches Some(e) && e <= t {
            prev + seq![
                Message::Unsubscribe(Subnet::SyncCommittee((n - 1) as u64)),
                Message::EnrRemove(Subnet::SyncCommittee((n - 1) as u64)),
            ]
        } else {
            prev
        }
    }
}

/// Drops the entries that end at or before `t`.
pub open spec fn expire(a: Seq<Option<u64>>, t: u64) -> Seq<Option<u64>> {
    a.map_values(|x: Option<u64>| if x matches Some(e) && e <= t { None } else { x })
}

/// Starts the scheduled subscriptions whose first slot has come, and keeps the others.
pub open spec fn run_scheduled(m: Model, sched: Seq<(u64, u64)>) -> (Model, Seq<Message>, Seq<(u64, u64)>)
    decreases sched.len(),
{
    if sched.len() == 0 {
        (m, seq![], seq![])
    } else {
        let (m1, o1, k1) = run_scheduled(m, sched.drop_last());
        let (id, s) = sched.last();
        if s <= m.slot + 1 {
            let (m2, o2) = subscribe_now(m1, id, (s + 1) as u64);
            (m2, o1 + o2, k1)
        } else {
            (m1, o1, k1.push((id, s)))
        }
    }
}

/// The state at slot `t`, and the messages of that slot: the ends of subscriptions
/// first, then the starts of scheduled ones.
pub open spec fn tick_outcome(m: Model, t: u64) -> (Model, Seq<Message>) {
    let m1 = Model {
        slot: t,
        attestation: expire(m.attestation, t),
        sync: expire(m.sync, t),
        scheduled: seq![],
        ..m
    };
    let (m2, o, kept) = run_scheduled(m1, m.scheduled);
    (
        Model { scheduled: kept, ..m2 },
        attestation_expiries(m.attestation, ATTESTATION_SUBNET_COUNT as nat, t)
            + sync_expiries(m.sync, SYNC_COMMITTEE_SUBNET_COUNT as nat, t) + o,
    )
}

/// The messages of a service's start: each permanent subnet joined and advertised, then
/// one search for peers on all of them.
pub open spec fn start_pairs(perm: Seq<u64>) -> Seq<Message>
    decreases perm.len(),
{
    if perm.len() == 0 {
        seq![]
    } else {
        start_pairs(perm.drop_last()) + seq![
            Message::Subscribe(Subnet::Attestation(perm.last())),
            Message::EnrAdd(Subnet::Attestation(perm.last())),
        ]
    }
}

pub open spec fn permanent_searches(perm: Seq<u64>) -> Seq<SubnetDiscovery> {
    perm.map_values(|p: u64| SubnetDiscovery { subnet: Subnet::Attestation(p), min_ttl: u64::MAX })
}

pub open spec fn start_messages(perm: Seq<u64>) -> Seq<Message> {
    if perm.len() == 0 {
        seq![]
    } else {
        start_pairs(perm).push(Message::DiscoverPeers(permanent_searches(perm)))
    }
}

} // verus!
