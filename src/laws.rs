use vstd::prelude::*;

use crate::chain::{sync_subnet_of, ATTESTATION_SUBNET_COUNT, SYNC_COMMITTEE_SUBNET_COUNT};
use crate::model::{
    add_all, add_attestation, add_subscription, add_sync, add_sync_indices, all_members,
    add_sync_subnet, attestation_expiries, attestation_searches, batch_search_messages, empty_batch,
    expire, later, permanent_searches, run_scheduled, search_message, start_messages, start_pairs, subscribe_now,
    subscriptions_outcome, sync_expiries, sync_searches, tick_outcome, Batch, Model,
};
use crate::types::{
    Message, Subnet, SubnetDiscovery, Subscription, SyncCommitteeSubscription,
    ValidatorSubscription,
};

verus! {

/// Every short-lived entry of `m` ends after its current slot.
pub open spec fn all_live(m: Model) -> bool {
    &&& forall|j: int|
        0 <= j < m.attestation.len() ==> (#[trigger] m.attestation[j] matches Some(e) ==> e > m.slot)
    &&& forall|j: int| 0 <= j < m.sync.len() ==> (#[trigger] m.sync[j] matches Some(e) ==> e > m.slot)
}

/// `m2` holds every attestation entry of `m1`, ending no earlier.
pub open spec fn keeps_entries(m1: Model, m2: Model) -> bool {
    forall|j: int|
        0 <= j < m1.attestation.len() ==> (#[trigger] m1.attestation[j] matches Some(e) ==> (
        m2.attestation[j] matches Some(e2) && e2 >= e))
}

proof fn lemma_subscribe_now(m: Model, id: u64, end: u64)
    requires
        m.wf(),
        all_live(m),
        id < ATTESTATION_SUBNET_COUNT,
    ensures
        subscribe_now(m, id, end).0.wf(),
        all_live(subscribe_now(m, id, end).0),
        keeps_entries(m, subscribe_now(m, id, end).0),
        subscribe_now(m, id, end).0 == (Model { attestation: subscribe_now(m, id, end).0.attestation, ..m }),
{
}

proof fn lemma_run_scheduled(m: Model, sched: Seq<(u64, u64)>)
    requires
        m.wf(),
        all_live(m),
        forall|i: int|
            0 <= i < sched.len() ==> (#[trigger] sched[i]).0 < ATTESTATION_SUBNET_COUNT
                && sched[i].1 < u64::MAX,
    ensures
        run_scheduled(m, sched).0.wf(),
        all_live(run_scheduled(m, sched).0),
        keeps_entries(m, run_scheduled(m, sched).0),
        run_scheduled(m, sched).0 == (Model { attestation: run_scheduled(m, sched).0.attestation, ..m }),
        forall|i: int|
            0 <= i < run_scheduled(m, sched).2.len() ==> sched.contains(
                #[trigger] run_scheduled(m, sched).2[i],
            ),
    decreases sched.len(),
{
    if sched.len() > 0 {
        let prefix = sched.drop_last();
        assert forall|i: int|
            0 <= i < prefix.len() implies (#[trigger] prefix[i]).0 < ATTESTATION_SUBNET_COUNT
                && prefix[i].1 < u64::MAX by {
            assert(prefix[i] == sched[i]);
        }
        lemma_run_scheduled(m, prefix);
        let (m1, o1, k1) = run_scheduled(m, prefix);
        let (id, s) = sched.last();
        if s <= m.slot + 1 {
            lemma_subscribe_now(m1, id, (s + 1) as u64);
        } else {
            let k = k1.push((id, s));
            assert forall|i: int| 0 <= i < k.len() implies sched.contains(#[trigger] k[i]) by {
                if i < k1.len() {
                    let w = choose|w: int| 0 <= w < prefix.len() && prefix[w] == k1[i];
                    assert(sched[w] == k[i]);
                } else {
                    assert(sched[sched.len() - 1] == k[i]);
                }
            }
        }
    }
}

/// After the tick of slot `t`, the state is well formed, every short-lived subscription
/// ends after `t`, none is of a permanent subnet, and every subscription that had not
/// ended by `t` is still held.
pub proof fn tick_keeps_exactly_live_subscriptions(m: Model, t: u64)
    requires
        m.wf(),
    ensures
        tick_outcome(m, t).0.wf(),
        tick_outcome(m, t).0.slot == t,
        forall|s: Subnet| #[trigger]
            tick_outcome(m, t).0.is_short_lived(s) ==> !tick_outcome(m, t).0.is_permanent(s)
                && tick_outcome(m, t).0.end_of(s).unwrap() > t,
        forall|s: Subnet|
            (#[trigger] m.is_short_lived(s) && m.end_of(s).unwrap() > t) ==> tick_outcome(
                m,
                t,
            ).0.is_short_lived(s),
{
    let m1 = Model {
        slot: t,
        attestation: expire(m.attestation, t),
        sync: expire(m.sync, t),
        scheduled: seq![],
        ..m
    };
    assert(m1.wf());
    assert(all_live(m1));
    lemma_run_scheduled(m1, m.scheduled);
    let (m2, o, kept) = run_scheduled(m1, m.scheduled);
    let r = tick_outcome(m, t).0;
    assert(r == Model { scheduled: kept, ..m2 });
    assert forall|i: int|
        0 <= i < r.scheduled.len() implies (#[trigger] r.scheduled[i]).0 < ATTESTATION_SUBNET_COUNT
            && r.scheduled[i].1 < u64::MAX by {
        let w = choose|w: int| 0 <= w < m.scheduled.len() && m.scheduled[w] == kept[i];
    }
    assert(r.wf());
    assert forall|s: Subnet| #[trigger]
        r.is_short_lived(s) implies !r.is_permanent(s) && r.end_of(s).unwrap() > t by {
        match s {
            Subnet::Attestation(id) => {
                assert(r.attestation[id as int] is Some);
            },
            Subnet::SyncCommittee(id) => {
                assert(r.sync[id as int] is Some);
            },
        }
    }
    assert forall|s: Subnet|
        (#[trigger] m.is_short_lived(s) && m.end_of(s).unwrap() > t) implies r.is_short_lived(s) by {
        match s {
            Subnet::Attestation(id) => {
                assert(m1.attestation[id as int] is Some);
            },
            Subnet::SyncCommittee(id) => {
                assert(m1.sync[id as int] is Some);
            },
        }
    }
}

proof fn lemma_sync_indices(b: Batch, indices: Seq<u64>, end: u64)
    requires
        b.model.sync.len() == SYNC_COMMITTEE_SUBNET_COUNT,
        b.sync_cand.len() == SYNC_COMMITTEE_SUBNET_COUNT,
        all_members(indices),
    ensures
        add_sync_indices(b, indices, end).model == (Model {
            sync: add_sync_indices(b, indices, end).model.sync,
            ..b.model
        }),
        add_sync_indices(b, indices, end).model.sync.len() == SYNC_COMMITTEE_SUBNET_COUNT,
        add_sync_indices(b, indices, end).sync_cand.len() == SYNC_COMMITTEE_SUBNET_COUNT,
        add_sync_indices(b, indices, end).att_cand == b.att_cand,
        forall|i: int|
            0 <= i < indices.len() ==> add_sync_indices(b, indices, end).model.sync[
                #[trigger] sync_subnet_of(indices[i]).unwrap() as int] is Some,
        forall|j: int|
            0 <= j < SYNC_COMMITTEE_SUBNET_COUNT ==> (#[trigger] b.model.sync[j] is Some
                ==> add_sync_indices(b, indices, end).model.sync[j] is Some),
        (forall|i: int|
            0 <= i < indices.len() ==> b.model.sync[#[trigger] sync_subnet_of(indices[i]).unwrap() as int] is Some)
            ==> add_sync_indices(b, indices, end).out == b.out,
        (forall|i: int|
            0 <= i < indices.len() ==> b.model.sync[#[trigger] sync_subnet_of(indices[i]).unwrap() as int] is Some)
            ==> forall|j: int|
            0 <= j < SYNC_COMMITTEE_SUBNET_COUNT ==> (#[trigger] add_sync_indices(b, indices, end).model.sync[j] is Some
                <==> b.model.sync[j] is Some),
    decreases indices.len(),
{
    if indices.len() > 0 {
        let prefix = indices.drop_last();
        assert forall|i: int| 0 <= i < prefix.len() implies (#[trigger] sync_subnet_of(prefix[i])) is Some by {
            assert(prefix[i] == indices[i]);
            assert(sync_subnet_of(indices[i]) is Some);
        }
        lemma_sync_indices(b, prefix, end);
        let last = indices.last();
        assert(sync_subnet_of(indices[indices.len() - 1]) is Some);
        assert forall|i: int|
            0 <= i < indices.len() implies add_sync_indices(b, indices, end).model.sync[
                #[trigger] sync_subnet_of(indices[i]).unwrap() as int] is Some by {
            if i < prefix.len() {
                assert(prefix[i] == indices[i]);
            }
        }
        if forall|i: int|
            0 <= i < indices.len() ==> b.model.sync[#[trigger] sync_subnet_of(indices[i]).unwrap() as int] is Some {
            assert forall|i: int|
                0 <= i < prefix.len() implies b.model.sync[#[trigger] sync_subnet_of(prefix[i]).unwrap() as int] is Some by {
                assert(prefix[i] == indices[i]);
            }
            assert(b.model.sync[sync_subnet_of(indices[indices.len() - 1]).unwrap() as int] is Some);
        }
    }
}

/// What one sync-committee subscription alone does: its batch is `add_sync`, and only
/// its sync-committee search can follow the messages of that.
proof fn lemma_single_sync(m: Model, s: SyncCommitteeSubscription)
    requires
        m.wf(),
    ensures
        add_all(empty_batch(m), seq![Subscription::SyncCommittee(s)]) == add_sync(empty_batch(m), s),
        add_sync(empty_batch(m), s).model.wf(),
        subscriptions_outcome(m, seq![Subscription::SyncCommittee(s)]).1 == add_sync(empty_batch(m), s).out
            + search_message(
            sync_searches(
                add_sync(empty_batch(m), s).sync_cand,
                SYNC_COMMITTEE_SUBNET_COUNT as nat,
                m.slot,
            ),
        ),
{
    let sub = seq![Subscription::SyncCommittee(s)];
    let b0 = empty_batch(m);
    assert(sub.drop_last() =~= Seq::<Subscription>::empty());
    assert(add_all(b0, sub.drop_last()) == b0);
    let b = add_sync(b0, s);
    let idx = s.sync_committee_indices@;
    if all_members(idx) {
        match crate::chain::sync_expiry_of(s.until_epoch, m.slots_per_epoch) {
            Some(end) => {
                lemma_sync_indices(b0, idx, end);
            },
            None => {},
        }
    }
    assert(b.att_cand == b0.att_cand);
    assert(b.model.slot == m.slot);
    lemma_attestation_searches(b.att_cand, ATTESTATION_SUBNET_COUNT as nat, m.slot);
    assert(search_message(attestation_searches(b.att_cand, ATTESTATION_SUBNET_COUNT as nat, m.slot))
        =~= Seq::<Message>::empty());
    assert(batch_search_messages(b) =~= search_message(
        sync_searches(b.sync_cand, SYNC_COMMITTEE_SUBNET_COUNT as nat, m.slot),
    ));
}

/// A sync-committee subscription whose subnets the node already holds joins nothing,
/// advertises nothing, leaves nothing, keeps the set of short-lived subscriptions as it
/// was, and brings at most one peer search.
pub proof fn held_sync_subscription_only_searches(m: Model, s: SyncCommitteeSubscription)
    requires
        m.wf(),
        forall|i: int|
            0 <= i < s.sync_committee_indices@.len() ==> ((#[trigger] sync_subnet_of(
                s.sync_committee_indices@[i],
            )) matches Some(id) ==> m.sync[id as int] is Some),
    ensures
        ({
            let (m2, o) = subscriptions_outcome(m, seq![Subscription::SyncCommittee(s)]);
            &&& o.len() <= 1
            &&& forall|k: int| 0 <= k < o.len() ==> #[trigger] o[k] is DiscoverPeers
            &&& forall|x: Subnet| #[trigger] m2.is_short_lived(x) == m.is_short_lived(x)
        }),
{
    lemma_single_sync(m, s);
    let b0 = empty_batch(m);
    let b = add_sync(b0, s);
    let idx = s.sync_committee_indices@;
    if all_members(idx) {
        match crate::chain::sync_expiry_of(s.until_epoch, m.slots_per_epoch) {
            Some(end) => {
                if end > m.slot {
                    assert forall|i: int| 0 <= i < idx.len() implies b0.model.sync[
                        #[trigger] sync_subnet_of(idx[i]).unwrap() as int] is Some by {
                        assert(sync_subnet_of(idx[i]) is Some);
                    }
                    lemma_sync_indices(b0, idx, end);
                    assert forall|x: Subnet| #[trigger] b.model.is_short_lived(x) == m.is_short_lived(x) by {
                        match x {
                            Subnet::SyncCommittee(j) => {
                                if j < SYNC_COMMITTEE_SUBNET_COUNT {
                                    assert(b.model.sync[j as int] is Some <==> m.sync[j as int] is Some);
                                }
                            },
                            _ => {},
                        }
                    }
                }
            },
            None => {},
        }
    }
    assert(b.out =~= Seq::<Message>::empty());
}

/// Handing the service the same sync-committee subscription a second time joins no subnet
/// and advertises none: at most one peer search comes of it.
pub proof fn sync_resubscription_only_searches(m: Model, s: SyncCommitteeSubscription)
    requires
        m.wf(),
    ensures
        ({
            let sub = seq![Subscription::SyncCommittee(s)];
            let second = subscriptions_outcome(subscriptions_outcome(m, sub).0, sub).1;
            &&& second.len() <= 1
            &&& forall|k: int| 0 <= k < second.len() ==> #[trigger] second[k] is DiscoverPeers
        }),
{
    lemma_single_sync(m, s);
    let b0 = empty_batch(m);
    let m1 = add_sync(b0, s).model;
    lemma_single_sync(m1, s);
    let b1 = empty_batch(m1);
    let idx = s.sync_committee_indices@;
    if all_members(idx) {
        match crate::chain::sync_expiry_of(s.until_epoch, m.slots_per_epoch) {
            Some(end) => {
                if end > m.slot {
                    lemma_sync_indices(b0, idx, end);
                    lemma_sync_indices(b1, idx, end);
                }
            },
            None => {},
        }
    }
    assert(add_sync(b1, s).out =~= Seq::<Message>::empty());
}

proof fn lemma_attestation_searches(c: Seq<Option<u64>>, n: nat, slot: u64)
    requires
        n <= c.len(),
        n <= ATTESTATION_SUBNET_COUNT,
    ensures
        attestation_searches(c, n, slot).len() <= n,
        forall|k: int|
            0 <= k < attestation_searches(c, n, slot).len() ==> ((#[trigger] attestation_searches(
                c,
                n,
                slot,
            )[k]).subnet matches Subnet::Attestation(x) && x < n),
        forall|a: int, b: int|
            0 <= a < b < attestation_searches(c, n, slot).len() ==> (#[trigger] attestation_searches(
                c,
                n,
                slot,
            )[a]).subnet->Attestation_0 < (#[trigger] attestation_searches(c, n, slot)[b]).subnet->Attestation_0,
        (forall|j: int| 0 <= j < n ==> #[trigger] c[j] is None) ==> attestation_searches(c, n, slot).len() == 0,
    decreases n,
{
    if n > 0 {
        lemma_attestation_searches(c, (n - 1) as nat, slot);
        let prev = attestation_searches(c, (n - 1) as nat, slot);
        let d = attestation_searches(c, n, slot);
        assert forall|a: int, b: int| 0 <= a < b < d.len() implies (#[trigger] d[a]).subnet->Attestation_0
            < (#[trigger] d[b]).subnet->Attestation_0 by {
            if b < prev.len() {
                assert(d[a] == prev[a] && d[b] == prev[b]);
            } else {
                assert(d[a] == prev[a]);
                assert(prev[a].subnet matches Subnet::Attestation(x) && x < n - 1);
                assert(d[b].subnet == Subnet::Attestation((n - 1) as u64));
            }
        }
    }
}

proof fn lemma_sync_searches(c: Seq<Option<u64>>, n: nat, slot: u64)
    requires
        n <= c.len(),
        n <= ATTESTATION_SUBNET_COUNT,
    ensures
        sync_searches(c, n, slot).len() <= n,
        forall|k: int|
            0 <= k < sync_searches(c, n, slot).len() ==> ((#[trigger] sync_searches(c, n, slot)[k]).subnet matches Subnet::SyncCommittee(x) && x < n),
        forall|a: int, b: int|
            0 <= a < b < sync_searches(c, n, slot).len() ==> (#[trigger] sync_searches(c, n, slot)[a]).subnet->SyncCommittee_0
                < (#[trigger] sync_searches(c, n, slot)[b]).subnet->SyncCommittee_0,
        (forall|j: int| 0 <= j < n ==> #[trigger] c[j] is None) ==> sync_searches(c, n, slot).len() == 0,
    decreases n,
{
    if n > 0 {
        lemma_sync_searches(c, (n - 1) as nat, slot);
        let prev = sync_searches(c, (n - 1) as nat, slot);
        let d = sync_searches(c, n, slot);
        assert forall|a: int, b: int| 0 <= a < b < d.len() implies (#[trigger] d[a]).subnet->SyncCommittee_0
            < (#[trigger] d[b]).subnet->SyncCommittee_0 by {
            if b < prev.len() {
                assert(d[a] == prev[a] && d[b] == prev[b]);
            } else {
                assert(d[a] == prev[a]);
                assert(prev[a].subnet matches Subnet::SyncCommittee(x) && x < n - 1);
                assert(d[b].subnet == Subnet::SyncCommittee((n - 1) as u64));
            }
        }
    }
}

proof fn lemma_add_all(b: Batch, subs: Seq<Subscription>)
    requires
        b.model.sync.len() == SYNC_COMMITTEE_SUBNET_COUNT,
        b.att_cand.len() == ATTESTATION_SUBNET_COUNT,
        b.sync_cand.len() == SYNC_COMMITTEE_SUBNET_COUNT,
    ensures
        add_all(b, subs).model.sync.len() == SYNC_COMMITTEE_SUBNET_COUNT,
        add_all(b, subs).att_cand.len() == ATTESTATION_SUBNET_COUNT,
        add_all(b, subs).sync_cand.len() == SYNC_COMMITTEE_SUBNET_COUNT,
        add_all(b, subs).model.permanent == b.model.permanent,
        (forall|i: int| 0 <= i < subs.len() ==> #[trigger] subs[i] is Attestation)
            ==> add_all(b, subs).sync_cand == b.sync_cand,
    decreases subs.len(),
{
    if subs.len() > 0 {
        let prefix = subs.drop_last();
        lemma_add_all(b, prefix);
        if forall|i: int| 0 <= i < subs.len() ==> #[trigger] subs[i] is Attestation {
            assert forall|i: int| 0 <= i < prefix.len() implies #[trigger] prefix[i] is Attestation by {
                assert(prefix[i] == subs[i]);
            }
            assert(subs[subs.len() - 1] is Attestation);
        }
        let bp = add_all(b, prefix);
        match subs.last() {
            Subscription::Attestation(a) => {},
            Subscription::SyncCommittee(c) => {
                if all_members(c.sync_committee_indices@) {
                    match crate::chain::sync_expiry_of(c.until_epoch, bp.model.slots_per_epoch) {
                        Some(end) => {
                            lemma_sync_indices(bp, c.sync_committee_indices@, end);
                        },
                        None => {},
                    }
                }
            },
        }
    }
}

/// The subnets a peer search names.
pub open spec fn names_of(d: Seq<SubnetDiscovery>) -> Seq<Subnet> {
    d.map_values(|x: SubnetDiscovery| x.subnet)
}

/// A peer search names between one and `ATTESTATION_SUBNET_COUNT` subnets, each once, all
/// attestation subnets or all sync-committee subnets.
pub open spec fn bounded_search(d: Seq<SubnetDiscovery>) -> bool {
    &&& 1 <= d.len() <= ATTESTATION_SUBNET_COUNT
    &&& names_of(d).no_duplicates()
    &&& (forall|i: int| 0 <= i < d.len() ==> (#[trigger] d[i]).subnet is Attestation) || (forall|i: int|
        0 <= i < d.len() ==> (#[trigger] d[i]).subnet is SyncCommittee)
}

/// Whether a peer search names only sync-committee subnets.
pub open spec fn sync_only(d: Seq<SubnetDiscovery>) -> bool {
    forall|i: int| 0 <= i < d.len() ==> (#[trigger] d[i]).subnet is SyncCommittee
}

proof fn lemma_search_is_bounded(d: Seq<SubnetDiscovery>, attestation: bool)
    requires
        1 <= d.len() <= ATTESTATION_SUBNET_COUNT,
        attestation ==> forall|a: int, b: int|
            0 <= a < b < d.len() ==> (#[trigger] d[a]).subnet is Attestation && (#[trigger] d[b]).subnet is Attestation
                && d[a].subnet->Attestation_0 < d[b].subnet->Attestation_0,
        !attestation ==> forall|a: int, b: int|
            0 <= a < b < d.len() ==> (#[trigger] d[a]).subnet is SyncCommittee && (#[trigger] d[b]).subnet is SyncCommittee
                && d[a].subnet->SyncCommittee_0 < d[b].subnet->SyncCommittee_0,
        attestation ==> forall|k: int| 0 <= k < d.len() ==> (#[trigger] d[k]).subnet is Attestation,
        !attestation ==> forall|k: int| 0 <= k < d.len() ==> (#[trigger] d[k]).subnet is SyncCommittee,
    ensures
        bounded_search(d),
{
    let names = names_of(d);
    assert forall|p: int, q: int| 0 <= p < names.len() && 0 <= q < names.len() && p != q implies names[p]
        != names[q] by {
        if p < q {
            assert(d[p].subnet != d[q].subnet);
        } else {
            assert(d[q].subnet != d[p].subnet);
        }
    }
}

/// Each peer search a batch emits names between one and `ATTESTATION_SUBNET_COUNT`
/// subnets, each at most once, all attestation subnets or all sync-committee subnets; any
/// search after the first names only sync-committee subnets, so at most one search of a
/// batch names attestation subnets.
pub proof fn searches_are_distinct_and_bounded(m: Model, subs: Seq<Subscription>)
    requires
        m.wf(),
    ensures
        ({
            let o = subscriptions_outcome(m, subs).1;
            &&& forall|k: int|
                0 <= k < o.len() && (#[trigger] o[k]) is DiscoverPeers ==> bounded_search(o[k]->DiscoverPeers_0)
            &&& forall|k1: int, k2: int|
                0 <= k1 < k2 < o.len() && (#[trigger] o[k1]) is DiscoverPeers && (#[trigger] o[k2]) is DiscoverPeers
                    ==> sync_only(o[k2]->DiscoverPeers_0)
        }),
{
    let b0 = empty_batch(m);
    lemma_add_all(b0, subs);
    lemma_add_all_messages(b0, subs);
    let b = add_all(b0, subs);
    let a = attestation_searches(b.att_cand, ATTESTATION_SUBNET_COUNT as nat, b.model.slot);
    let y = sync_searches(b.sync_cand, SYNC_COMMITTEE_SUBNET_COUNT as nat, b.model.slot);
    lemma_attestation_searches(b.att_cand, ATTESTATION_SUBNET_COUNT as nat, b.model.slot);
    lemma_sync_searches(b.sync_cand, SYNC_COMMITTEE_SUBNET_COUNT as nat, b.model.slot);
    if a.len() > 0 {
        lemma_search_is_bounded(a, true);
    }
    if y.len() > 0 {
        lemma_search_is_bounded(y, false);
    }
    let x = search_message(a);
    let z = search_message(y);
    let o = subscriptions_outcome(m, subs).1;
    assert(o == b.out + (x + z));
    assert forall|k: int| 0 <= k < o.len() && (#[trigger] o[k]) is DiscoverPeers implies bounded_search(
        o[k]->DiscoverPeers_0,
    ) by {
        if k < b.out.len() {
            assert(o[k] == b.out[k]);
        } else if k < b.out.len() + x.len() {
            assert(o[k] == x[k - b.out.len()]);
        } else {
            assert(o[k] == z[k - b.out.len() - x.len()]);
        }
    }
    assert forall|k1: int, k2: int|
        0 <= k1 < k2 < o.len() && (#[trigger] o[k1]) is DiscoverPeers && (#[trigger] o[k2]) is DiscoverPeers
            implies sync_only(o[k2]->DiscoverPeers_0) by {
        if k1 < b.out.len() {
            assert(o[k1] == b.out[k1]);
        } else if k2 < b.out.len() + x.len() {
            assert(x.len() <= 1);
        } else {
            assert(o[k2] == z[k2 - b.out.len() - x.len()]);
        }
    }
}

/// The subnets that `msgs` add to the node record, in order.
pub open spec fn advertised(msgs: Seq<Message>) -> Seq<Subnet>
    decreases msgs.len(),
{
    if msgs.len() == 0 {
        seq![]
    } else {
        let prev = advertised(msgs.drop_last());
        match msgs.last() {
            Message::EnrAdd(s) => prev.push(s),
            _ => prev,
        }
    }
}

/// No message of `msgs` adds an attestation subnet to the node record.
pub open spec fn advertises_no_attestation_subnet(msgs: Seq<Message>) -> bool {
    forall|k: int| 0 <= k < msgs.len() ==> !(#[trigger] msgs[k] matches Message::EnrAdd(Subnet::Attestation(_)))
}

proof fn lemma_advertised_concat(a: Seq<Message>, b: Seq<Message>)
    ensures
        advertised(a + b) == advertised(a) + advertised(b),
    decreases b.len(),
{
    if b.len() == 0 {
        assert(a + b =~= a);
        assert(advertised(b) =~= Seq::<Subnet>::empty());
        assert(advertised(a) + advertised(b) =~= advertised(a));
    } else {
        assert((a + b).drop_last() =~= a + b.drop_last());
        assert((a + b).last() == b.last());
        lemma_advertised_concat(a, b.drop_last());
        let pa = advertised(a);
        let pb = advertised(b.drop_last());
        match b.last() {
            Message::EnrAdd(s) => {
                assert(pa + pb.push(s) =~= (pa + pb).push(s));
            },
            _ => {},
        }
    }
}

proof fn lemma_start_pairs(perm: Seq<u64>)
    ensures
        advertised(start_pairs(perm)) == perm.map_values(|p: u64| Subnet::Attestation(p)),
    decreases perm.len(),
{
    if perm.len() > 0 {
        let prefix = perm.drop_last();
        lemma_start_pairs(prefix);
        let p = perm.last();
        let pair = seq![
            Message::Subscribe(Subnet::Attestation(p)),
            Message::EnrAdd(Subnet::Attestation(p)),
        ];
        lemma_advertised_concat(start_pairs(prefix), pair);
        assert(pair.drop_last().drop_last() =~= Seq::<Message>::empty());
        assert(advertised(pair.drop_last()) == advertised(pair.drop_last().drop_last()));
        assert(advertised(pair) =~= seq![Subnet::Attestation(p)]);
        assert(perm.map_values(|p: u64| Subnet::Attestation(p)) =~= prefix.map_values(
            |p: u64| Subnet::Attestation(p),
        ).push(Subnet::Attestation(p)));
    }
}

/// At its start the service adds each permanent subnet to the node record once, in the
/// order of derivation, and no other subnet: as many additions as permanent subnets.
pub proof fn startup_advertises_each_permanent_subnet_once(perm: Seq<u64>)
    ensures
        advertised(start_messages(perm)) == perm.map_values(|p: u64| Subnet::Attestation(p)),
        advertised(start_messages(perm)).len() == perm.len(),
{
    lemma_start_pairs(perm);
    if perm.len() > 0 {
        let x = start_pairs(perm);
        let y = x.push(Message::DiscoverPeers(permanent_searches(perm)));
        assert(y.drop_last() =~= x);
    } else {
        assert(perm.map_values(|p: u64| Subnet::Attestation(p)) =~= Seq::<Subnet>::empty());
    }
}

proof fn lemma_no_attestation_concat(a: Seq<Message>, b: Seq<Message>)
    requires
        advertises_no_attestation_subnet(a),
        advertises_no_attestation_subnet(b),
    ensures
        advertises_no_attestation_subnet(a + b),
{
    assert forall|k: int| 0 <= k < (a + b).len() implies !(#[trigger] (a + b)[k] matches Message::EnrAdd(
        Subnet::Attestation(_),
    )) by {
        if k < a.len() {
            assert((a + b)[k] == a[k]);
        } else {
            assert((a + b)[k] == b[k - a.len()]);
        }
    }
}

/// No message of `msgs` adds an attestation subnet to the node record, asks for peers, or
/// leaves a subnet.
pub open spec fn membership_only(msgs: Seq<Message>) -> bool {
    forall|k: int|
        0 <= k < msgs.len() ==> !(#[trigger] msgs[k] matches Message::EnrAdd(Subnet::Attestation(_)))
            && !(msgs[k] is DiscoverPeers) && !(msgs[k] is Unsubscribe) && !(msgs[k] is EnrRemove)
}

proof fn lemma_membership_concat(a: Seq<Message>, b: Seq<Message>)
    requires
        membership_only(a),
        membership_only(b),
    ensures
        membership_only(a + b),
{
    assert forall|k: int| 0 <= k < (a + b).len() implies !(#[trigger] (a + b)[k] matches Message::EnrAdd(
        Subnet::Attestation(_),
    )) && !((a + b)[k] is DiscoverPeers) && !((a + b)[k] is Unsubscribe) && !((a + b)[k] is EnrRemove) by {
        if k < a.len() {
            assert((a + b)[k] == a[k]);
        } else {
            assert((a + b)[k] == b[k - a.len()]);
        }
    }
}

/// Every message of `msgs` is a peer search.
pub open spec fn only_searches(msgs: Seq<Message>) -> bool {
    forall|k: int| 0 <= k < msgs.len() ==> #[trigger] msgs[k] is DiscoverPeers
}

proof fn lemma_search_messages(b: Batch)
    ensures
        only_searches(batch_search_messages(b)),
        advertises_no_attestation_subnet(batch_search_messages(b)),
        forall|s: Subnet| #[trigger] count(batch_search_messages(b), Message::Subscribe(s)) == 0,
        forall|s: Subnet| #[trigger] count(batch_search_messages(b), Message::Unsubscribe(s)) == 0,
{
    let x = search_message(attestation_searches(b.att_cand, ATTESTATION_SUBNET_COUNT as nat, b.model.slot));
    let y = search_message(sync_searches(b.sync_cand, SYNC_COMMITTEE_SUBNET_COUNT as nat, b.model.slot));
    lemma_count_concat(x, y);
    if x.len() == 1 {
        lemma_count_one(x);
    } else {
        assert(x =~= Seq::<Message>::empty());
    }
    if y.len() == 1 {
        lemma_count_one(y);
    } else {
        assert(y =~= Seq::<Message>::empty());
    }
    assert forall|k: int| 0 <= k < (x + y).len() implies #[trigger] (x + y)[k] is DiscoverPeers by {
        if k < x.len() {
            assert((x + y)[k] == x[k]);
        } else {
            assert((x + y)[k] == y[k - x.len()]);
        }
    }
}

proof fn lemma_run_scheduled_messages(m: Model, sched: Seq<(u64, u64)>)
    ensures
        membership_only(run_scheduled(m, sched).1),
    decreases sched.len(),
{
    if sched.len() > 0 {
        lemma_run_scheduled_messages(m, sched.drop_last());
        let (m1, o1, k1) = run_scheduled(m, sched.drop_last());
        let (id, s) = sched.last();
        lemma_membership_concat(o1, subscribe_now(m1, id, (s + 1) as u64).1);
    }
}

proof fn lemma_expiry_messages(m: Model, n: nat, t: u64)
    ensures
        advertises_no_attestation_subnet(attestation_expiries(m.attestation, n, t)),
        advertises_no_attestation_subnet(sync_expiries(m.sync, n, t)),
    decreases n,
{
    if n > 0 {
        lemma_expiry_messages(m, (n - 1) as nat, t);
        let pair = seq![
            Message::Unsubscribe(Subnet::SyncCommittee((n - 1) as u64)),
            Message::EnrRemove(Subnet::SyncCommittee((n - 1) as u64)),
        ];
        lemma_no_attestation_concat(sync_expiries(m.sync, (n - 1) as nat, t), pair);
    }
}

proof fn lemma_sync_indices_messages(b: Batch, indices: Seq<u64>, end: u64)
    requires
        membership_only(b.out),
    ensures
        membership_only(add_sync_indices(b, indices, end).out),
    decreases indices.len(),
{
    if indices.len() > 0 {
        lemma_sync_indices_messages(b, indices.drop_last(), end);
        let b1 = add_sync_indices(b, indices.drop_last(), end);
        let id = sync_subnet_of(indices.last()).unwrap();
        let pair = seq![
            Message::Subscribe(Subnet::SyncCommittee(id)),
            Message::EnrAdd(Subnet::SyncCommittee(id)),
        ];
        lemma_membership_concat(b1.out, pair);
    }
}

proof fn lemma_add_all_messages(b: Batch, subs: Seq<Subscription>)
    requires
        membership_only(b.out),
    ensures
        membership_only(add_all(b, subs).out),
    decreases subs.len(),
{
    if subs.len() > 0 {
        lemma_add_all_messages(b, subs.drop_last());
        let bp = add_all(b, subs.drop_last());
        match subs.last() {
            Subscription::Attestation(a) => {
                match crate::chain::attestation_subnet_of(
                    a.slot,
                    a.attestation_committee_index,
                    a.committee_count_at_slot,
                    bp.model.slots_per_epoch,
                ) {
                    Some(id) => {
                        if a.slot < u64::MAX {
                            lemma_membership_concat(
                                bp.out,
                                subscribe_now(bp.model, id, (a.slot + 1) as u64).1,
                            );
                        }
                    },
                    None => {},
                }
            },
            Subscription::SyncCommittee(c) => {
                match crate::chain::sync_expiry_of(c.until_epoch, bp.model.slots_per_epoch) {
                    Some(end) => {
                        lemma_sync_indices_messages(bp, c.sync_committee_indices@, end);
                    },
                    None => {},
                }
            },
        }
    }
}

/// After its start the service never adds an attestation subnet to the node record:
/// neither a batch of subscriptions nor a slot tick does.
pub proof fn permanent_subnets_are_advertised_only_at_startup(
    m: Model,
    subs: Seq<Subscription>,
    t: u64,
)
    ensures
        advertises_no_attestation_subnet(subscriptions_outcome(m, subs).1),
        advertises_no_attestation_subnet(tick_outcome(m, t).1),
{
    let b0 = empty_batch(m);
    lemma_add_all_messages(b0, subs);
    let b = add_all(b0, subs);
    lemma_search_messages(b);
    lemma_no_attestation_concat(b.out, batch_search_messages(b));
    let m1 = Model {
        slot: t,
        attestation: expire(m.attestation, t),
        sync: expire(m.sync, t),
        scheduled: seq![],
        ..m
    };
    lemma_run_scheduled_messages(m1, m.scheduled);
    lemma_expiry_messages(m, ATTESTATION_SUBNET_COUNT as nat, t);
    lemma_expiry_messages(m, SYNC_COMMITTEE_SUBNET_COUNT as nat, t);
    let a = attestation_expiries(m.attestation, ATTESTATION_SUBNET_COUNT as nat, t);
    let y = sync_expiries(m.sync, SYNC_COMMITTEE_SUBNET_COUNT as nat, t);
    lemma_no_attestation_concat(a, y);
    lemma_no_attestation_concat(a + y, run_scheduled(m1, m.scheduled).1);
}

/// How many times `x` occurs in `msgs`.
pub open spec fn count(msgs: Seq<Message>, x: Message) -> nat
    decreases msgs.len(),
{
    if msgs.len() == 0 {
        0
    } else {
        count(msgs.drop_last(), x) + if msgs.last() == x {
            1nat
        } else {
            0nat
        }
    }
}

/// 1 where the node is in `s` in state `m`, permanently or for a while; else 0.
pub open spec fn held(m: Model, s: Subnet) -> int {
    if m.is_short_lived(s) || m.is_permanent(s) {
        1
    } else {
        0
    }
}

/// Over the messages `h`, each subnet was joined as often as it was left, plus once where
/// the node is in it in state `m`.
pub open spec fn balanced(m: Model, h: Seq<Message>) -> bool {
    forall|s: Subnet|
        #[trigger] count(h, Message::Subscribe(s)) == count(h, Message::Unsubscribe(s)) + held(m, s)
}

proof fn lemma_count_concat(a: Seq<Message>, b: Seq<Message>)
    ensures
        forall|x: Message| #[trigger] count(a + b, x) == count(a, x) + count(b, x),
    decreases b.len(),
{
    if b.len() == 0 {
        assert(a + b =~= a);
        assert forall|x: Message| #[trigger] count(a + b, x) == count(a, x) + count(b, x) by {}
    } else {
        lemma_count_concat(a, b.drop_last());
        assert((a + b).drop_last() =~= a + b.drop_last());
        assert((a + b).last() == b.last());
        assert forall|x: Message| #[trigger] count(a + b, x) == count(a, x) + count(b, x) by {
            assert(count(a + b.drop_last(), x) == count(a, x) + count(b.drop_last(), x));
        }
    }
}

proof fn lemma_count_one(p: Seq<Message>)
    requires
        p.len() == 1,
    ensures
        forall|x: Message| #[trigger] count(p, x) == if x == p[0] { 1nat } else { 0nat },
{
    assert(p.drop_last() =~= Seq::<Message>::empty());
    assert forall|x: Message| #[trigger] count(p, x) == if x == p[0] { 1nat } else { 0nat } by {
        assert(count(p.drop_last(), x) == 0);
    }
}

proof fn lemma_count_two(p: Seq<Message>)
    requires
        p.len() == 2,
    ensures
        forall|x: Message| #[trigger]
            count(p, x) == (if x == p[0] { 1nat } else { 0nat }) + (if x == p[1] {
                1nat
            } else {
                0nat
            }),
{
    lemma_count_one(p.drop_last());
    assert forall|x: Message| #[trigger]
        count(p, x) == (if x == p[0] { 1nat } else { 0nat }) + (if x == p[1] {
            1nat
        } else {
            0nat
        }) by {
        assert(count(p.drop_last(), x) == if x == p[0] { 1nat } else { 0nat });
    }
}

proof fn lemma_subscribe_now_wf(m: Model, id: u64, end: u64)
    requires
        m.wf(),
        id < ATTESTATION_SUBNET_COUNT,
    ensures
        subscribe_now(m, id, end).0.wf(),
        subscribe_now(m, id, end).0 == (Model { attestation: subscribe_now(m, id, end).0.attestation, ..m }),
{
}

proof fn lemma_balanced_subscribe_now(m: Model, id: u64, end: u64, h: Seq<Message>)
    requires
        m.wf(),
        id < ATTESTATION_SUBNET_COUNT,
        balanced(m, h),
    ensures
        balanced(subscribe_now(m, id, end).0, h + subscribe_now(m, id, end).1),
{
    let (m2, o) = subscribe_now(m, id, end);
    lemma_count_concat(h, o);
    if m.permanent.contains(id) || end <= m.slot {
        assert(o =~= Seq::<Message>::empty());
        assert(h + o =~= h);
    } else if m.attestation[id as int] is Some {
        assert(h + o =~= h);
        assert forall|s: Subnet| held(m2, s) == held(m, s) by {}
    } else {
        lemma_count_one(o);
        assert forall|s: Subnet|
            #[trigger] count(h + o, Message::Subscribe(s)) == count(h + o, Message::Unsubscribe(s))
                + held(m2, s) by {
            assert(count(h, Message::Subscribe(s)) == count(h, Message::Unsubscribe(s)) + held(m, s));
        }
    }
}

proof fn lemma_balanced_run_scheduled(m: Model, sched: Seq<(u64, u64)>, h: Seq<Message>)
    requires
        m.wf(),
        all_live(m),
        forall|i: int|
            0 <= i < sched.len() ==> (#[trigger] sched[i]).0 < ATTESTATION_SUBNET_COUNT
                && sched[i].1 < u64::MAX,
        balanced(m, h),
    ensures
        balanced(run_scheduled(m, sched).0, h + run_scheduled(m, sched).1),
    decreases sched.len(),
{
    if sched.len() > 0 {
        let prefix = sched.drop_last();
        assert forall|i: int|
            0 <= i < prefix.len() implies (#[trigger] prefix[i]).0 < ATTESTATION_SUBNET_COUNT
                && prefix[i].1 < u64::MAX by {
            assert(prefix[i] == sched[i]);
        }
        lemma_balanced_run_scheduled(m, prefix, h);
        lemma_run_scheduled(m, prefix);
        let (m1, o1, k1) = run_scheduled(m, prefix);
        let (id, s) = sched.last();
        if s <= m.slot + 1 {
            lemma_balanced_subscribe_now(m1, id, (s + 1) as u64, h + o1);
            assert(h + o1 + subscribe_now(m1, id, (s + 1) as u64).1 =~= h + (o1 + subscribe_now(
                m1,
                id,
                (s + 1) as u64,
            ).1));
        }
    }
}

/// Whether an entry ends at or before `t`.
pub open spec fn ended_by(x: Option<u64>, t: u64) -> bool {
    x matches Some(e) && e <= t
}

proof fn lemma_count_expiries(m: Model, n: nat, t: u64)
    requires
        m.wf(),
        n <= ATTESTATION_SUBNET_COUNT,
    ensures
        forall|s: Subnet| #[trigger]
            count(attestation_expiries(m.attestation, n, t), Message::Subscribe(s)) == 0,
        forall|s: Subnet| #[trigger]
            count(attestation_expiries(m.attestation, n, t), Message::Unsubscribe(s)) == if s matches Subnet::Attestation(id) && (id < n && ended_by(m.attestation[id as int], t)) {
                1nat
            } else {
                0nat
            },
        forall|id: u64| #[trigger]
            count(attestation_expiries(m.attestation, n, t), Message::EnrRemove(Subnet::Attestation(id))) == 0,
        n <= SYNC_COMMITTEE_SUBNET_COUNT ==> forall|id: u64| #[trigger]
            count(sync_expiries(m.sync, n, t), Message::EnrRemove(Subnet::Attestation(id))) == 0,
        n <= SYNC_COMMITTEE_SUBNET_COUNT ==> forall|s: Subnet| #[trigger]
            count(sync_expiries(m.sync, n, t), Message::Subscribe(s)) == 0,
        n <= SYNC_COMMITTEE_SUBNET_COUNT ==> forall|s: Subnet| #[trigger]
            count(sync_expiries(m.sync, n, t), Message::Unsubscribe(s)) == if s matches Subnet::SyncCommittee(id) && (id < n && ended_by(m.sync[id as int], t)) {
                1nat
            } else {
                0nat
            },
    decreases n,
{
    if n > 0 {
        lemma_count_expiries(m, (n - 1) as nat, t);
        let prev = attestation_expiries(m.attestation, (n - 1) as nat, t);
        let y = Message::Unsubscribe(Subnet::Attestation((n - 1) as u64));
        lemma_count_concat(prev, seq![y]);
        lemma_count_one(seq![y]);
        assert(prev.push(y) =~= prev + seq![y]);
        if n <= SYNC_COMMITTEE_SUBNET_COUNT {
            let sprev = sync_expiries(m.sync, (n - 1) as nat, t);
            let pair = seq![
                Message::Unsubscribe(Subnet::SyncCommittee((n - 1) as u64)),
                Message::EnrRemove(Subnet::SyncCommittee((n - 1) as u64)),
            ];
            lemma_count_concat(sprev, pair);
            lemma_count_two(pair);
        }
    }
}

/// A slot tick keeps every subnet's joins and leaves in balance.
pub proof fn tick_keeps_balance(m: Model, t: u64, h: Seq<Message>)
    requires
        m.wf(),
        balanced(m, h),
    ensures
        balanced(tick_outcome(m, t).0, h + tick_outcome(m, t).1),
{
    let m1 = Model {
        slot: t,
        attestation: expire(m.attestation, t),
        sync: expire(m.sync, t),
        scheduled: seq![],
        ..m
    };
    let a = attestation_expiries(m.attestation, ATTESTATION_SUBNET_COUNT as nat, t);
    let y = sync_expiries(m.sync, SYNC_COMMITTEE_SUBNET_COUNT as nat, t);
    lemma_count_expiries(m, ATTESTATION_SUBNET_COUNT as nat, t);
    lemma_count_expiries(m, SYNC_COMMITTEE_SUBNET_COUNT as nat, t);
    lemma_count_concat(h, a);
    lemma_count_concat(h + a, y);
    assert(m1.wf());
    assert forall|s: Subnet|
        #[trigger] count(h + a + y, Message::Subscribe(s)) == count(h + a + y, Message::Unsubscribe(s))
            + held(m1, s) by {
        assert(count(h, Message::Subscribe(s)) == count(h, Message::Unsubscribe(s)) + held(m, s));
        match s {
            Subnet::Attestation(id) => {
                if id < ATTESTATION_SUBNET_COUNT && m.permanent.contains(id) {
                    assert(m.attestation[id as int] is None);
                }
            },
            Subnet::SyncCommittee(id) => {},
        }
    }
    assert(all_live(m1));
    lemma_balanced_run_scheduled(m1, m.scheduled, h + a + y);
    let (m2, o, kept) = run_scheduled(m1, m.scheduled);
    lemma_run_scheduled(m1, m.scheduled);
    assert(h + a + y + o =~= h + tick_outcome(m, t).1);
    assert forall|s: Subnet| held(tick_outcome(m, t).0, s) == held(m2, s) by {}
}

proof fn lemma_balanced_sync_indices(b: Batch, indices: Seq<u64>, end: u64, h: Seq<Message>)
    requires
        b.model.wf(),
        b.sync_cand.len() == SYNC_COMMITTEE_SUBNET_COUNT,
        all_members(indices),
        balanced(b.model, h + b.out),
    ensures
        balanced(add_sync_indices(b, indices, end).model, h + add_sync_indices(b, indices, end).out),
    decreases indices.len(),
{
    if indices.len() > 0 {
        let prefix = indices.drop_last();
        assert forall|i: int| 0 <= i < prefix.len() implies (#[trigger] sync_subnet_of(prefix[i])) is Some by {
            assert(prefix[i] == indices[i]);
            assert(sync_subnet_of(indices[i]) is Some);
        }
        lemma_balanced_sync_indices(b, prefix, end, h);
        lemma_sync_indices(b, prefix, end);
        let b1 = add_sync_indices(b, prefix, end);
        assert(sync_subnet_of(indices[indices.len() - 1]) is Some);
        let id = sync_subnet_of(indices.last()).unwrap();
        assert(id < SYNC_COMMITTEE_SUBNET_COUNT);
        if b1.model.sync[id as int] is None {
            let pair = seq![
                Message::Subscribe(Subnet::SyncCommittee(id)),
                Message::EnrAdd(Subnet::SyncCommittee(id)),
            ];
            let r = add_sync_subnet(b1, id, end);
            lemma_count_concat(h + b1.out, pair);
            lemma_count_two(pair);
            assert(h + r.out =~= h + b1.out + pair);
            assert forall|s: Subnet|
                #[trigger] count(h + r.out, Message::Subscribe(s)) == count(h + r.out, Message::Unsubscribe(s))
                    + held(r.model, s) by {
                assert(count(h + b1.out, Message::Subscribe(s)) == count(
                    h + b1.out,
                    Message::Unsubscribe(s),
                ) + held(b1.model, s));
            }
        } else {
            let r = add_sync_subnet(b1, id, end);
            assert forall|s: Subnet| held(r.model, s) == held(b1.model, s) by {}
        }
    }
}

proof fn lemma_balanced_add_all(b: Batch, subs: Seq<Subscription>, h: Seq<Message>)
    requires
        b.model.wf(),
        b.att_cand.len() == ATTESTATION_SUBNET_COUNT,
        b.sync_cand.len() == SYNC_COMMITTEE_SUBNET_COUNT,
        balanced(b.model, h + b.out),
    ensures
        add_all(b, subs).model.wf(),
        balanced(add_all(b, subs).model, h + add_all(b, subs).out),
    decreases subs.len(),
{
    if subs.len() > 0 {
        lemma_balanced_add_all(b, subs.drop_last(), h);
        lemma_add_all(b, subs.drop_last());
        let bp = add_all(b, subs.drop_last());
        match subs.last() {
            Subscription::Attestation(a) => {
                match crate::chain::attestation_subnet_of(
                    a.slot,
                    a.attestation_committee_index,
                    a.committee_count_at_slot,
                    bp.model.slots_per_epoch,
                ) {
                    Some(id) => {
                        if a.slot < u64::MAX {
                            let end = (a.slot + 1) as u64;
                            let r = add_attestation(bp, a);
                            if a.slot < bp.model.slot {
                            } else if a.slot >= bp.model.slot + crate::chain::MIN_PEER_DISCOVERY_SLOT_LOOK_AHEAD {
                                assert forall|s: Subnet| held(r.model, s) == held(bp.model, s) by {}
                                assert forall|i: int|
                                    0 <= i < r.model.scheduled.len() implies (#[trigger] r.model.scheduled[i]).0
                                        < ATTESTATION_SUBNET_COUNT && r.model.scheduled[i].1 < u64::MAX by {
                                    if i < bp.model.scheduled.len() {
                                        assert(r.model.scheduled[i] == bp.model.scheduled[i]) by {
                                            if !(bp.model.permanent.contains(id) || bp.model.scheduled.contains(
                                                (id, a.slot),
                                            )) {
                                                assert(r.model.scheduled == bp.model.scheduled.push((id, a.slot)));
                                            }
                                        }
                                    }
                                }
                            } else {
                                lemma_balanced_subscribe_now(bp.model, id, end, h + bp.out);
                                lemma_subscribe_now_wf(bp.model, id, end);
                                assert(h + bp.out + subscribe_now(bp.model, id, end).1 =~= h + r.out);
                            }
                        }
                    },
                    None => {},
                }
            },
            Subscription::SyncCommittee(c) => {
                if all_members(c.sync_committee_indices@) {
                    match crate::chain::sync_expiry_of(c.until_epoch, bp.model.slots_per_epoch) {
                        Some(end) => {
                            lemma_sync_indices(bp, c.sync_committee_indices@, end);
                            lemma_balanced_sync_indices(bp, c.sync_committee_indices@, end, h);
                        },
                        None => {},
                    }
                }
            },
        }
    }
}

/// A batch of subscriptions keeps every subnet's joins and leaves in balance.
pub proof fn batch_keeps_balance(m: Model, subs: Seq<Subscription>, h: Seq<Message>)
    requires
        m.wf(),
        balanced(m, h),
    ensures
        subscriptions_outcome(m, subs).0.wf(),
        balanced(subscriptions_outcome(m, subs).0, h + subscriptions_outcome(m, subs).1),
{
    let b0 = empty_batch(m);
    assert(h + b0.out =~= h);
    lemma_balanced_add_all(b0, subs, h);
    let b = add_all(b0, subs);
    lemma_search_messages(b);
    lemma_count_concat(h + b.out, batch_search_messages(b));
    assert(h + (b.out + batch_search_messages(b)) =~= h + b.out + batch_search_messages(b));
}

proof fn lemma_count_start_pairs(perm: Seq<u64>)
    requires
        perm.no_duplicates(),
    ensures
        forall|s: Subnet| #[trigger]
            count(start_pairs(perm), Message::Subscribe(s)) == if s matches Subnet::Attestation(id) && perm.contains(id) {
                1nat
            } else {
                0nat
            },
        forall|s: Subnet| #[trigger] count(start_pairs(perm), Message::Unsubscribe(s)) == 0,
    decreases perm.len(),
{
    if perm.len() > 0 {
        let prefix = perm.drop_last();
        assert(prefix.no_duplicates());
        lemma_count_start_pairs(prefix);
        let p = perm.last();
        let pair = seq![
            Message::Subscribe(Subnet::Attestation(p)),
            Message::EnrAdd(Subnet::Attestation(p)),
        ];
        lemma_count_concat(start_pairs(prefix), pair);
        lemma_count_two(pair);
        assert(!prefix.contains(p));
        assert forall|x: u64| perm.contains(x) <==> prefix.contains(x) || x == p by {
            if perm.contains(x) {
                let w = choose|w: int| 0 <= w < perm.len() && perm[w] == x;
                if w < prefix.len() {
                    assert(prefix[w] == x);
                }
            }
            if prefix.contains(x) {
                let w = choose|w: int| 0 <= w < prefix.len() && prefix[w] == x;
                assert(perm[w] == x);
            }
            if x == p {
                assert(perm[perm.len() - 1] == x);
            }
        }
    }
}

/// At its start the service has joined each permanent subnet once and left none.
pub proof fn startup_is_balanced(m: Model)
    requires
        m.wf(),
        m.permanent.no_duplicates(),
        forall|j: int| 0 <= j < m.attestation.len() ==> #[trigger] m.attestation[j] is None,
        forall|j: int| 0 <= j < m.sync.len() ==> #[trigger] m.sync[j] is None,
    ensures
        balanced(m, start_messages(m.permanent)),
{
    lemma_count_start_pairs(m.permanent);
    let x = start_pairs(m.permanent);
    if m.permanent.len() > 0 {
        let y = Message::DiscoverPeers(permanent_searches(m.permanent));
        lemma_count_concat(x, seq![y]);
        lemma_count_one(seq![y]);
        assert(x.push(y) =~= x + seq![y]);
    } else {
        assert(x =~= Seq::<Message>::empty());
    }
    assert forall|s: Subnet| !m.is_short_lived(s) by {
        match s {
            Subnet::Attestation(id) => {
                if id < ATTESTATION_SUBNET_COUNT {
                    assert(m.attestation[id as int] is None);
                }
            },
            Subnet::SyncCommittee(id) => {
                if id < SYNC_COMMITTEE_SUBNET_COUNT {
                    assert(m.sync[id as int] is None);
                }
            },
        }
    }
}

proof fn lemma_run_scheduled_no_unsubscribe(m: Model, sched: Seq<(u64, u64)>)
    ensures
        forall|s: Subnet| #[trigger] count(run_scheduled(m, sched).1, Message::Unsubscribe(s)) == 0,
    decreases sched.len(),
{
    if sched.len() > 0 {
        lemma_run_scheduled_no_unsubscribe(m, sched.drop_last());
        let (m1, o1, k1) = run_scheduled(m, sched.drop_last());
        let (id, s) = sched.last();
        let o2 = subscribe_now(m1, id, (s + 1) as u64).1;
        lemma_count_concat(o1, o2);
        if o2.len() == 1 {
            lemma_count_one(o2);
        } else {
            assert(o2 =~= Seq::<Message>::empty());
        }
    }
}

/// The tick of slot `t` leaves a subnet exactly once where its short-lived subscription
/// ends at or before `t`, and otherwise not at all.
pub proof fn tick_unsubscribes_exactly_the_ended(m: Model, t: u64)
    requires
        m.wf(),
    ensures
        forall|s: Subnet| #[trigger]
            count(tick_outcome(m, t).1, Message::Unsubscribe(s)) == if m.is_short_lived(s) && ended_by(
                m.end_of(s),
                t,
            ) {
                1nat
            } else {
                0nat
            },
{
    let m1 = Model {
        slot: t,
        attestation: expire(m.attestation, t),
        sync: expire(m.sync, t),
        scheduled: seq![],
        ..m
    };
    let a = attestation_expiries(m.attestation, ATTESTATION_SUBNET_COUNT as nat, t);
    let y = sync_expiries(m.sync, SYNC_COMMITTEE_SUBNET_COUNT as nat, t);
    let o = run_scheduled(m1, m.scheduled).1;
    lemma_count_expiries(m, ATTESTATION_SUBNET_COUNT as nat, t);
    lemma_count_expiries(m, SYNC_COMMITTEE_SUBNET_COUNT as nat, t);
    lemma_run_scheduled_no_unsubscribe(m1, m.scheduled);
    lemma_count_concat(a, y);
    lemma_count_concat(a + y, o);
}

/// Two duties on one non-permanent subnet, at the current slot and the next, merge: the
/// batch joins the subnet at most once (once where the node was not in it), leaves it not
/// at all, and the subscription ends one slot after the later duty, or later where an
/// earlier subscription already ran longer.
pub proof fn overlapping_duties_merge(m: Model, d1: ValidatorSubscription, d2: ValidatorSubscription, id: u64)
    requires
        m.wf(),
        d1.slot == m.slot,
        d2.slot == m.slot + 1,
        d2.slot < u64::MAX,
        crate::chain::attestation_subnet_of(
            d1.slot,
            d1.attestation_committee_index,
            d1.committee_count_at_slot,
            m.slots_per_epoch,
        ) == Some(id),
        crate::chain::attestation_subnet_of(
            d2.slot,
            d2.attestation_committee_index,
            d2.committee_count_at_slot,
            m.slots_per_epoch,
        ) == Some(id),
        !m.permanent.contains(id),
    ensures
        ({
            let (m2, o) = subscriptions_outcome(
                m,
                seq![Subscription::Attestation(d1), Subscription::Attestation(d2)],
            );
            &&& m2.attestation[id as int] == Some(
                match m.attestation[id as int] {
                    Some(e) => later(e, (d2.slot + 1) as u64),
                    None => (d2.slot + 1) as u64,
                },
            )
            &&& count(o, Message::Subscribe(Subnet::Attestation(id))) == if m.attestation[id as int] is None {
                1nat
            } else {
                0nat
            }
            &&& count(o, Message::Unsubscribe(Subnet::Attestation(id))) == 0
        }),
{
    let subs = seq![Subscription::Attestation(d1), Subscription::Attestation(d2)];
    let b0 = empty_batch(m);
    assert(subs.drop_last() =~= seq![Subscription::Attestation(d1)]);
    assert(subs.drop_last().drop_last() =~= Seq::<Subscription>::empty());
    assert(add_all(b0, subs.drop_last().drop_last()) == b0);
    let b1 = add_attestation(b0, d1);
    assert(add_all(b0, subs.drop_last()) == b1);
    let b2 = add_attestation(b1, d2);
    assert(add_all(b0, subs) == b2);
    assert(id < ATTESTATION_SUBNET_COUNT);
    if m.attestation[id as int] is None {
        assert(b1.out =~= seq![Message::Subscribe(Subnet::Attestation(id))]);
        lemma_count_one(b1.out);
    } else {
        assert(b1.out =~= Seq::<Message>::empty());
    }
    assert(b2.out == b1.out);
    lemma_search_messages(b2);
    lemma_count_concat(b2.out, batch_search_messages(b2));
}

proof fn lemma_membership_counts(msgs: Seq<Message>)
    requires
        membership_only(msgs),
    ensures
        forall|x: Subnet| #[trigger] count(msgs, Message::Unsubscribe(x)) == 0,
        forall|x: Subnet| #[trigger] count(msgs, Message::EnrRemove(x)) == 0,
    decreases msgs.len(),
{
    if msgs.len() > 0 {
        let prefix = msgs.drop_last();
        assert forall|k: int| 0 <= k < prefix.len() implies !(#[trigger] prefix[k] matches Message::EnrAdd(
            Subnet::Attestation(_),
        )) && !(prefix[k] is DiscoverPeers) && !(prefix[k] is Unsubscribe) && !(prefix[k] is EnrRemove) by {
            assert(prefix[k] == msgs[k]);
        }
        lemma_membership_counts(prefix);
        assert(!(msgs[msgs.len() - 1] is Unsubscribe) && !(msgs[msgs.len() - 1] is EnrRemove));
        assert forall|x: Subnet| #[trigger] count(msgs, Message::Unsubscribe(x)) == 0 by {
            assert(count(prefix, Message::Unsubscribe(x)) == 0);
        }
        assert forall|x: Subnet| #[trigger] count(msgs, Message::EnrRemove(x)) == 0 by {
            assert(count(prefix, Message::EnrRemove(x)) == 0);
        }
    } else {
        assert forall|x: Subnet| #[trigger] count(msgs, Message::Unsubscribe(x)) == 0 by {}
        assert forall|x: Subnet| #[trigger] count(msgs, Message::EnrRemove(x)) == 0 by {}
    }
}

/// Over the messages `h`, no permanent subnet of `m` was left, and no attestation subnet
/// was removed from the node record.
pub open spec fn permanent_kept(m: Model, h: Seq<Message>) -> bool {
    &&& forall|id: u64|
        #[trigger] m.permanent.contains(id) ==> count(h, Message::Unsubscribe(Subnet::Attestation(id))) == 0
    &&& forall|id: u64| #[trigger] count(h, Message::EnrRemove(Subnet::Attestation(id))) == 0
}

/// At its start the service has left no subnet.
pub proof fn startup_keeps_permanent(m: Model)
    ensures
        permanent_kept(m, start_messages(m.permanent)),
{
    let perm = m.permanent;
    let x = start_pairs(perm);
    lemma_start_pairs_leave_nothing(perm);
    if perm.len() > 0 {
        let y = Message::DiscoverPeers(permanent_searches(perm));
        lemma_count_concat(x, seq![y]);
        lemma_count_one(seq![y]);
        assert(x.push(y) =~= x + seq![y]);
    }
}

proof fn lemma_start_pairs_leave_nothing(perm: Seq<u64>)
    ensures
        forall|s: Subnet| #[trigger] count(start_pairs(perm), Message::Unsubscribe(s)) == 0,
        forall|s: Subnet| #[trigger] count(start_pairs(perm), Message::EnrRemove(s)) == 0,
    decreases perm.len(),
{
    if perm.len() > 0 {
        let prefix = perm.drop_last();
        lemma_start_pairs_leave_nothing(prefix);
        let p = perm.last();
        let pair = seq![
            Message::Subscribe(Subnet::Attestation(p)),
            Message::EnrAdd(Subnet::Attestation(p)),
        ];
        lemma_count_concat(start_pairs(prefix), pair);
        lemma_count_two(pair);
    }
}

/// Neither a batch of subscriptions nor a slot tick ever leaves a permanent subnet or
/// removes an attestation subnet from the node record.
pub proof fn permanent_subnets_are_never_left(m: Model, subs: Seq<Subscription>, t: u64, h: Seq<Message>)
    requires
        m.wf(),
        permanent_kept(m, h),
    ensures
        permanent_kept(subscriptions_outcome(m, subs).0, h + subscriptions_outcome(m, subs).1),
        permanent_kept(tick_outcome(m, t).0, h + tick_outcome(m, t).1),
{
    let b0 = empty_batch(m);
    lemma_add_all(b0, subs);
    lemma_add_all_messages(b0, subs);
    let b = add_all(b0, subs);
    lemma_membership_counts(b.out);
    lemma_search_messages(b);
    let o = subscriptions_outcome(m, subs).1;
    lemma_count_concat(b.out, batch_search_messages(b));
    lemma_count_concat(h, o);
    assert forall|id: u64| #[trigger] count(batch_search_messages(b), Message::EnrRemove(Subnet::Attestation(id))) == 0 by {
        let x = batch_search_messages(b);
        lemma_only_searches_count(x);
    }
    let m1 = Model {
        slot: t,
        attestation: expire(m.attestation, t),
        sync: expire(m.sync, t),
        scheduled: seq![],
        ..m
    };
    assert(m1.wf());
    assert(all_live(m1));
    lemma_run_scheduled(m1, m.scheduled);
    tick_unsubscribes_exactly_the_ended(m, t);
    let a = attestation_expiries(m.attestation, ATTESTATION_SUBNET_COUNT as nat, t);
    let y = sync_expiries(m.sync, SYNC_COMMITTEE_SUBNET_COUNT as nat, t);
    let r = run_scheduled(m1, m.scheduled).1;
    lemma_count_expiries(m, ATTESTATION_SUBNET_COUNT as nat, t);
    lemma_count_expiries(m, SYNC_COMMITTEE_SUBNET_COUNT as nat, t);
    lemma_run_scheduled_leaves_nothing(m1, m.scheduled);
    lemma_count_concat(a, y);
    lemma_count_concat(a + y, r);
    let to = tick_outcome(m, t).1;
    lemma_count_concat(h, to);
    assert forall|id: u64| #[trigger] tick_outcome(m, t).0.permanent.contains(id) implies count(
        h + to,
        Message::Unsubscribe(Subnet::Attestation(id)),
    ) == 0 by {
        if id < ATTESTATION_SUBNET_COUNT {
            assert(m.attestation[id as int] is None);
        }
    }
}

proof fn lemma_only_searches_count(x: Seq<Message>)
    requires
        only_searches(x),
    ensures
        forall|s: Subnet| #[trigger] count(x, Message::EnrRemove(s)) == 0,
    decreases x.len(),
{
    if x.len() > 0 {
        let prefix = x.drop_last();
        assert forall|k: int| 0 <= k < prefix.len() implies #[trigger] prefix[k] is DiscoverPeers by {
            assert(prefix[k] == x[k]);
        }
        lemma_only_searches_count(prefix);
        assert(x[x.len() - 1] is DiscoverPeers);
        assert forall|s: Subnet| #[trigger] count(x, Message::EnrRemove(s)) == 0 by {
            assert(count(prefix, Message::EnrRemove(s)) == 0);
        }
    } else {
        assert forall|s: Subnet| #[trigger] count(x, Message::EnrRemove(s)) == 0 by {}
    }
}

proof fn lemma_run_scheduled_leaves_nothing(m: Model, sched: Seq<(u64, u64)>)
    ensures
        forall|s: Subnet| #[trigger] count(run_scheduled(m, sched).1, Message::EnrRemove(s)) == 0,
    decreases sched.len(),
{
    if sched.len() > 0 {
        lemma_run_scheduled_leaves_nothing(m, sched.drop_last());
        let (m1, o1, k1) = run_scheduled(m, sched.drop_last());
        let (id, s) = sched.last();
        let o2 = subscribe_now(m1, id, (s + 1) as u64).1;
        lemma_count_concat(o1, o2);
        if o2.len() == 1 {
            lemma_count_one(o2);
        } else {
            assert(o2 =~= Seq::<Message>::empty());
        }
    }
}

} // verus!
