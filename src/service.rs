use vstd::prelude::*;

use crate::chain::{
    compute_permanent_subnets, compute_subnet, compute_sync_subnet, permanent_subnets_of,
    sync_expiry, sync_subnet_of, ATTESTATION_SUBNET_COUNT, MIN_PEER_DISCOVERY_SLOT_LOOK_AHEAD,
    SYNC_COMMITTEE_SUBNET_COUNT,
};
use crate::laws::{
    balanced, batch_keeps_balance, bounded_search, searches_are_distinct_and_bounded,
    permanent_kept, permanent_subnets_are_never_left, startup_is_balanced, startup_keeps_permanent,
    tick_keeps_balance,
    tick_keeps_exactly_live_subscriptions,
};
use crate::model::{
    add_all, add_attestation, add_sync, add_sync_indices, add_sync_subnet,
    all_members, attestation_expiries, attestation_searches, batch_search_messages, empty_batch,
    expire, search_message,
    permanent_searches, run_scheduled, start_messages, start_pairs, subscribe_now,
    subscriptions_outcome, sync_expiries, sync_searches, tick_outcome, wish, worth_searching,
    Batch, Model,
};
use crate::types::{
    Message, Subnet, SubnetDiscovery, SubnetServiceMessage, Subscription,
    SyncCommitteeSubscription, ValidatorSubscription,
};

verus! {

/// The subnet subscription service: turns validator duties into subnet memberships,
/// node-record bits and peer searches, as a queue of messages.
///
/// Time is given to it: the slot at construction, then one `on_slot` per slot.
pub struct SubnetService {
    slots_per_epoch: u64,
    current_slot: u64,
    permanent: Vec<u64>,
    attestation_expiry: Vec<Option<u64>>,
    sync_expiry: Vec<Option<u64>>,
    scheduled: Vec<(u64, u64)>,
    queue: Vec<SubnetServiceMessage>,
    history: Ghost<Seq<Message>>,
}

/// A vector of `n` empty entries.
fn empty_entries(n: u64) -> (r: Vec<Option<u64>>)
    ensures
        r@ == Seq::new(n as nat, |i: int| None::<u64>),
{
    let mut r: Vec<Option<u64>> = Vec::new();
    let mut i: u64 = 0;
    while i < n
        invariant
            i <= n,
            r@ =~= Seq::new(i as nat, |k: int| None::<u64>),
        decreases n - i,
    {
        r.push(None);
        i = i + 1;
        assert(r@ =~= Seq::new(i as nat, |k: int| None::<u64>));
    }
    r
}

/// Records a wish for peers on subnet `id` until `ttl`.
fn add_wish(c: &mut Vec<Option<u64>>, id: u64, ttl: u64)
    requires
        id < old(c)@.len() <= ATTESTATION_SUBNET_COUNT,
    ensures
        final(c)@ == wish(old(c)@, id, ttl),
{
    match c[id as usize] {
        Some(t) => {
            c[id as usize] = Some(if t >= ttl { t } else { ttl });
            assert(c@ =~= wish(old(c)@, id, ttl));
        },
        None => {
            c[id as usize] = Some(ttl);
            assert(c@ =~= wish(old(c)@, id, ttl));
        },
    }
}

/// Whether a wish leaves time for a peer search, seen from `slot`.
fn is_worth_searching(c: Option<u64>, slot: u64) -> (r: bool)
    ensures
        r == worth_searching(c, slot),
{
    match c {
        Some(t) => t > slot && t - slot > MIN_PEER_DISCOVERY_SLOT_LOOK_AHEAD,
        None => false,
    }
}

impl SubnetService {
    /// The state as mathematics.
    pub closed spec fn model(&self) -> Model {
        Model {
            slot: self.current_slot,
            slots_per_epoch: self.slots_per_epoch,
            permanent: self.permanent@,
            attestation: self.attestation_expiry@,
            sync: self.sync_expiry@,
            scheduled: self.scheduled@,
        }
    }

    /// The messages emitted and not yet taken.
    pub closed spec fn pending(&self) -> Seq<Message> {
        self.queue@.map_values(|m: SubnetServiceMessage| m@)
    }

    /// Every message the service has emitted since it started.
    pub closed spec fn history(&self) -> Seq<Message> {
        self.history@
    }

    /// The shape every state of the service has.
    pub open spec fn wf(&self) -> bool {
        self.model().wf()
    }

    /// Over the service's life, each subnet was joined as often as it was left, plus once
    /// where the node is in it now.
    pub open spec fn history_balanced(&self) -> bool {
        balanced(self.model(), self.history())
    }

    /// Over the service's life, no permanent subnet was left and no attestation subnet was
    /// removed from the node record.
    pub open spec fn history_keeps_permanent(&self) -> bool {
        permanent_kept(self.model(), self.history())
    }

    /// The service is midway through a batch: `b` is what the batch has built since it
    /// began with pending messages `q0` and history `h0`, and `ac`, `sc` are its wishes for
    /// peers.
    spec fn holds(
        &self,
        q0: Seq<Message>,
        h0: Seq<Message>,
        b: Batch,
        ac: Seq<Option<u64>>,
        sc: Seq<Option<u64>>,
    ) -> bool {
        &&& self.model() == b.model
        &&& self.pending() == q0 + b.out
        &&& self.history() == h0 + b.out
        &&& ac == b.att_cand
        &&& sc == b.sync_cand
        &&& ac.len() == ATTESTATION_SUBNET_COUNT
        &&& sc.len() == SYNC_COMMITTEE_SUBNET_COUNT
    }

    /// Starts the service at `current_slot` for the node `node_id`: it joins the node's
    /// permanent subnets, advertises them and asks for peers on them.
    pub fn new(
        slots_per_epoch: u64,
        subnets_per_node: u64,
        node_id: &[u8; 32],
        current_slot: u64,
    ) -> (r: SubnetService)
        requires
            slots_per_epoch > 0,
            subnets_per_node <= ATTESTATION_SUBNET_COUNT,
        ensures
            r.wf(),
            r.model() == (Model {
                slot: current_slot,
                slots_per_epoch,
                permanent: permanent_subnets_of(node_id@, subnets_per_node as nat),
                attestation: Seq::new(ATTESTATION_SUBNET_COUNT as nat, |i: int| None),
                sync: Seq::new(SYNC_COMMITTEE_SUBNET_COUNT as nat, |i: int| None),
                scheduled: seq![],
            }),
            r.model().permanent.no_duplicates(),
            r.pending() == start_messages(r.model().permanent),
            r.history() == start_messages(r.model().permanent),
            r.history_balanced(),
            r.history_keeps_permanent(),
    {
        let permanent = compute_permanent_subnets(node_id, subnets_per_node);
        let mut s = SubnetService {
            slots_per_epoch,
            current_slot,
            permanent: Vec::new(),
            attestation_expiry: empty_entries(ATTESTATION_SUBNET_COUNT),
            sync_expiry: empty_entries(SYNC_COMMITTEE_SUBNET_COUNT),
            scheduled: Vec::new(),
            queue: Vec::new(),
            history: Ghost(Seq::empty()),
        };
        let mut searches: Vec<SubnetDiscovery> = Vec::new();
        let mut i: usize = 0;
        while i < permanent.len()
            invariant
                i <= permanent@.len(),
                s.wf(),
                s.model().slot == current_slot,
                s.model().slots_per_epoch == slots_per_epoch,
                s.model().attestation == Seq::new(ATTESTATION_SUBNET_COUNT as nat, |i: int| None::<u64>),
                s.model().sync == Seq::new(SYNC_COMMITTEE_SUBNET_COUNT as nat, |i: int| None::<u64>),
                s.model().scheduled == Seq::<(u64, u64)>::empty(),
                s.permanent@ == Seq::<u64>::empty(),
                s.pending() == start_pairs(permanent@.take(i as int)),
                s.history() == start_pairs(permanent@.take(i as int)),
                searches@ == permanent_searches(permanent@.take(i as int)),
            decreases permanent@.len() - i,
        {
            let p = permanent[i];
            s.emit(SubnetServiceMessage::Subscribe(Subnet::Attestation(p)));
            s.emit(SubnetServiceMessage::EnrAdd(Subnet::Attestation(p)));
            searches.push(SubnetDiscovery { subnet: Subnet::Attestation(p), min_ttl: u64::MAX });
            i = i + 1;
            assert(permanent@.take(i as int).drop_last() =~= permanent@.take(i - 1));
            assert(s.pending() =~= start_pairs(permanent@.take(i as int)));
            assert(s.history() =~= start_pairs(permanent@.take(i as int)));
            assert(searches@ =~= permanent_searches(permanent@.take(i as int)));
        }
        assert(permanent@.take(i as int) =~= permanent@);
        if permanent.len() > 0 {
            s.emit(SubnetServiceMessage::DiscoverPeers(searches));
        }
        s.permanent = permanent;
        assert(s.model().wf());
        proof {
            startup_is_balanced(s.model());
            startup_keeps_permanent(s.model());
        }
        s
    }

    /// Appends a message to the queue.
    fn emit(&mut self, m: SubnetServiceMessage)
        ensures
            final(self).model() == old(self).model(),
            final(self).pending() == old(self).pending().push(m@),
            final(self).history() == old(self).history().push(m@),
    {
        self.queue.push(m);
        self.history = Ghost(self.history@.push(m@));
        assert(self.pending() =~= old(self).pending().push(m@));
    }

    /// Whether `id` is one of the permanent attestation subnets.
    fn is_permanent_id(&self, id: u64) -> (r: bool)
        ensures
            r == self.model().permanent.contains(id),
    {
        let mut i: usize = 0;
        while i < self.permanent.len()
            invariant
                i <= self.permanent@.len(),
                forall|j: int| 0 <= j < i ==> self.permanent@[j] != id,
            decreases self.permanent@.len() - i,
        {
            if self.permanent[i] == id {
                assert(self.permanent@[i as int] == id);
                return true;
            }
            i = i + 1;
        }
        false
    }

    /// Whether the duty `(id, slot)` is already scheduled.
    fn is_scheduled(&self, id: u64, slot: u64) -> (r: bool)
        ensures
            r == self.model().scheduled.contains((id, slot)),
    {
        let mut i: usize = 0;
        while i < self.scheduled.len()
            invariant
                i <= self.scheduled@.len(),
                forall|j: int| 0 <= j < i ==> self.scheduled@[j] != (id, slot),
            decreases self.scheduled@.len() - i,
        {
            let (a, b) = self.scheduled[i];
            if a == id && b == slot {
                assert(self.scheduled@[i as int] == (id, slot));
                return true;
            }
            i = i + 1;
        }
        false
    }

    /// Starts, or extends to `end`, the short-lived subscription to attestation subnet `id`.
    fn subscribe_now(&mut self, id: u64, end: u64)
        requires
            old(self).wf(),
            id < ATTESTATION_SUBNET_COUNT,
        ensures
            final(self).wf(),
            final(self).model() == subscribe_now(old(self).model(), id, end).0,
            final(self).pending() == old(self).pending() + subscribe_now(old(self).model(), id, end).1,
            final(self).history() == old(self).history() + subscribe_now(old(self).model(), id, end).1,
    {
        let ghost m0 = self.model();
        if self.is_permanent_id(id) || end <= self.current_slot {
            assert(self.pending() =~= self.pending() + seq![]);
            assert(self.history() =~= self.history() + seq![]);
            return;
        }
        match self.attestation_expiry[id as usize] {
            Some(e) => {
                self.attestation_expiry[id as usize] = Some(if e >= end { e } else { end });
                assert(self.pending() =~= old(self).pending() + seq![]);
                assert(self.history() =~= old(self).history() + seq![]);
            },
            None => {
                self.attestation_expiry[id as usize] = Some(end);
                self.emit(SubnetServiceMessage::Subscribe(Subnet::Attestation(id)));
                assert(self.pending() =~= old(self).pending() + seq![Message::Subscribe(Subnet::Attestation(id))]);
                assert(self.history() =~= old(self).history() + seq![Message::Subscribe(Subnet::Attestation(id))]);
            },
        }
        assert(self.model() =~= subscribe_now(m0, id, end).0);
    }

    /// Handles one attestation duty within a batch.
    fn handle_attestation(
        &mut self,
        ac: &mut Vec<Option<u64>>,
        sc: &Vec<Option<u64>>,
        s: ValidatorSubscription,
        Ghost(q0): Ghost<Seq<Message>>,
        Ghost(h0): Ghost<Seq<Message>>,
        Ghost(b): Ghost<Batch>,
    )
        requires
            old(self).wf(),
            old(self).holds(q0, h0, b, old(ac)@, sc@),
        ensures
            final(self).wf(),
            final(self).holds(q0, h0, add_attestation(b, s), final(ac)@, sc@),
    {
        let id = match compute_subnet(
            s.slot,
            s.attestation_committee_index,
            s.committee_count_at_slot,
            self.slots_per_epoch,
        ) {
            Some(id) => id,
            None => return ,
        };
        if s.slot == u64::MAX {
            return ;
        }
        let end = s.slot + 1;
        add_wish(ac, id, end);
        let ghost b1 = Batch { att_cand: wish(b.att_cand, id, end), ..b };
        if s.slot < self.current_slot {
            return ;
        }
        if s.slot - self.current_slot >= MIN_PEER_DISCOVERY_SLOT_LOOK_AHEAD {
            if !self.is_permanent_id(id) && !self.is_scheduled(id, s.slot) {
                self.scheduled.push((id, s.slot));
                assert(self.model() =~= add_attestation(b, s).model);
            }
        } else {
            self.subscribe_now(id, end);
            assert(self.pending() =~= q0 + add_attestation(b, s).out);
            assert(self.history() =~= h0 + add_attestation(b, s).out);
        }
    }

    /// Joins sync-committee subnet `id` until `end` within a batch.
    fn handle_sync_subnet(
        &mut self,
        ac: &Vec<Option<u64>>,
        sc: &mut Vec<Option<u64>>,
        id: u64,
        end: u64,
        Ghost(q0): Ghost<Seq<Message>>,
        Ghost(h0): Ghost<Seq<Message>>,
        Ghost(b): Ghost<Batch>,
    )
        requires
            old(self).wf(),
            old(self).holds(q0, h0, b, ac@, old(sc)@),
            id < SYNC_COMMITTEE_SUBNET_COUNT,
        ensures
            final(self).wf(),
            final(self).holds(q0, h0, add_sync_subnet(b, id, end), ac@, final(sc)@),
    {
        add_wish(sc, id, end);
        match self.sync_expiry[id as usize] {
            Some(e) => {
                self.sync_expiry[id as usize] = Some(if e >= end { e } else { end });
                assert(self.model() =~= add_sync_subnet(b, id, end).model);
            },
            None => {
                self.sync_expiry[id as usize] = Some(end);
                self.emit(SubnetServiceMessage::Subscribe(Subnet::SyncCommittee(id)));
                self.emit(SubnetServiceMessage::EnrAdd(Subnet::SyncCommittee(id)));
                assert(self.model() =~= add_sync_subnet(b, id, end).model);
                assert(self.pending() =~= q0 + add_sync_subnet(b, id, end).out);
                assert(self.history() =~= h0 + add_sync_subnet(b, id, end).out);
            },
        }
    }

    /// Handles one sync-committee subscription within a batch.
    fn handle_sync(
        &mut self,
        ac: &Vec<Option<u64>>,
        sc: &mut Vec<Option<u64>>,
        s: &SyncCommitteeSubscription,
        Ghost(q0): Ghost<Seq<Message>>,
        Ghost(h0): Ghost<Seq<Message>>,
        Ghost(b): Ghost<Batch>,
    )
        requires
            old(self).wf(),
            old(self).holds(q0, h0, b, ac@, old(sc)@),
        ensures
            final(self).wf(),
            final(self).holds(q0, h0, add_sync(b, *s), ac@, final(sc)@),
    {
        let indices = &s.sync_committee_indices;
        let mut i: usize = 0;
        while i < indices.len()
            invariant
                i <= indices@.len(),
                indices@ == s.sync_committee_indices@,
                self.wf(),
                self.holds(q0, h0, b, ac@, sc@),
                forall|j: int| 0 <= j < i ==> (#[trigger] sync_subnet_of(indices@[j])) is Some,
            decreases indices@.len() - i,
        {
            if compute_sync_subnet(indices[i]).is_none() {
                assert(!all_members(s.sync_committee_indices@)) by {
                    assert(sync_subnet_of(indices@[i as int]) is None);
                    if all_members(s.sync_committee_indices@) {
                        assert(sync_subnet_of(s.sync_committee_indices@[i as int]) is Some);
                    }
                }
                assert(add_sync(b, *s) == b);
                return ;
            }
            i = i + 1;
        }
        let end = match sync_expiry(s.until_epoch, self.slots_per_epoch) {
            Some(e) => e,
            None => return ,
        };
        if end <= self.current_slot {
            return ;
        }
        let mut k: usize = 0;
        while k < indices.len()
            invariant
                k <= indices@.len(),
                indices@ == s.sync_committee_indices@,
                all_members(indices@),
                self.wf(),
                self.holds(q0, h0, add_sync_indices(b, indices@.take(k as int), end), ac@, sc@),
            decreases indices@.len() - k,
        {
            let ghost bk = add_sync_indices(b, indices@.take(k as int), end);
            assert(sync_subnet_of(indices@[k as int]) is Some);
            let id = match compute_sync_subnet(indices[k]) {
                Some(id) => id,
                None => {
                    return ;
                },
            };
            self.handle_sync_subnet(ac, sc, id, end, Ghost(q0), Ghost(h0), Ghost(bk));
            k = k + 1;
            assert(indices@.take(k as int).drop_last() =~= indices@.take(k - 1));
        }
        assert(indices@.take(k as int) =~= indices@);
    }

    /// Builds the peer search over the attestation subnets of a batch.
    fn attestation_search(&self, ac: &Vec<Option<u64>>) -> (r: Vec<SubnetDiscovery>)
        requires
            ac@.len() == ATTESTATION_SUBNET_COUNT,
        ensures
            r@ == attestation_searches(ac@, ATTESTATION_SUBNET_COUNT as nat, self.model().slot),
    {
        let mut r: Vec<SubnetDiscovery> = Vec::new();
        let mut i: u64 = 0;
        while i < ATTESTATION_SUBNET_COUNT
            invariant
                i <= ATTESTATION_SUBNET_COUNT,
                ac@.len() == ATTESTATION_SUBNET_COUNT,
                r@ == attestation_searches(ac@, i as nat, self.current_slot),
            decreases ATTESTATION_SUBNET_COUNT - i,
        {
            if is_worth_searching(ac[i as usize], self.current_slot) {
                let ttl = match ac[i as usize] {
                    Some(t) => t,
                    None => 0,
                };
                r.push(SubnetDiscovery { subnet: Subnet::Attestation(i), min_ttl: ttl });
            }
            i = i + 1;
        }
        r
    }

    /// Builds the peer search over the sync-committee subnets of a batch.
    fn sync_search(&self, sc: &Vec<Option<u64>>) -> (r: Vec<SubnetDiscovery>)
        requires
            sc@.len() == SYNC_COMMITTEE_SUBNET_COUNT,
        ensures
            r@ == sync_searches(sc@, SYNC_COMMITTEE_SUBNET_COUNT as nat, self.model().slot),
    {
        let mut r: Vec<SubnetDiscovery> = Vec::new();
        let mut k: u64 = 0;
        while k < SYNC_COMMITTEE_SUBNET_COUNT
            invariant
                k <= SYNC_COMMITTEE_SUBNET_COUNT,
                sc@.len() == SYNC_COMMITTEE_SUBNET_COUNT,
                r@ == sync_searches(sc@, k as nat, self.current_slot),
            decreases SYNC_COMMITTEE_SUBNET_COUNT - k,
        {
            if is_worth_searching(sc[k as usize], self.current_slot) {
                let ttl = match sc[k as usize] {
                    Some(t) => t,
                    None => 0,
                };
                r.push(SubnetDiscovery { subnet: Subnet::SyncCommittee(k), min_ttl: ttl });
            }
            k = k + 1;
        }
        r
    }

    /// Takes in a batch of validator duties: joins the subnets they need, now or one slot
    /// ahead, and asks for peers on those with time for a search.
    pub fn validator_subscriptions(&mut self, subscriptions: Vec<Subscription>)
        requires
            old(self).wf(),
        ensures
            final(self).wf(),
            final(self).model() == subscriptions_outcome(old(self).model(), subscriptions@).0,
            final(self).pending() == old(self).pending() + subscriptions_outcome(
                old(self).model(),
                subscriptions@,
            ).1,
            final(self).history() == old(self).history() + subscriptions_outcome(
                old(self).model(),
                subscriptions@,
            ).1,
            old(self).history_balanced() ==> final(self).history_balanced(),
            old(self).history_keeps_permanent() ==> final(self).history_keeps_permanent(),
            forall|k: int|
                0 <= k < subscriptions_outcome(old(self).model(), subscriptions@).1.len() && (
                #[trigger] subscriptions_outcome(old(self).model(), subscriptions@).1[k]) is DiscoverPeers
                    ==> bounded_search(
                    subscriptions_outcome(old(self).model(), subscriptions@).1[k]->DiscoverPeers_0,
                ),
    {
        let ghost q0 = self.pending();
        let ghost h0 = self.history();
        let ghost b0 = empty_batch(self.model());
        let mut ac = empty_entries(ATTESTATION_SUBNET_COUNT);
        let mut sc = empty_entries(SYNC_COMMITTEE_SUBNET_COUNT);
        assert(q0 =~= q0 + b0.out);
        assert(h0 =~= h0 + b0.out);
        let mut i: usize = 0;
        while i < subscriptions.len()
            invariant
                i <= subscriptions@.len(),
                self.wf(),
                self.holds(q0, h0, add_all(b0, subscriptions@.take(i as int)), ac@, sc@),
            decreases subscriptions@.len() - i,
        {
            let ghost bi = add_all(b0, subscriptions@.take(i as int));
            assert(subscriptions@.take(i + 1).drop_last() =~= subscriptions@.take(i as int));
            match &subscriptions[i] {
                Subscription::Attestation(a) => {
                    self.handle_attestation(&mut ac, &sc, *a, Ghost(q0), Ghost(h0), Ghost(bi));
                },
                Subscription::SyncCommittee(c) => {
                    self.handle_sync(&ac, &mut sc, c, Ghost(q0), Ghost(h0), Ghost(bi));
                },
            }
            i = i + 1;
        }
        assert(subscriptions@.take(i as int) =~= subscriptions@);
        let ghost b = add_all(b0, subscriptions@);
        let ghost q1 = self.pending();
        let ghost h1 = self.history();
        let d = self.attestation_search(&ac);
        let ghost da = d@;
        if d.len() > 0 {
            self.emit(SubnetServiceMessage::DiscoverPeers(d));
        }
        assert(self.pending() =~= q1 + search_message(da));
        assert(self.history() =~= h1 + search_message(da));
        let e = self.sync_search(&sc);
        let ghost ds = e@;
        if e.len() > 0 {
            self.emit(SubnetServiceMessage::DiscoverPeers(e));
        }
        assert(self.pending() =~= q1 + search_message(da) + search_message(ds));
        assert(self.history() =~= h1 + search_message(da) + search_message(ds));
        assert(batch_search_messages(b) == search_message(da) + search_message(ds));
        assert(self.pending() =~= q0 + subscriptions_outcome(old(self).model(), subscriptions@).1);
        assert(self.history() =~= h0 + subscriptions_outcome(old(self).model(), subscriptions@).1);
        proof {
            if balanced(old(self).model(), h0) {
                batch_keeps_balance(old(self).model(), subscriptions@, h0);
            }
            searches_are_distinct_and_bounded(old(self).model(), subscriptions@);
            if permanent_kept(old(self).model(), h0) {
                permanent_subnets_are_never_left(old(self).model(), subscriptions@, 0, h0);
            }
        }
    }

    /// Moves to slot `slot`: ends the subscriptions due by then, short-lived attestation
    /// subnets first, then sync-committee subnets (which also leave the node record), then
    /// starts the scheduled subscriptions whose first slot has come.
    pub fn on_slot(&mut self, slot: u64)
        requires
            old(self).wf(),
        ensures
            final(self).wf(),
            final(self).model() == tick_outcome(old(self).model(), slot).0,
            final(self).pending() == old(self).pending() + tick_outcome(old(self).model(), slot).1,
            final(self).history() == old(self).history() + tick_outcome(old(self).model(), slot).1,
            old(self).history_balanced() ==> final(self).history_balanced(),
            old(self).history_keeps_permanent() ==> final(self).history_keeps_permanent(),
            forall|s: Subnet| #[trigger]
                final(self).model().is_short_lived(s) ==> !final(self).model().is_permanent(s)
                    && final(self).model().end_of(s).unwrap() > slot,
            forall|s: Subnet|
                (#[trigger] old(self).model().is_short_lived(s) && old(self).model().end_of(s).unwrap()
                    > slot) ==> final(self).model().is_short_lived(s),
    {
        let ghost m0 = self.model();
        let ghost q0 = self.pending();
        let ghost h0 = self.history();
        let mut id: u64 = 0;
        while id < ATTESTATION_SUBNET_COUNT
            invariant
                id <= ATTESTATION_SUBNET_COUNT,
                m0.wf(),
                self.wf(),
                self.model() == (Model { attestation: self.attestation_expiry@, ..m0 }),
                forall|j: int| 0 <= j < id ==> self.attestation_expiry@[j] == expire(m0.attestation, slot)[j],
                forall|j: int| id <= j < ATTESTATION_SUBNET_COUNT ==> self.attestation_expiry@[j] == m0.attestation[j],
                self.pending() == q0 + attestation_expiries(m0.attestation, id as nat, slot),
                self.history() == h0 + attestation_expiries(m0.attestation, id as nat, slot),
            decreases ATTESTATION_SUBNET_COUNT - id,
        {
            if let Some(e) = self.attestation_expiry[id as usize] {
                if e <= slot {
                    self.attestation_expiry[id as usize] = None;
                    self.emit(SubnetServiceMessage::Unsubscribe(Subnet::Attestation(id)));
                }
            }
            id = id + 1;
            assert(self.pending() =~= q0 + attestation_expiries(m0.attestation, id as nat, slot));
            assert(self.history() =~= h0 + attestation_expiries(m0.attestation, id as nat, slot));
        }
        assert(self.attestation_expiry@ =~= expire(m0.attestation, slot));
        let ghost q1 = self.pending();
        let ghost h1 = self.history();
        let mut k: u64 = 0;
        while k < SYNC_COMMITTEE_SUBNET_COUNT
            invariant
                k <= SYNC_COMMITTEE_SUBNET_COUNT,
                m0.wf(),
                self.wf(),
                self.model() == (Model {
                    attestation: expire(m0.attestation, slot),
                    sync: self.sync_expiry@,
                    ..m0
                }),
                forall|j: int| 0 <= j < k ==> self.sync_expiry@[j] == expire(m0.sync, slot)[j],
                forall|j: int| k <= j < SYNC_COMMITTEE_SUBNET_COUNT ==> self.sync_expiry@[j] == m0.sync[j],
                self.pending() == q1 + sync_expiries(m0.sync, k as nat, slot),
                self.history() == h1 + sync_expiries(m0.sync, k as nat, slot),
            decreases SYNC_COMMITTEE_SUBNET_COUNT - k,
        {
            if let Some(e) = self.sync_expiry[k as usize] {
                if e <= slot {
                    self.sync_expiry[k as usize] = None;
                    self.emit(SubnetServiceMessage::Unsubscribe(Subnet::SyncCommittee(k)));
                    self.emit(SubnetServiceMessage::EnrRemove(Subnet::SyncCommittee(k)));
                }
            }
            k = k + 1;
            assert(self.pending() =~= q1 + sync_expiries(m0.sync, k as nat, slot));
            assert(self.history() =~= h1 + sync_expiries(m0.sync, k as nat, slot));
        }
        assert(self.sync_expiry@ =~= expire(m0.sync, slot));
        self.current_slot = slot;
        let mut sched: Vec<(u64, u64)> = Vec::new();
        std::mem::swap(&mut self.scheduled, &mut sched);
        let ghost m1 = self.model();
        let ghost q2 = self.pending();
        let ghost h2 = self.history();
        assert(m1 == (Model {
            slot,
            attestation: expire(m0.attestation, slot),
            sync: expire(m0.sync, slot),
            scheduled: seq![],
            ..m0
        }));
        assert(q2 =~= q2 + run_scheduled(m1, sched@.take(0)).1);
        assert(h2 =~= h2 + run_scheduled(m1, sched@.take(0)).1);
        let mut kept: Vec<(u64, u64)> = Vec::new();
        let mut i: usize = 0;
        while i < sched.len()
            invariant
                i <= sched@.len(),
                sched@ == m0.scheduled,
                m0.wf(),
                self.wf(),
                self.current_slot == slot,
                m1.slot == slot,
                self.model() == run_scheduled(m1, sched@.take(i as int)).0,
                self.pending() == q2 + run_scheduled(m1, sched@.take(i as int)).1,
                self.history() == h2 + run_scheduled(m1, sched@.take(i as int)).1,
                kept@ == run_scheduled(m1, sched@.take(i as int)).2,
                forall|j: int|
                    0 <= j < kept@.len() ==> (#[trigger] kept@[j]).0 < ATTESTATION_SUBNET_COUNT
                        && kept@[j].1 < u64::MAX,
            decreases sched@.len() - i,
        {
            assert(sched@.take(i + 1).drop_last() =~= sched@.take(i as int));
            let (sid, s) = sched[i];
            assert(sched@[i as int].0 < ATTESTATION_SUBNET_COUNT && sched@[i as int].1 < u64::MAX);
            if s <= slot || s - slot <= 1 {
                self.subscribe_now(sid, s + 1);
            } else {
                kept.push((sid, s));
            }
            i = i + 1;
            assert(self.pending() =~= q2 + run_scheduled(m1, sched@.take(i as int)).1);
            assert(self.history() =~= h2 + run_scheduled(m1, sched@.take(i as int)).1);
        }
        assert(sched@.take(i as int) =~= sched@);
        self.scheduled = kept;
        assert(self.pending() =~= q0 + tick_outcome(m0, slot).1);
        assert(self.history() =~= h0 + tick_outcome(m0, slot).1);
        assert(self.model() == tick_outcome(m0, slot).0);
        proof {
            if balanced(m0, h0) {
                tick_keeps_balance(m0, slot, h0);
            }
            tick_keeps_exactly_live_subscriptions(m0, slot);
            if permanent_kept(m0, h0) {
                permanent_subnets_are_never_left(m0, Seq::empty(), slot, h0);
            }
        }
    }

    /// Takes the messages emitted so far, oldest first.
    pub fn drain_messages(&mut self) -> (r: Vec<SubnetServiceMessage>)
        requires
            old(self).wf(),
        ensures
            final(self).wf(),
            r@.map_values(|m: SubnetServiceMessage| m@) == old(self).pending(),
            final(self).pending() == Seq::<Message>::empty(),
            final(self).model() == old(self).model(),
            final(self).history() == old(self).history(),
    {
        let mut r: Vec<SubnetServiceMessage> = Vec::new();
        std::mem::swap(&mut self.queue, &mut r);
        assert(self.pending() =~= Seq::<Message>::empty());
        r
    }

    /// The current slot.
    pub fn current_slot(&self) -> (r: u64)
        ensures
            r == self.model().slot,
    {
        self.current_slot
    }

    /// The permanent subnets, in the order they were derived.
    pub fn permanent_subscriptions(&self) -> (r: Vec<Subnet>)
        ensures
            r@ == self.model().permanent.map_values(|p: u64| Subnet::Attestation(p)),
    {
        let mut r: Vec<Subnet> = Vec::new();
        let mut i: usize = 0;
        while i < self.permanent.len()
            invariant
                i <= self.permanent@.len(),
                r@ == self.permanent@.take(i as int).map_values(|p: u64| Subnet::Attestation(p)),
            decreases self.permanent@.len() - i,
        {
            r.push(Subnet::Attestation(self.permanent[i]));
            i = i + 1;
            assert(r@ =~= self.permanent@.take(i as int).map_values(|p: u64| Subnet::Attestation(p)));
        }
        assert(self.permanent@.take(i as int) =~= self.permanent@);
        r
    }

    /// The short-lived subscriptions: attestation subnets in subnet order, then
    /// sync-committee subnets in subnet order.
    pub fn subscriptions(&self) -> (r: Vec<Subnet>)
        requires
            self.wf(),
        ensures
            forall|s: Subnet| r@.contains(s) <==> self.model().is_short_lived(s),
            r@.no_duplicates(),
    {
        let mut r: Vec<Subnet> = Vec::new();
        let mut i: u64 = 0;
        while i < ATTESTATION_SUBNET_COUNT
            invariant
                i <= ATTESTATION_SUBNET_COUNT,
                self.wf(),
                r@.no_duplicates(),
                forall|k: int| 0 <= k < r@.len() ==> ((#[trigger] r@[k]) matches Subnet::Attestation(a) && a < i),
                forall|s: Subnet| r@.contains(s) <==> ((s matches Subnet::Attestation(a) && a < i)
                    && self.model().is_short_lived(s)),
            decreases ATTESTATION_SUBNET_COUNT - i,
        {
            if self.attestation_expiry[i as usize].is_some() {
                let ghost r0 = r@;
                r.push(Subnet::Attestation(i));
                assert forall|s: Subnet| r@.contains(s) <==> r0.contains(s) || s == Subnet::Attestation(i) by {
                    if r0.contains(s) {
                        let k = choose|k: int| 0 <= k < r0.len() && r0[k] == s;
                        assert(r@[k] == s);
                    }
                    if s == Subnet::Attestation(i) {
                        assert(r@[r0.len() as int] == s);
                    }
                }
            }
            i = i + 1;
        }
        let mut k: u64 = 0;
        while k < SYNC_COMMITTEE_SUBNET_COUNT
            invariant
                k <= SYNC_COMMITTEE_SUBNET_COUNT,
                self.wf(),
                r@.no_duplicates(),
                forall|j: int| 0 <= j < r@.len() ==> ((#[trigger] r@[j]) matches Subnet::SyncCommittee(a) ==> a < k),
                forall|s: Subnet| r@.contains(s) <==> (self.model().is_short_lived(s) && (s matches Subnet::SyncCommittee(a) ==> a < k)),
            decreases SYNC_COMMITTEE_SUBNET_COUNT - k,
        {
            if self.sync_expiry[k as usize].is_some() {
                let ghost r0 = r@;
                r.push(Subnet::SyncCommittee(k));
                assert forall|s: Subnet| r@.contains(s) <==> r0.contains(s) || s == Subnet::SyncCommittee(k) by {
                    if r0.contains(s) {
                        let j = choose|j: int| 0 <= j < r0.len() && r0[j] == s;
                        assert(r@[j] == s);
                    }
                    if s == Subnet::SyncCommittee(k) {
                        assert(r@[r0.len() as int] == s);
                    }
                }
            }
            k = k + 1;
        }
        r
    }

    /// Whether the node is in subnet `s`, permanently or for a while.
    pub fn is_subscribed(&self, s: &Subnet) -> (r: bool)
        requires
            self.wf(),
        ensures
            r == (self.model().is_permanent(*s) || self.model().is_short_lived(*s)),
    {
        match *s {
            Subnet::Attestation(id) => self.is_permanent_id(id) || (id < ATTESTATION_SUBNET_COUNT
                && self.attestation_expiry[id as usize].is_some()),
            Subnet::SyncCommittee(id) => id < SYNC_COMMITTEE_SUBNET_COUNT
                && self.sync_expiry[id as usize].is_some(),
        }
    }

    /// The slot at which the short-lived subscription to `s` ends, if there is one.
    pub fn subscription_end(&self, s: &Subnet) -> (r: Option<u64>)
        requires
            self.wf(),
        ensures
            r == self.model().end_of(*s),
    {
        match *s {
            Subnet::Attestation(id) => if id < ATTESTATION_SUBNET_COUNT {
                self.attestation_expiry[id as usize]
            } else {
                None
            },
            Subnet::SyncCommittee(id) => if id < SYNC_COMMITTEE_SUBNET_COUNT {
                self.sync_expiry[id as usize]
            } else {
                None
            },
        }
    }
}

} // verus!
