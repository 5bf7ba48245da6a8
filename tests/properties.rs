use subnet_service::chain::{
    compute_permanent_subnets, compute_subnet, compute_sync_subnet, sync_expiry,
};
use subnet_service::clock::{epoch_of, epoch_start_slot, SlotClock};
use subnet_service::service::SubnetService;
use subnet_service::types::{
    Subnet, SubnetDiscovery, SubnetServiceMessage, Subscription, SyncCommitteeSubscription,
    ValidatorSubscription,
};

const SPE: u64 = 32;
/// Permanent subnets 32, 33, 34 and 35.
const NODE: [u8; 32] = [0x80; 32];

fn duty(committee: u64, slot: u64, count: u64) -> Subscription {
    Subscription::Attestation(ValidatorSubscription {
        attestation_committee_index: committee,
        slot,
        committee_count_at_slot: count,
        is_aggregator: false,
    })
}

fn sync(until_epoch: u64, indices: Vec<u64>) -> Subscription {
    Subscription::SyncCommittee(SyncCommitteeSubscription {
        validator_index: 7,
        sync_committee_indices: indices,
        until_epoch,
    })
}

/// A started service whose start messages have been taken.
fn started(slot: u64) -> SubnetService {
    let mut s = SubnetService::new(SPE, 4, &NODE, slot);
    s.drain_messages();
    s
}

/// Ticks from the current slot up to `to`, gathering the messages.
fn run_to(s: &mut SubnetService, to: u64) -> Vec<SubnetServiceMessage> {
    let mut out = s.drain_messages();
    while s.current_slot() < to {
        let next = s.current_slot() + 1;
        s.on_slot(next);
        out.extend(s.drain_messages());
    }
    out
}

fn count_of(msgs: &[SubnetServiceMessage], m: &SubnetServiceMessage) -> usize {
    msgs.iter().filter(|x| *x == m).count()
}

#[test]
fn attestation_subnet_formula() {
    assert_eq!(compute_subnet(33, 2, 3, SPE), Some(5));
    assert_eq!(compute_subnet(31, 63, 4, SPE), Some(59));
    assert_eq!(compute_subnet(0, 64, 1, SPE), Some(0));
    assert_eq!(compute_subnet(31, 1, u64::MAX, SPE), None);
    assert_eq!(compute_subnet(0, u64::MAX, 1, SPE), Some(63));
}

#[test]
fn sync_subnet_formula() {
    assert_eq!(compute_sync_subnet(1), Some(0));
    assert_eq!(compute_sync_subnet(128), Some(1));
    assert_eq!(compute_sync_subnet(511), Some(3));
    assert_eq!(compute_sync_subnet(512), None);
    assert_eq!(sync_expiry(1, SPE), Some(96));
    assert_eq!(sync_expiry(u64::MAX, SPE), None);
    assert_eq!(sync_expiry(u64::MAX / 32, SPE), None);
}

#[test]
fn permanent_subnets_follow_node_prefix() {
    assert_eq!(compute_permanent_subnets(&NODE, 4), vec![32, 33, 34, 35]);
    assert_eq!(compute_permanent_subnets(&[0xFC; 32], 4), vec![63, 0, 1, 2]);
    assert_eq!(compute_permanent_subnets(&[0x00; 32], 0), Vec::<u64>::new());
    assert_eq!(compute_permanent_subnets(&[0x07; 32], 64).len(), 64);
}

#[test]
fn slot_clock_arithmetic() {
    let c = SlotClock::new(1000, 400);
    assert_eq!(c.now(999), None);
    assert_eq!(c.now(1000), Some(0));
    assert_eq!(c.now(1799), Some(1));
    assert_eq!(c.duration_to_slot(1100, 2), Some(700));
    assert_eq!(c.duration_to_slot(5000, 2), Some(0));
    assert_eq!(c.duration_to_slot(0, u64::MAX), None);
    assert_eq!(epoch_of(65, SPE), 2);
    assert_eq!(epoch_start_slot(3, SPE), Some(96));
    assert_eq!(epoch_start_slot(u64::MAX, SPE), None);
}

#[test]
fn start_messages_join_advertise_then_search() {
    let mut s = SubnetService::new(SPE, 4, &NODE, 10);
    let msgs = s.drain_messages();
    let mut expected = Vec::new();
    for p in 32..36 {
        expected.push(SubnetServiceMessage::Subscribe(Subnet::Attestation(p)));
        expected.push(SubnetServiceMessage::EnrAdd(Subnet::Attestation(p)));
    }
    expected.push(SubnetServiceMessage::DiscoverPeers(
        (32..36)
            .map(|p| SubnetDiscovery { subnet: Subnet::Attestation(p), min_ttl: u64::MAX })
            .collect(),
    ));
    assert_eq!(msgs, expected);
    assert!(s.drain_messages().is_empty());
    assert_eq!(s.permanent_subscriptions().len(), 4);
    assert!(s.subscriptions().is_empty());
}

#[test]
fn no_permanent_subnets_means_no_start_search() {
    let mut s = SubnetService::new(SPE, 0, &NODE, 0);
    assert!(s.drain_messages().is_empty());
}

#[test]
fn subscriptions_after_tick_are_the_live_entries() {
    let mut s = started(0);
    // Subnets 1 and 2 now, subnet 3 at slot 1, subnet 5 at slot 5.
    s.validator_subscriptions(vec![duty(1, 0, 1), duty(2, 0, 1), duty(2, 1, 1), duty(0, 4 + 1, 1)]);
    assert_eq!(compute_subnet(1, 2, 1, SPE), Some(3));
    assert_eq!(compute_subnet(5, 0, 1, SPE), Some(5));
    assert_eq!(
        s.subscriptions(),
        vec![Subnet::Attestation(1), Subnet::Attestation(2), Subnet::Attestation(3)]
    );
    s.on_slot(1);
    assert_eq!(s.subscriptions(), vec![Subnet::Attestation(3)]);
    s.on_slot(2);
    assert!(s.subscriptions().is_empty());
    s.on_slot(4);
    assert_eq!(s.subscriptions(), vec![Subnet::Attestation(5)]);
    assert_eq!(s.subscription_end(&Subnet::Attestation(5)), Some(6));
    s.on_slot(6);
    assert!(s.subscriptions().is_empty());
}

#[test]
fn permanent_subnet_duty_is_ignored() {
    let mut s = started(0);
    s.validator_subscriptions(vec![duty(32, 0, 1), duty(33, 1, 1)]);
    assert!(s.drain_messages().is_empty());
    assert!(s.subscriptions().is_empty());
    assert!(s.is_subscribed(&Subnet::Attestation(32)));
    assert!(!s.is_subscribed(&Subnet::Attestation(31)));
    assert!(!s.is_subscribed(&Subnet::SyncCommittee(0)));
}

#[test]
fn permanent_subnets_advertised_once_at_start() {
    let mut s = SubnetService::new(SPE, 4, &NODE, 0);
    let mut all = s.drain_messages();
    s.validator_subscriptions((0..64).map(|i| duty(i, 3, 1)).collect());
    s.validator_subscriptions(vec![sync(0, vec![1, 300])]);
    all.extend(run_to(&mut s, 100));
    let enr_adds: Vec<&SubnetServiceMessage> =
        all.iter().filter(|m| matches!(m, SubnetServiceMessage::EnrAdd(Subnet::Attestation(_)))).collect();
    assert_eq!(enr_adds.len(), 4);
    for p in 32..36 {
        assert_eq!(count_of(&all, &SubnetServiceMessage::EnrAdd(Subnet::Attestation(p))), 1);
    }
}

#[test]
fn joins_and_leaves_balance_per_subnet() {
    let mut s = SubnetService::new(SPE, 4, &NODE, 0);
    let mut all = s.drain_messages();
    s.validator_subscriptions((0..64).map(|i| duty(i, 3, 1)).collect());
    s.validator_subscriptions(vec![duty(6, 0, 1), duty(0, 6, 1), duty(58, 12, 1), sync(1, vec![1, 200])]);
    all.extend(run_to(&mut s, 20));
    s.validator_subscriptions(vec![duty(9, 25, 1)]);
    all.extend(run_to(&mut s, 40));
    // Still held: the sync subnets; left: everything short-lived else.
    for id in 0..64u64 {
        let subnet = Subnet::Attestation(id);
        let joins = count_of(&all, &SubnetServiceMessage::Subscribe(subnet));
        let leaves = count_of(&all, &SubnetServiceMessage::Unsubscribe(subnet));
        let held = if s.is_subscribed(&subnet) { 1 } else { 0 };
        assert_eq!(joins, leaves + held, "subnet {}", id);
    }
    for id in 0..4u64 {
        let subnet = Subnet::SyncCommittee(id);
        let joins = count_of(&all, &SubnetServiceMessage::Subscribe(subnet));
        let leaves = count_of(&all, &SubnetServiceMessage::Unsubscribe(subnet));
        let held = if s.is_subscribed(&subnet) { 1 } else { 0 };
        assert_eq!(joins, leaves + held);
    }
    assert!(s.is_subscribed(&Subnet::SyncCommittee(0)));
    assert!(s.is_subscribed(&Subnet::SyncCommittee(1)));
    assert_eq!(count_of(&all, &SubnetServiceMessage::Unsubscribe(Subnet::Attestation(32))), 0);
}

#[test]
fn same_sync_subscription_twice_only_searches() {
    let mut s = started(0);
    s.validator_subscriptions(vec![sync(3, vec![130])]);
    assert_eq!(
        s.drain_messages(),
        vec![
            SubnetServiceMessage::Subscribe(Subnet::SyncCommittee(1)),
            SubnetServiceMessage::EnrAdd(Subnet::SyncCommittee(1)),
            SubnetServiceMessage::DiscoverPeers(vec![SubnetDiscovery {
                subnet: Subnet::SyncCommittee(1),
                min_ttl: 160,
            }]),
        ]
    );
    s.validator_subscriptions(vec![sync(3, vec![130])]);
    assert_eq!(
        s.drain_messages(),
        vec![SubnetServiceMessage::DiscoverPeers(vec![SubnetDiscovery {
            subnet: Subnet::SyncCommittee(1),
            min_ttl: 160,
        }])]
    );
}

#[test]
fn higher_until_epoch_extends_sync_membership() {
    let mut s = started(0);
    s.validator_subscriptions(vec![sync(1, vec![0])]);
    s.validator_subscriptions(vec![sync(4, vec![0])]);
    assert_eq!(s.subscription_end(&Subnet::SyncCommittee(0)), Some(192));
    let msgs = run_to(&mut s, 191);
    assert!(!msgs.iter().any(|m| matches!(m, SubnetServiceMessage::Unsubscribe(_))));
    s.on_slot(192);
    assert_eq!(
        s.drain_messages(),
        vec![
            SubnetServiceMessage::Unsubscribe(Subnet::SyncCommittee(0)),
            SubnetServiceMessage::EnrRemove(Subnet::SyncCommittee(0)),
        ]
    );
}

#[test]
fn overlapping_duties_leave_once_after_later_slot() {
    let mut s = started(40);
    // Subnet 9 at slot 40 and at slot 41.
    assert_eq!(compute_subnet(40, 1, 1, SPE), compute_subnet(41, 0, 1, SPE));
    s.validator_subscriptions(vec![duty(1, 40, 1), duty(0, 41, 1)]);
    assert_eq!(s.drain_messages(), vec![SubnetServiceMessage::Subscribe(Subnet::Attestation(9))]);
    assert_eq!(s.subscription_end(&Subnet::Attestation(9)), Some(42));
    s.on_slot(41);
    assert!(s.drain_messages().is_empty());
    s.on_slot(42);
    assert_eq!(s.drain_messages(), vec![SubnetServiceMessage::Unsubscribe(Subnet::Attestation(9))]);
}

#[test]
fn bulk_search_has_distinct_subnets() {
    let mut s = started(0);
    let mut subs: Vec<Subscription> = (0..65).map(|i| duty(i, 10, 1)).collect();
    subs.push(sync(2, vec![0, 1, 129]));
    s.validator_subscriptions(subs);
    let msgs = s.drain_messages();
    let searches: Vec<Vec<SubnetDiscovery>> = msgs
        .iter()
        .filter_map(|m| match m {
            SubnetServiceMessage::DiscoverPeers(d) => Some(d.clone()),
            _ => None,
        })
        .collect();
    // One search over the attestation subnets, one over the sync-committee subnets.
    assert_eq!(searches.len(), 2);
    assert_eq!(searches[0].len(), 64);
    assert_eq!(searches[1].len(), 2);
    for d in &searches {
        assert!(d.len() <= 64);
        for a in 0..d.len() {
            for b in a + 1..d.len() {
                assert_ne!(d[a].subnet, d[b].subnet);
            }
        }
    }
    assert!(searches[0].iter().all(|x| matches!(x.subnet, Subnet::Attestation(_))));
    assert_eq!(searches[0][0], SubnetDiscovery { subnet: Subnet::Attestation(0), min_ttl: 11 });
    assert_eq!(
        searches[1],
        vec![
            SubnetDiscovery { subnet: Subnet::SyncCommittee(0), min_ttl: 128 },
            SubnetDiscovery { subnet: Subnet::SyncCommittee(1), min_ttl: 128 },
        ]
    );
}

#[test]
fn search_keeps_latest_wish_per_subnet() {
    let mut s = started(0);
    // Subnet 5 at slots 5 and 37 (5 = 1 * (37 % 32) + 0).
    s.validator_subscriptions(vec![duty(0, 5, 1), duty(0, 37, 1)]);
    assert_eq!(
        s.drain_messages(),
        vec![SubnetServiceMessage::DiscoverPeers(vec![SubnetDiscovery {
            subnet: Subnet::Attestation(5),
            min_ttl: 38,
        }])]
    );
}

#[test]
fn deferred_duty_subscribes_one_slot_ahead() {
    let mut s = started(0);
    s.validator_subscriptions(vec![duty(3, 8, 1)]);
    let subnet = Subnet::Attestation(11);
    assert_eq!(
        s.drain_messages(),
        vec![SubnetServiceMessage::DiscoverPeers(vec![SubnetDiscovery { subnet, min_ttl: 9 }])]
    );
    assert!(run_to(&mut s, 6).is_empty());
    s.on_slot(7);
    assert_eq!(s.drain_messages(), vec![SubnetServiceMessage::Subscribe(subnet)]);
    s.on_slot(8);
    assert!(s.drain_messages().is_empty());
    s.on_slot(9);
    assert_eq!(s.drain_messages(), vec![SubnetServiceMessage::Unsubscribe(subnet)]);
}

#[test]
fn scheduled_duty_missed_by_a_jump_is_dropped() {
    let mut s = started(0);
    s.validator_subscriptions(vec![duty(3, 8, 1)]);
    s.drain_messages();
    s.on_slot(20);
    assert!(s.drain_messages().is_empty());
    assert!(s.subscriptions().is_empty());
}

#[test]
fn rejected_inputs_are_dropped() {
    let mut s = started(70);
    s.validator_subscriptions(vec![
        // Past slot.
        duty(1, 69, 1),
        // Subnet count overflows.
        duty(1, 63, u64::MAX),
        // Slot with no next slot.
        duty(0, u64::MAX, 1),
        // Index outside the sync committee.
        sync(9, vec![1, 512]),
        // Ended at slot 64.
        sync(0, vec![1]),
        // End slot overflows.
        sync(u64::MAX, vec![1]),
    ]);
    assert!(s.drain_messages().is_empty());
    assert!(s.subscriptions().is_empty());
}

#[test]
fn held_sync_subscription_after_ticks_only_searches() {
    let mut s = started(0);
    s.validator_subscriptions(vec![sync(3, vec![130, 5])]);
    run_to(&mut s, 50);
    let before = s.subscriptions();
    s.validator_subscriptions(vec![sync(3, vec![130, 5])]);
    let msgs = s.drain_messages();
    assert_eq!(msgs.len(), 1);
    assert!(matches!(msgs[0], SubnetServiceMessage::DiscoverPeers(_)));
    assert_eq!(s.subscriptions(), before);
    assert_eq!(s.subscription_end(&Subnet::SyncCommittee(1)), Some(160));
}
