use subnet_service::chain::{compute_subnet, compute_sync_subnet, ATTESTATION_SUBNET_COUNT, MIN_PEER_DISCOVERY_SLOT_LOOK_AHEAD};
use subnet_service::clock::SlotClock;
use subnet_service::service::SubnetService;
use subnet_service::types::{
    Subnet, SubnetServiceMessage, Subscription, SyncCommitteeSubscription, ValidatorSubscription,
};

const SLOT_DURATION_MILLIS: u64 = 400;
const SLOTS_PER_EPOCH: u64 = 32;
const SUBNETS_PER_NODE: u64 = 4;
/// A node whose permanent subnets are 32, 33, 34 and 35.
const NODE_ID: [u8; 32] = [0x80; 32];

/// A service driven by a simulated wall clock that starts halfway through slot 0.
struct TestNode {
    service: SubnetService,
    clock: SlotClock,
    now_ms: u64,
}

impl TestNode {
    fn current_slot(&self) -> u64 {
        self.clock.now(self.now_ms).expect("Could not get current slot")
    }
}

fn get_subnet_service() -> TestNode {
    let clock = SlotClock::new(0, SLOT_DURATION_MILLIS);
    let now_ms = SLOT_DURATION_MILLIS / 2;
    let slot = clock.now(now_ms).unwrap();
    TestNode {
        service: SubnetService::new(SLOTS_PER_EPOCH, SUBNETS_PER_NODE, &NODE_ID, slot),
        clock,
        now_ms,
    }
}

/// Gathers the messages of the service while the clock runs for `num_slots_before_timeout`
/// slots, stopping early once `num_events` have come.
fn get_events(
    node: &mut TestNode,
    num_events: Option<usize>,
    num_slots_before_timeout: u32,
) -> Vec<SubnetServiceMessage> {
    let mut events = node.service.drain_messages();
    let end_ms = node.now_ms + SLOT_DURATION_MILLIS * num_slots_before_timeout as u64;
    loop {
        if let Some(num) = num_events {
            if events.len() >= num {
                return events;
            }
        }
        let next_slot = node.service.current_slot() + 1;
        let next_ms = node.clock.duration_to_slot(0, next_slot).unwrap();
        if next_ms > end_ms {
            break;
        }
        node.now_ms = next_ms;
        node.service.on_slot(next_slot);
        events.extend(node.service.drain_messages());
    }
    node.now_ms = end_ms;
    events
}

fn get_subscription(
    attestation_committee_index: u64,
    slot: u64,
    committee_count_at_slot: u64,
    is_aggregator: bool,
) -> Subscription {
    Subscription::Attestation(ValidatorSubscription {
        attestation_committee_index,
        slot,
        committee_count_at_slot,
        is_aggregator,
    })
}

fn get_subscriptions(
    validator_count: u64,
    slot: u64,
    committee_count_at_slot: u64,
    is_aggregator: bool,
) -> Vec<Subscription> {
    (0..validator_count)
        .map(|validator_index| {
            get_subscription(validator_index, slot, committee_count_at_slot, is_aggregator)
        })
        .collect()
}

fn sync_subscription(until_epoch: u64, sync_committee_indices: Vec<u64>) -> Subscription {
    Subscription::SyncCommittee(SyncCommitteeSubscription {
        validator_index: 1,
        sync_committee_indices,
        until_epoch,
    })
}

#[test]
fn subscribe_current_slot_wait_for_unsubscribe() {
    let committee_index = 1;
    let subnets_per_node = SUBNETS_PER_NODE as usize;

    let mut node = get_subnet_service();
    let _events = get_events(&mut node, None, 1);

    let current_slot = node.current_slot();

    // Find a subnet that is not one of the permanent ones.
    let subscription_slot = current_slot + 1;
    let mut committee_count = 1;
    let mut subnet = Subnet::Attestation(
        compute_subnet(subscription_slot, committee_index, committee_count, SLOTS_PER_EPOCH).unwrap(),
    );
    while node.service.permanent_subscriptions().iter().any(|x| *x == subnet) {
        committee_count += 1;
        subnet = Subnet::Attestation(
            compute_subnet(subscription_slot, committee_index, committee_count, SLOTS_PER_EPOCH)
                .unwrap(),
        );
    }

    let subscriptions = vec![get_subscription(committee_index, subscription_slot, committee_count, true)];
    node.service.validator_subscriptions(subscriptions);

    // Not enough time for a peer search: subscribe, then unsubscribe.
    let expected = [
        SubnetServiceMessage::Subscribe(subnet),
        SubnetServiceMessage::Unsubscribe(subnet),
    ];
    let events = get_events(&mut node, Some(2), SLOTS_PER_EPOCH as u32);
    assert_eq!(events, expected);

    assert_eq!(node.service.permanent_subscriptions().len(), subnets_per_node);
    assert_eq!(node.service.subscriptions().len(), 0);
}

#[test]
fn test_same_subnet_unsubscription() {
    let committee_count = 1;

    // Two duties on the same subnet at different slots: one unsubscription, for the later.
    let subscription_slot1 = 0;
    let subscription_slot2 = 1;
    let com1 = 1;
    let com2 = 0;

    let mut node = get_subnet_service();
    let _events = get_events(&mut node, None, 0);
    let current_slot = node.current_slot();

    let sub1 = get_subscription(com1, current_slot + subscription_slot1, committee_count, true);
    let sub2 = get_subscription(com2, current_slot + subscription_slot2, committee_count, true);

    let subnet_id1 =
        compute_subnet(current_slot + subscription_slot1, com1, committee_count, SLOTS_PER_EPOCH).unwrap();
    let subnet_id2 =
        compute_subnet(current_slot + subscription_slot2, com2, committee_count, SLOTS_PER_EPOCH).unwrap();

    assert_ne!(sub1, sub2);
    assert_eq!(subnet_id1, subnet_id2);

    node.service.validator_subscriptions(vec![sub1, sub2]);

    let expected = SubnetServiceMessage::Subscribe(Subnet::Attestation(subnet_id1));

    if node.service.permanent_subscriptions().contains(&Subnet::Attestation(subnet_id1)) {
        let _ = get_events(&mut node, None, 1);
    } else {
        let subscription = get_events(&mut node, None, 1);
        assert_eq!(subscription, [expected]);
    }

    let unsubscribe_event = get_events(&mut node, None, 1);

    let expected = SubnetServiceMessage::Unsubscribe(Subnet::Attestation(subnet_id1));
    if !node.service.is_subscribed(&Subnet::Attestation(subnet_id1)) {
        assert_eq!([expected], unsubscribe_event[..]);
    }

    assert_eq!(node.service.subscriptions().len(), 0);
}

#[test]
fn subscribe_all_subnets() {
    let attestation_subnet_count = ATTESTATION_SUBNET_COUNT;
    let subscription_slot = 3;
    let subscriptions_count = attestation_subnet_count;
    let committee_count = 1;
    let subnets_per_node = SUBNETS_PER_NODE as usize;

    let mut node = get_subnet_service();
    let current_slot = node.current_slot();

    let subscriptions =
        get_subscriptions(subscriptions_count, current_slot + subscription_slot, committee_count, true);
    node.service.validator_subscriptions(subscriptions);

    let events = get_events(&mut node, Some(130), 10);
    let mut discover_peer_count = 0;
    let mut enr_add_count = 0;
    let mut unsubscribe_event_count = 0;
    let mut subscription_event_count = 0;

    for event in &events {
        match event {
            SubnetServiceMessage::DiscoverPeers(_) => discover_peer_count += 1,
            SubnetServiceMessage::Subscribe(_any_subnet) => subscription_event_count += 1,
            SubnetServiceMessage::EnrAdd(_any_subnet) => enr_add_count += 1,
            SubnetServiceMessage::Unsubscribe(_) => unsubscribe_event_count += 1,
            SubnetServiceMessage::EnrRemove(_) => {}
        }
    }

    // A Subscribe and an EnrAdd per permanent subnet, one search for them, then the bulk one.
    let bulk_discovery_index = subnets_per_node * 2 + 1;
    let bulk_discovery_event = &events[bulk_discovery_index];
    if let SubnetServiceMessage::DiscoverPeers(d) = bulk_discovery_event {
        assert_eq!(d.len(), attestation_subnet_count as usize);
    } else {
        panic!("Unexpected event {:?}", bulk_discovery_event);
    }

    assert_eq!(discover_peer_count, 1 + 1);
    assert_eq!(subscription_event_count, attestation_subnet_count);
    assert_eq!(enr_add_count, subnets_per_node);
    assert_eq!(unsubscribe_event_count, attestation_subnet_count - subnets_per_node as u64);
}

#[test]
fn subscribe_correct_number_of_subnets() {
    let attestation_subnet_count = ATTESTATION_SUBNET_COUNT;
    let subscription_slot = 10;
    let subnets_per_node = SUBNETS_PER_NODE as usize;

    // The 65th duty repeats a subnet and adds no message.
    let subscriptions_count = attestation_subnet_count + 1;
    let committee_count = 1;

    let mut node = get_subnet_service();
    let current_slot = node.current_slot();

    let subscriptions =
        get_subscriptions(subscriptions_count, current_slot + subscription_slot, committee_count, true);
    node.service.validator_subscriptions(subscriptions);

    let events = get_events(&mut node, None, 3);
    let mut discover_peer_count = 0;
    let mut enr_add_count = 0;
    let mut unexpected_msg_count = 0;

    for event in &events {
        match event {
            SubnetServiceMessage::DiscoverPeers(_) => discover_peer_count += 1,
            SubnetServiceMessage::Subscribe(_any_subnet) => {}
            SubnetServiceMessage::EnrAdd(_any_subnet) => enr_add_count += 1,
            _ => {
                unexpected_msg_count += 1;
                println!("{:?}", event);
            }
        }
    }

    let bulk_discovery_event = events.last().unwrap();
    if let SubnetServiceMessage::DiscoverPeers(d) = bulk_discovery_event {
        assert_eq!(d.len(), attestation_subnet_count as usize);
    } else {
        panic!("Unexpected event {:?}", bulk_discovery_event);
    }

    assert_eq!(discover_peer_count, 1 + 1);
    assert_eq!(enr_add_count, subnets_per_node);
    assert_eq!(unexpected_msg_count, 0);
}

#[test]
fn test_subscribe_same_subnet_several_slots_apart() {
    let committee_count = 1;

    // Three duties on the same subnet, far enough apart that each gets its own
    // subscription and unsubscription.
    let subscription_slot1 = 0;
    let subscription_slot2 = MIN_PEER_DISCOVERY_SLOT_LOOK_AHEAD + 4;
    let subscription_slot3 = subscription_slot2 * 2;
    let com1 = MIN_PEER_DISCOVERY_SLOT_LOOK_AHEAD + 4;
    let com2 = 0;
    let com3 = ATTESTATION_SUBNET_COUNT - com1;

    let mut node = get_subnet_service();
    let _events = get_events(&mut node, None, 0);

    let current_slot = node.current_slot();

    let sub1 = get_subscription(com1, current_slot + subscription_slot1, committee_count, true);
    let sub2 = get_subscription(com2, current_slot + subscription_slot2, committee_count, true);
    let sub3 = get_subscription(com3, current_slot + subscription_slot3, committee_count, true);

    let subnet_id1 =
        compute_subnet(current_slot + subscription_slot1, com1, committee_count, SLOTS_PER_EPOCH).unwrap();
    let subnet_id2 =
        compute_subnet(current_slot + subscription_slot2, com2, committee_count, SLOTS_PER_EPOCH).unwrap();
    let subnet_id3 =
        compute_subnet(current_slot + subscription_slot3, com3, committee_count, SLOTS_PER_EPOCH).unwrap();

    assert_ne!(sub1, sub2);
    assert_ne!(sub1, sub3);
    assert_ne!(sub2, sub3);
    assert_eq!(subnet_id1, subnet_id2);
    assert_eq!(subnet_id1, subnet_id3);

    node.service.validator_subscriptions(vec![sub1, sub2, sub3]);

    let events = get_events(&mut node, None, 2);

    let expected_subscription = SubnetServiceMessage::Subscribe(Subnet::Attestation(subnet_id1));
    let expected_unsubscription = SubnetServiceMessage::Unsubscribe(Subnet::Attestation(subnet_id1));

    if !node.service.is_subscribed(&Subnet::Attestation(subnet_id1)) {
        assert_eq!(expected_subscription, events[0]);
        assert_eq!(expected_unsubscription, events[2]);
    }
    assert_eq!(node.service.subscriptions().len(), 0);

    println!("{events:?}");
    // The subscription starts one slot ahead of the duty.
    let subscription_slot = current_slot + subscription_slot2 - 1;
    let wait_slots =
        node.clock.duration_to_slot(node.now_ms, subscription_slot).unwrap() / SLOT_DURATION_MILLIS;

    let no_events = get_events(&mut node, None, wait_slots as u32);
    assert_eq!(no_events, []);

    // Subscribed from the slot before the duty until the slot after it.
    let second_subscribe_event = get_events(&mut node, None, 3);
    if !node.service.is_subscribed(&Subnet::Attestation(subnet_id1)) {
        assert_eq!(
            [expected_subscription.clone(), expected_unsubscription.clone()],
            second_subscribe_event[..]
        );
    }

    let subscription_slot = current_slot + subscription_slot3 - 1;
    let wait_slots =
        node.clock.duration_to_slot(node.now_ms, subscription_slot).unwrap() / SLOT_DURATION_MILLIS;

    let no_events = get_events(&mut node, None, wait_slots as u32);
    assert_eq!(no_events, []);

    let third_subscribe_event = get_events(&mut node, None, 3);
    if !node.service.is_subscribed(&Subnet::Attestation(subnet_id1)) {
        assert_eq!([expected_subscription, expected_unsubscription], third_subscribe_event[..]);
    }
}

#[test]
fn subscribe_and_unsubscribe_sync_committee() {
    let until_epoch = 1;
    let sync_committee_indices = vec![1];

    let mut node = get_subnet_service();
    let _events = get_events(&mut node, None, 0);

    node.service.validator_subscriptions(vec![sync_subscription(until_epoch, sync_committee_indices.clone())]);

    let subnet_id = compute_sync_subnet(sync_committee_indices[0]).unwrap();

    let events = get_events(&mut node, Some(5), (SLOTS_PER_EPOCH * 3) as u32);
    assert_eq!(
        events[..2],
        [
            SubnetServiceMessage::Subscribe(Subnet::SyncCommittee(subnet_id)),
            SubnetServiceMessage::EnrAdd(Subnet::SyncCommittee(subnet_id)),
        ]
    );
    assert!(matches!(
        events[2..],
        [
            SubnetServiceMessage::DiscoverPeers(_),
            SubnetServiceMessage::Unsubscribe(_),
            SubnetServiceMessage::EnrRemove(_),
        ]
    ));

    assert_eq!(node.service.subscriptions().len(), 0);
}

#[test]
fn same_subscription_with_lower_until_epoch() {
    let until_epoch = 2;
    let sync_committee_indices = vec![1];

    let mut node = get_subnet_service();
    let _events = get_events(&mut node, None, 1);

    node.service.validator_subscriptions(vec![sync_subscription(until_epoch, sync_committee_indices.clone())]);

    let events = get_events(&mut node, None, 1);
    assert!(matches!(
        events[..],
        [
            SubnetServiceMessage::Subscribe(Subnet::SyncCommittee(_)),
            SubnetServiceMessage::EnrAdd(Subnet::SyncCommittee(_)),
            SubnetServiceMessage::DiscoverPeers(_),
        ]
    ));

    // A repeat, and the same with a lower `until_epoch`: only a peer search.
    let subscriptions = vec![
        sync_subscription(until_epoch, sync_committee_indices.clone()),
        sync_subscription(until_epoch - 1, sync_committee_indices.clone()),
    ];
    node.service.validator_subscriptions(subscriptions);

    let events = get_events(&mut node, None, 1);
    assert!(matches!(events[..], [SubnetServiceMessage::DiscoverPeers(_),]));

    let sync_committee_subscriptions = node
        .service
        .subscriptions()
        .iter()
        .filter(|s| matches!(s, Subnet::SyncCommittee(_)))
        .count();
    assert_eq!(sync_committee_subscriptions, 1);
    // The membership still ends two epochs after the start of epoch 2.
    assert_eq!(
        node.service.subscription_end(&Subnet::SyncCommittee(0)),
        Some((until_epoch + 2) * SLOTS_PER_EPOCH)
    );
}
