use sigil_core::network::{
    DeliveryEpoch, NodeId, NodePool, NodeRole, PrivacyMode, RouteError, RoutePlan, TrafficSizeClass,
};
use std::collections::HashSet;

fn pool(size: usize) -> NodePool {
    NodePool::new((0..size).map(|_| NodeId::random()).collect()).unwrap()
}

#[test]
fn node_pool_accepts_two_to_one_thousand_nodes() {
    assert_eq!(pool(2).len(), 2);
    assert_eq!(pool(1000).len(), 1000);
}

#[test]
fn route_uses_distinct_nodes_from_pool() {
    let pool = pool(20);
    let route = pool.route(7).unwrap();
    let unique: HashSet<_> = route.nodes().iter().copied().collect();
    assert_eq!(unique.len(), 7);
}

#[test]
fn fragment_targets_use_distinct_nodes_when_pool_is_large_enough() {
    let pool = pool(30);
    let targets = pool.targets_for_fragments(20).unwrap();
    let unique: HashSet<_> = targets.iter().copied().collect();
    assert_eq!(targets.len(), 20);
    assert_eq!(unique.len(), 20);
}

#[test]
fn fragment_targets_spread_evenly_when_pool_is_small() {
    let pool = pool(2);
    let targets = pool.targets_for_fragments(20).unwrap();
    let first = targets[0];
    let first_count = targets.iter().filter(|node| **node == first).count();
    assert_eq!(targets.len(), 20);
    assert_eq!(first_count, 10);
}

#[test]
fn no_node_role_is_designed_to_see_network_origin_and_delivery_token_together() {
    for role in [NodeRole::Entry, NodeRole::Transit, NodeRole::Store] {
        let visibility = role.visibility();
        assert!(!(visibility.observes_client_network && visibility.observes_delivery_token));
        assert!(!visibility.observes_peer_identity);
        assert!(!visibility.observes_plaintext);
    }
}

#[test]
fn delivery_epochs_rotate_opaque_tokens() {
    let first = DeliveryEpoch::fresh();
    let second = DeliveryEpoch::fresh();
    assert!(first.epoch != second.epoch);
    assert!(first.delivery != second.delivery);
    assert!(first.routing != second.routing);
}

#[test]
fn ephemeral_network_tokens_are_redacted_in_debug_output() {
    let epoch = DeliveryEpoch::fresh();
    let delivery_bytes = format!("{:?}", epoch.delivery.as_bytes());
    let routing_bytes = format!("{:?}", epoch.routing.as_bytes());
    let debug = epoch.debug_text();

    assert!(debug.contains("REDACTED"));
    assert!(!debug.contains(&delivery_bytes));
    assert!(!debug.contains(&routing_bytes));
}

#[test]
fn maximum_is_the_default_policy() {
    assert_eq!(PrivacyMode::default(), PrivacyMode::Maximum);
    let policy = PrivacyMode::default().policy();
    assert!(policy.rotate_delivery_tokens_per_message);
    assert!(policy.pad_to_size_class);
    assert!(policy.route_rotation);
    assert!(policy.batching_target);
    assert!(policy.bounded_delay_target);
}

#[test]
fn pool_size_limits_are_enforced() {
    assert_eq!(NodePool::new(vec![NodeId::random()]).unwrap_err(), RouteError::NodeCountOutOfRange);
    assert_eq!(
        NodePool::new((0..1001).map(|_| NodeId::random()).collect()).unwrap_err(),
        RouteError::NodeCountOutOfRange
    );
    let node = NodeId::random();
    assert_eq!(NodePool::new(vec![node, node]).unwrap_err(), RouteError::DuplicateNode);
    assert!(!pool(2).is_empty());
}

#[test]
fn routes_need_a_valid_length() {
    let pool = pool(5);
    assert_eq!(pool.route(6).unwrap_err(), RouteError::InvalidRouteLength);
    assert_eq!(pool.route(1).unwrap_err(), RouteError::InvalidRouteLength);
    assert_eq!(pool.route(5).unwrap().nodes().len(), 5);
    let node = NodeId::random();
    assert_eq!(RoutePlan::new(vec![node, node]).unwrap_err(), RouteError::DuplicateNode);
    assert_eq!(RoutePlan::new(vec![node]).unwrap_err(), RouteError::InvalidRouteLength);
    let other = NodeId::random();
    assert_eq!(RoutePlan::new(vec![node, other]).unwrap().nodes(), &[node, other]);
}

#[test]
fn zero_fragments_are_refused() {
    assert_eq!(pool(3).targets_for_fragments(0).unwrap_err(), RouteError::InvalidFragmentCount);
}

#[test]
fn uneven_spread_differs_by_at_most_one() {
    let pool = pool(3);
    let targets = pool.targets_for_fragments(10).unwrap();
    let mut counts: Vec<usize> = targets
        .iter()
        .map(|node| targets.iter().filter(|other| *other == node).count())
        .collect();
    counts.sort();
    assert_eq!(counts.first(), Some(&3));
    assert_eq!(counts.last(), Some(&4));
}

#[test]
fn size_classes_are_the_smallest_that_hold_the_payload() {
    assert_eq!(TrafficSizeClass::KiB4.bytes(), 4096);
    assert_eq!(TrafficSizeClass::KiB16.bytes(), 16_384);
    assert_eq!(TrafficSizeClass::KiB64.bytes(), 65_536);
    assert_eq!(TrafficSizeClass::KiB256.bytes(), 262_144);
    assert_eq!(TrafficSizeClass::smallest_for(0), Some(TrafficSizeClass::KiB4));
    assert_eq!(TrafficSizeClass::smallest_for(4096), Some(TrafficSizeClass::KiB4));
    assert_eq!(TrafficSizeClass::smallest_for(4097), Some(TrafficSizeClass::KiB16));
    assert_eq!(TrafficSizeClass::smallest_for(65_537), Some(TrafficSizeClass::KiB256));
    assert_eq!(TrafficSizeClass::smallest_for(262_144), Some(TrafficSizeClass::KiB256));
    assert_eq!(TrafficSizeClass::smallest_for(262_145), None);
}

#[test]
fn privacy_modes_add_protections_in_order() {
    let standard = PrivacyMode::Standard.policy();
    let private = PrivacyMode::Private.policy();
    assert!(standard.rotate_delivery_tokens_per_message);
    assert!(!standard.pad_to_size_class && !standard.route_rotation);
    assert!(private.pad_to_size_class && private.route_rotation);
    assert!(!private.batching_target && !private.bounded_delay_target);
}

#[test]
fn delivery_epoch_debug_text_is_fully_redacted() {
    let debug = DeliveryEpoch::fresh().debug_text();
    assert_eq!(
        debug,
        "DeliveryEpoch { epoch: MessageEpoch([REDACTED]), delivery: DeliveryToken([REDACTED]), routing: RoutingToken([REDACTED]) }"
    );
}
