use vstd::prelude::*;

use crate::entropy::{fill_random, shuffle};
use crate::seqs::{lemma_permutation_contains, lemma_permutation_map};

verus! {

broadcast use {vstd::seq_lib::group_seq_properties, vstd::seq::group_seq_axioms};

/// Fewest nodes in a pool or a route.
pub const MIN_POOL_NODES: usize = 2;
/// Most nodes in a pool or a route.
pub const MAX_POOL_NODES: usize = 1000;

/// An opaque network node identifier.
#[derive(Debug, Clone, Copy, PartialEq, Eq, Hash)]
pub struct NodeId([u8; 16]);

impl View for NodeId {
    type V = Seq<u8>;

    closed spec fn view(&self) -> Seq<u8> {
        self.0@
    }
}

impl NodeId {
    /// A random node identifier.
    pub fn random() -> (node: Self)
        ensures
            node@.len() == 16,
    {
        let mut bytes = [0u8; 16];
        fill_random(&mut bytes);
        NodeId(bytes)
    }
}

/// The views of a list of nodes.
pub open spec fn node_views(nodes: Seq<NodeId>) -> Seq<Seq<u8>> {
    nodes.map_values(|node: NodeId| node@)
}

/// A short-lived mailbox delivery token.
#[derive(Clone, Copy, PartialEq, Eq, Hash)]
pub struct DeliveryToken([u8; 32]);

impl View for DeliveryToken {
    type V = Seq<u8>;

    closed spec fn view(&self) -> Seq<u8> {
        self.0@
    }
}

impl DeliveryToken {
    /// A random delivery token.
    pub fn random() -> (token: Self)
        ensures
            token@.len() == 32,
    {
        let mut bytes = [0u8; 32];
        fill_random(&mut bytes);
        DeliveryToken(bytes)
    }

    /// The token's bytes.
    pub fn as_bytes(&self) -> (bytes: &[u8; 32])
        ensures
            bytes@ == self@,
    {
        &self.0
    }

    /// The redacted debug text: the token's bytes never appear in it.
    pub fn debug_text(&self) -> (text: String)
        ensures
            text@ == "DeliveryToken([REDACTED])"@,
    {
        String::from_str("DeliveryToken([REDACTED])")
    }
}

/// A short-lived routing token.
#[derive(Clone, Copy, PartialEq, Eq, Hash)]
pub struct RoutingToken([u8; 32]);

impl View for RoutingToken {
    type V = Seq<u8>;

    closed spec fn view(&self) -> Seq<u8> {
        self.0@
    }
}

impl RoutingToken {
    /// A random routing token.
    pub fn random() -> (token: Self)
        ensures
            token@.len() == 32,
    {
        let mut bytes = [0u8; 32];
        fill_random(&mut bytes);
        RoutingToken(bytes)
    }

    /// The token's bytes.
    pub fn as_bytes(&self) -> (bytes: &[u8; 32])
        ensures
            bytes@ == self@,
    {
        &self.0
    }

    /// The redacted debug text: the token's bytes never appear in it.
    pub fn debug_text(&self) -> (text: String)
        ensures
            text@ == "RoutingToken([REDACTED])"@,
    {
        String::from_str("RoutingToken([REDACTED])")
    }
}

/// A short-lived message epoch identifier.
#[derive(Clone, Copy, PartialEq, Eq, Hash)]
pub struct MessageEpoch([u8; 16]);

impl View for MessageEpoch {
    type V = Seq<u8>;

    closed spec fn view(&self) -> Seq<u8> {
        self.0@
    }
}

impl MessageEpoch {
    /// A random message epoch.
    pub fn random() -> (epoch: Self)
        ensures
            epoch@.len() == 16,
    {
        let mut bytes = [0u8; 16];
        fill_random(&mut bytes);
        MessageEpoch(bytes)
    }

    /// The redacted debug text: the epoch's bytes never appear in it.
    pub fn debug_text(&self) -> (text: String)
        ensures
            text@ == "MessageEpoch([REDACTED])"@,
    {
        String::from_str("MessageEpoch([REDACTED])")
    }
}

/// Fresh message, delivery and routing state for one delivery epoch.
#[derive(Clone, Copy, PartialEq, Eq)]
pub struct DeliveryEpoch {
    pub epoch: MessageEpoch,
    pub delivery: DeliveryToken,
    pub routing: RoutingToken,
}

impl DeliveryEpoch {
    /// A delivery epoch with three independent fresh random values.
    pub fn fresh() -> (epoch: Self)
        ensures
            epoch.epoch@.len() == 16,
            epoch.delivery@.len() == 32,
            epoch.routing@.len() == 32,
    {
        DeliveryEpoch { epoch: MessageEpoch::random(), delivery: DeliveryToken::random(), routing: RoutingToken::random() }
    }

    /// The redacted debug text: none of the epoch's tokens appears in it.
    pub fn debug_text(&self) -> (text: String)
        ensures
            text@ == "DeliveryEpoch { epoch: MessageEpoch([REDACTED]), delivery: DeliveryToken([REDACTED]), routing: RoutingToken([REDACTED]) }"@,
    {
        String::from_str(
            "DeliveryEpoch { epoch: MessageEpoch([REDACTED]), delivery: DeliveryToken([REDACTED]), routing: RoutingToken([REDACTED]) }",
        )
    }
}

/// The role a relay node plays on a route.
#[derive(Debug, Clone, Copy, PartialEq, Eq, Structural)]
pub enum NodeRole {
    Entry,
    Transit,
    Store,
}

/// What a node in some role is designed to observe.
#[derive(Debug, Clone, Copy, PartialEq, Eq, Structural)]
pub struct NodeVisibility {
    pub observes_client_network: bool,
    pub observes_delivery_token: bool,
    pub observes_peer_identity: bool,
    pub observes_plaintext: bool,
}

/// What a node in `role` observes: only the entry sees the client's network,
/// only the store sees the delivery token, and none sees the peer's identity or
/// plaintext.
pub open spec fn spec_visibility(role: NodeRole) -> NodeVisibility {
    NodeVisibility {
        observes_client_network: role == NodeRole::Entry,
        observes_delivery_token: role == NodeRole::Store,
        observes_peer_identity: false,
        observes_plaintext: false,
    }
}

impl NodeRole {
    /// What a node in this role is designed to observe.
    pub fn visibility(self) -> (visibility: NodeVisibility)
        ensures
            visibility == spec_visibility(self),
            visibility.observes_client_network == (self == NodeRole::Entry),
            visibility.observes_delivery_token == (self == NodeRole::Store),
    {
        match self {
            NodeRole::Entry => NodeVisibility {
                observes_client_network: true,
                observes_delivery_token: false,
                observes_peer_identity: false,
                observes_plaintext: false,
            },
            NodeRole::Transit => NodeVisibility {
                observes_client_network: false,
                observes_delivery_token: false,
                observes_peer_identity: false,
                observes_plaintext: false,
            },
            NodeRole::Store => NodeVisibility {
                observes_client_network: false,
                observes_delivery_token: true,
                observes_peer_identity: false,
                observes_plaintext: false,
            },
        }
    }
}

/// Which relay sees what: only the entry relay sees the client's network
/// connection, only the store (mailbox) relay sees the delivery token, and the
/// transit relay sees neither.
pub proof fn lemma_role_observations(role: NodeRole)
    ensures
        spec_visibility(role).observes_client_network <==> role == NodeRole::Entry,
        spec_visibility(role).observes_delivery_token <==> role == NodeRole::Store,
        role == NodeRole::Transit ==> !spec_visibility(role).observes_client_network
            && !spec_visibility(role).observes_delivery_token,
{
}

/// No role is designed to see the client's network origin together with the
/// delivery token, and no role sees the peer's identity or the plaintext.
pub proof fn lemma_no_role_links_origin_and_delivery(role: NodeRole)
    ensures
        !(spec_visibility(role).observes_client_network && spec_visibility(role).observes_delivery_token),
        !spec_visibility(role).observes_peer_identity,
        !spec_visibility(role).observes_plaintext,
{
}

/// Why a pool, a route or a distribution could not be formed.
#[derive(Debug, Clone, Copy, PartialEq, Eq, Structural)]
pub enum RouteError {
    NodeCountOutOfRange,
    DuplicateNode,
    InvalidRouteLength,
    InvalidFragmentCount,
}

/// Whether the nodes' identifiers are pairwise distinct.
fn all_distinct(nodes: &Vec<NodeId>) -> (distinct: bool)
    ensures
        distinct == node_views(nodes@).no_duplicates(),
{
    let ghost views = node_views(nodes@);
    let mut i: usize = 0;
    while i < nodes.len()
        invariant
            views == node_views(nodes@),
            views.len() == nodes@.len(),
            i <= nodes@.len(),
            forall|a: int, b: int| 0 <= a < b < nodes@.len() && a < i ==> views[a] != views[b],
        decreases nodes@.len() - i,
    {
        let mut j: usize = i + 1;
        while j < nodes.len()
            invariant
                views == node_views(nodes@),
                views.len() == nodes@.len(),
                i < nodes@.len(),
                i + 1 <= j <= nodes@.len(),
                forall|a: int, b: int| 0 <= a < b < nodes@.len() && a < i ==> views[a] != views[b],
                forall|b: int| i < b < j ==> views[i as int] != views[b],
            decreases nodes@.len() - j,
        {
            if crate::bytes::bytes_equal(&nodes[i].0, &nodes[j].0) {
                assert(views[i as int] == views[j as int]);
                return false;
            }
            j = j + 1;
        }
        i = i + 1;
    }
    true
}

/// An ordered route through distinct nodes.
#[derive(Debug, Clone, PartialEq, Eq)]
pub struct RoutePlan {
    nodes: Vec<NodeId>,
}

impl View for RoutePlan {
    type V = Seq<Seq<u8>>;

    closed spec fn view(&self) -> Seq<Seq<u8>> {
        node_views(self.nodes@)
    }
}

/// What `RoutePlan::new` and `NodePool::new` check: a node count from
/// `MIN_POOL_NODES` to `MAX_POOL_NODES`, and no node twice.
pub open spec fn valid_node_set(nodes: Seq<Seq<u8>>) -> bool {
    &&& MIN_POOL_NODES <= nodes.len() <= MAX_POOL_NODES
    &&& nodes.no_duplicates()
}

impl RoutePlan {
    /// A route through `nodes`, which must number 2 to 1000 and be distinct.
    pub fn new(nodes: Vec<NodeId>) -> (result: Result<Self, RouteError>)
        ensures
            match result {
                Ok(plan) => valid_node_set(node_views(nodes@)) && plan@ == node_views(nodes@),
                Err(e) => if !(MIN_POOL_NODES <= nodes@.len() <= MAX_POOL_NODES) {
                    e == RouteError::InvalidRouteLength
                } else {
                    !node_views(nodes@).no_duplicates() && e == RouteError::DuplicateNode
                },
            },
    {
        if nodes.len() < MIN_POOL_NODES || nodes.len() > MAX_POOL_NODES {
            return Err(RouteError::InvalidRouteLength);
        }
        if !all_distinct(&nodes) {
            return Err(RouteError::DuplicateNode);
        }
        Ok(RoutePlan { nodes })
    }

    /// The route's nodes, in order.
    pub fn nodes(&self) -> (nodes: &[NodeId])
        ensures
            node_views(nodes@) == self@,
    {
        self.nodes.as_slice()
    }
}

/// `targets` is spread over `pool` in `rounds` full shuffled passes followed by
/// a shorter partial pass: each pass of `pool.len()` targets holds every pool
/// node exactly once, and the partial pass holds distinct pool nodes.
pub open spec fn spread_in_rounds(targets: Seq<Seq<u8>>, pool: Seq<Seq<u8>>, rounds: nat) -> bool {
    let width = pool.len();
    &&& targets.len() >= rounds * width
    &&& targets.len() - rounds * width < width
    &&& forall|b: int| 0 <= b < rounds ==> (#[trigger] targets.subrange(b * width, b * width + width)).to_multiset()
        == pool.to_multiset()
    &&& targets.skip((rounds * width) as int).no_duplicates()
    &&& forall|i: int| rounds * width <= i < targets.len() ==> pool.contains(#[trigger] targets[i])
}

/// A pool of 2 to 1000 distinct nodes to build routes from and spread fragments
/// over.
#[derive(Debug, PartialEq, Eq)]
pub struct NodePool {
    nodes: Vec<NodeId>,
}

impl View for NodePool {
    type V = Seq<Seq<u8>>;

    closed spec fn view(&self) -> Seq<Seq<u8>> {
        node_views(self.nodes@)
    }
}

impl Clone for NodePool {
    /// A copy of the pool, in the same order.
    fn clone(&self) -> (copy: Self)
        ensures
            copy@ == self@,
    {
        proof {
            use_type_invariant(self);
        }
        NodePool { nodes: vstd::slice::slice_to_vec(self.nodes.as_slice()) }
    }
}

impl NodePool {
    #[verifier::type_invariant]
    spec fn is_valid(self) -> bool {
        valid_node_set(self@)
    }

    /// A pool of `nodes`, which must number 2 to 1000 and be distinct.
    pub fn new(nodes: Vec<NodeId>) -> (result: Result<Self, RouteError>)
        ensures
            match result {
                Ok(pool) => valid_node_set(node_views(nodes@)) && pool@ == node_views(nodes@),
                Err(e) => if !(MIN_POOL_NODES <= nodes@.len() <= MAX_POOL_NODES) {
                    e == RouteError::NodeCountOutOfRange
                } else {
                    !node_views(nodes@).no_duplicates() && e == RouteError::DuplicateNode
                },
            },
    {
        if nodes.len() < MIN_POOL_NODES || nodes.len() > MAX_POOL_NODES {
            return Err(RouteError::NodeCountOutOfRange);
        }
        if !all_distinct(&nodes) {
            return Err(RouteError::DuplicateNode);
        }
        Ok(NodePool { nodes })
    }

    /// Number of nodes.
    pub fn len(&self) -> (count: usize)
        ensures
            count == self@.len(),
            valid_node_set(self@),
    {
        proof {
            use_type_invariant(self);
        }
        self.nodes.len()
    }

    /// Whether the pool has no node (never, since a pool holds at least two).
    pub fn is_empty(&self) -> (empty: bool)
        ensures
            empty == (self@.len() == 0),
            !empty,
    {
        proof {
            use_type_invariant(self);
        }
        self.nodes.len() == 0
    }

    /// A copy of the pool's node list.
    fn node_list(&self) -> (nodes: Vec<NodeId>)
        ensures
            nodes@ == self.nodes@,
    {
        let mut nodes: Vec<NodeId> = Vec::with_capacity(self.nodes.len());
        let mut i: usize = 0;
        while i < self.nodes.len()
            invariant
                i <= self.nodes@.len(),
                nodes@ == self.nodes@.take(i as int),
            decreases self.nodes@.len() - i,
        {
            nodes.push(self.nodes[i]);
            i = i + 1;
            assert(nodes@ =~= self.nodes@.take(i as int));
        }
        assert(self.nodes@.take(i as int) =~= self.nodes@);
        nodes
    }

    /// A route of `node_count` distinct pool nodes in random order; the count
    /// must be at least 2 and at most the pool size.
    pub fn route(&self, node_count: usize) -> (result: Result<RoutePlan, RouteError>)
        ensures
            (MIN_POOL_NODES <= node_count <= self@.len()) <==> result is Ok,
            result matches Err(e) ==> e == RouteError::InvalidRouteLength,
            result matches Ok(plan) ==> exists|order: Seq<Seq<u8>>|
                order.to_multiset() == self@.to_multiset() && plan@ == order.take(node_count as int),
    {
        proof {
            use_type_invariant(self);
        }
        if node_count < MIN_POOL_NODES || node_count > self.nodes.len() {
            return Err(RouteError::InvalidRouteLength);
        }
        let mut nodes = self.node_list();
        let ghost before = nodes@;
        shuffle(&mut nodes);
        let ghost order = node_views(nodes@);
        proof {
            lemma_permutation_map(nodes@, before, |node: NodeId| node@);
            crate::seqs::lemma_permutation_no_duplicates(order, self@);
            crate::seqs::lemma_permutation_len(order, self@);
        }
        nodes.truncate(node_count);
        assert(node_views(nodes@) =~= order.take(node_count as int));
        assert(order.take(node_count as int).no_duplicates()) by {
            assert forall|a: int, b: int| 0 <= a < b < node_count implies order.take(node_count as int)[a] != order.take(node_count as int)[b] by {
                assert(order[a] != order[b]);
            }
        }
        RoutePlan::new(nodes)
    }

    /// One target node per fragment: the pool is walked in shuffled passes, so
    /// with at least as many nodes as fragments every fragment gets a different
    /// node, and otherwise nodes are reused only after a full pass.
    pub fn targets_for_fragments(&self, fragment_count: usize) -> (result: Result<Vec<NodeId>, RouteError>)
        ensures
            fragment_count == 0 <==> result is Err,
            result matches Err(e) ==> e == RouteError::InvalidFragmentCount,
            result matches Ok(targets) ==> {
                &&& targets@.len() == fragment_count
                &&& spread_in_rounds(node_views(targets@), self@, (fragment_count as int / self@.len() as int) as nat)
            },
    {
        proof {
            use_type_invariant(self);
        }
        if fragment_count == 0 {
            return Err(RouteError::InvalidFragmentCount);
        }
        let ghost pool = self@;
        let width = self.nodes.len();
        let mut targets: Vec<NodeId> = Vec::with_capacity(fragment_count);
        let mut round = self.node_list();
        let ghost mut rounds: nat = 0;
        assert(node_views(round@) == pool);
        while targets.len() < fragment_count
            invariant
                pool == self@,
                valid_node_set(pool),
                width == pool.len(),
                node_views(round@).to_multiset() == pool.to_multiset(),
                targets@.len() <= fragment_count,
                targets@.len() < fragment_count ==> targets@.len() == rounds * width,
                spread_in_rounds(node_views(targets@), pool, rounds),
            decreases fragment_count - targets@.len(),
        {
            let ghost before_round = round@;
            shuffle(&mut round);
            proof {
                lemma_permutation_map(round@, before_round, |node: NodeId| node@);
                crate::seqs::lemma_permutation_len(node_views(round@), pool);
            }
            let remaining = fragment_count - targets.len();
            let take = if remaining < round.len() { remaining } else { round.len() };
            let ghost before = node_views(targets@);
            let mut k: usize = 0;
            while k < take
                invariant
                    take <= round@.len(),
                    k <= take,
                    node_views(round@).len() == round@.len(),
                    node_views(targets@) =~= before + node_views(round@).take(k as int),
                decreases take - k,
            {
                let ghost pushed_before = targets@;
                targets.push(round[k]);
                assert(node_views(targets@) =~= node_views(pushed_before).push(round@[k as int]@));
                k = k + 1;
                assert(node_views(round@).take(k as int) =~= node_views(round@).take(k as int - 1).push(round@[k as int - 1]@));
            }
            proof {
                let shuffled = node_views(round@);
                crate::seqs::lemma_permutation_no_duplicates(shuffled, pool);
                let after = node_views(targets@);
                if take == width {
                    assert(after.subrange((rounds * width) as int, (rounds * width + width) as int) =~= shuffled);
                    assert forall|b: int| 0 <= b < rounds + 1 implies (#[trigger] after.subrange(b * width, b * width + width)).to_multiset()
                        == pool.to_multiset() by {
                        if b < rounds {
                            assert(b * width + width <= rounds * width) by (nonlinear_arith)
                                requires
                                    b < rounds,
                            ;
                            assert(after.subrange(b * width, b * width + width) =~= before.subrange(b * width, b * width + width));
                        } else {
                            assert(b * width == rounds * width);
                        }
                    }
                    rounds = rounds + 1;
                    assert((rounds * width) == (rounds - 1) * width + width) by (nonlinear_arith);
                    assert(after.len() == rounds * width);
                    assert(after.skip((rounds * width) as int) =~= Seq::<Seq<u8>>::empty());
                } else {
                    assert(after.skip((rounds * width) as int) =~= shuffled.take(take as int));
                    assert forall|i: int| rounds * width <= i < after.len() implies pool.contains(#[trigger] after[i]) by {
                        assert(after[i] == shuffled[i - rounds * width]);
                        lemma_permutation_contains(shuffled, pool, after[i]);
                    }
                    assert forall|b: int| 0 <= b < rounds implies (#[trigger] after.subrange(b * width, b * width + width)).to_multiset()
                        == pool.to_multiset() by {
                        assert(b * width + width <= rounds * width) by (nonlinear_arith)
                            requires
                                b < rounds,
                        ;
                        assert(after.subrange(b * width, b * width + width) =~= before.subrange(b * width, b * width + width));
                    }
                }
            }
        }
        proof {
            let t = node_views(targets@);
            assert(fragment_count == rounds * width + (fragment_count - rounds * width));
            vstd::arithmetic::div_mod::lemma_fundamental_div_mod_converse(
                fragment_count as int, width as int, rounds as int, fragment_count - rounds * width,
            );
        }
        Ok(targets)
    }
}

/// In `rounds` full passes and a partial pass, every pool node is a target
/// exactly `rounds` times, plus once if the partial pass reached it: targets are
/// spread as evenly as the count allows.
pub proof fn lemma_spread_is_balanced(targets: Seq<Seq<u8>>, pool: Seq<Seq<u8>>, rounds: nat, node: Seq<u8>)
    requires
        spread_in_rounds(targets, pool, rounds),
        pool.no_duplicates(),
        pool.contains(node),
    ensures
        targets.to_multiset().count(node) == rounds + if targets.skip((rounds * pool.len()) as int).contains(node) {
            1nat
        } else {
            0nat
        },
        rounds <= targets.to_multiset().count(node) <= rounds + 1,
{
    let width = pool.len();
    pool.lemma_multiset_has_no_duplicates();
    pool.to_multiset_ensures();
    assert(pool.to_multiset().count(node) == 1);
    lemma_rounds_count(targets, pool, rounds, node, rounds);
    let head = targets.take((rounds * width) as int);
    let tail = targets.skip((rounds * width) as int);
    assert(targets =~= head + tail);
    vstd::seq_lib::lemma_multiset_commutative(head, tail);
    tail.to_multiset_ensures();
    if tail.contains(node) {
        tail.lemma_multiset_has_no_duplicates();
    }
}

/// The first `k` full passes name each pool node `k` times.
proof fn lemma_rounds_count(targets: Seq<Seq<u8>>, pool: Seq<Seq<u8>>, rounds: nat, node: Seq<u8>, k: nat)
    requires
        spread_in_rounds(targets, pool, rounds),
        pool.to_multiset().count(node) == 1,
        k <= rounds,
    ensures
        targets.take((k * pool.len()) as int).to_multiset().count(node) == k,
    decreases k,
{
    let width = pool.len();
    if k == 0 {
        assert(targets.take(0) =~= Seq::<Seq<u8>>::empty());
        Seq::<Seq<u8>>::empty().to_multiset_ensures();
    } else {
        let m = (k - 1) as nat;
        lemma_rounds_count(targets, pool, rounds, node, m);
        assert(k * width == m * width + width) by (nonlinear_arith)
            requires
                k == m + 1,
        ;
        assert(k * width <= rounds * width) by (nonlinear_arith)
            requires
                k <= rounds,
        ;
        let previous = targets.take((m * width) as int);
        let pass = targets.subrange((m * width) as int, (m * width + width) as int);
        assert(pass.to_multiset() == pool.to_multiset());
        assert(targets.take((k * width) as int) =~= previous + pass);
        vstd::seq_lib::lemma_multiset_commutative(previous, pass);
    }
}

/// With at least as many pool nodes as targets, every target is a different
/// node.
pub proof fn lemma_spread_is_distinct_on_large_pool(targets: Seq<Seq<u8>>, pool: Seq<Seq<u8>>, rounds: nat)
    requires
        spread_in_rounds(targets, pool, rounds),
        pool.no_duplicates(),
        targets.len() <= pool.len(),
    ensures
        targets.no_duplicates(),
{
    let width = pool.len();
    if rounds == 0 {
        assert(rounds * width == 0);
        assert(targets.skip(0) =~= targets);
    } else {
        assert(rounds * width >= width) by (nonlinear_arith)
            requires
                rounds >= 1,
        ;
        assert(rounds == 1) by (nonlinear_arith)
            requires
                rounds * width <= targets.len(),
                targets.len() <= width,
                width > 0,
                rounds >= 1,
        ;
        let b: int = 0;
        assert(targets.subrange(b * width, b * width + width).to_multiset() == pool.to_multiset());
        assert(targets.subrange(b * width, b * width + width) =~= targets);
        crate::seqs::lemma_permutation_no_duplicates(targets, pool);
    }
}

/// A padded traffic size class for small envelopes.
#[derive(Debug, Clone, Copy, PartialEq, Eq, Structural)]
pub enum TrafficSizeClass {
    KiB4,
    KiB16,
    KiB64,
    KiB256,
}

/// The size in bytes of a traffic class.
pub open spec fn class_bytes(class: TrafficSizeClass) -> nat {
    match class {
        TrafficSizeClass::KiB4 => 4 * 1024,
        TrafficSizeClass::KiB16 => 16 * 1024,
        TrafficSizeClass::KiB64 => 64 * 1024,
        TrafficSizeClass::KiB256 => 256 * 1024,
    }
}

/// The smallest class that holds `payload_len` bytes, if any does.
pub open spec fn smallest_class(payload_len: nat) -> Option<TrafficSizeClass> {
    if payload_len <= class_bytes(TrafficSizeClass::KiB4) {
        Some(TrafficSizeClass::KiB4)
    } else if payload_len <= class_bytes(TrafficSizeClass::KiB16) {
        Some(TrafficSizeClass::KiB16)
    } else if payload_len <= class_bytes(TrafficSizeClass::KiB64) {
        Some(TrafficSizeClass::KiB64)
    } else if payload_len <= class_bytes(TrafficSizeClass::KiB256) {
        Some(TrafficSizeClass::KiB256)
    } else {
        None
    }
}

impl TrafficSizeClass {
    /// The class's size in bytes.
    pub fn bytes(self) -> (size: usize)
        ensures
            size == class_bytes(self),
    {
        match self {
            TrafficSizeClass::KiB4 => 4 * 1024,
            TrafficSizeClass::KiB16 => 16 * 1024,
            TrafficSizeClass::KiB64 => 64 * 1024,
            TrafficSizeClass::KiB256 => 256 * 1024,
        }
    }

    /// The smallest class whose size is at least `payload_len`, or nothing for
    /// payloads over 256 KiB.
    pub fn smallest_for(payload_len: usize) -> (class: Option<Self>)
        ensures
            class == smallest_class(payload_len as nat),
    {
        if payload_len <= TrafficSizeClass::KiB4.bytes() {
            Some(TrafficSizeClass::KiB4)
        } else if payload_len <= TrafficSizeClass::KiB16.bytes() {
            Some(TrafficSizeClass::KiB16)
        } else if payload_len <= TrafficSizeClass::KiB64.bytes() {
            Some(TrafficSizeClass::KiB64)
        } else if payload_len <= TrafficSizeClass::KiB256.bytes() {
            Some(TrafficSizeClass::KiB256)
        } else {
            None
        }
    }
}

/// The chosen class holds the payload, and no smaller class would.
pub proof fn lemma_smallest_class_fits(payload_len: nat)
    ensures
        smallest_class(payload_len) matches Some(class) ==> {
            &&& payload_len <= class_bytes(class)
            &&& forall|other: TrafficSizeClass| #[trigger] class_bytes(other) < class_bytes(class) ==> payload_len > class_bytes(other)
        },
        smallest_class(payload_len) is None <==> payload_len > class_bytes(TrafficSizeClass::KiB256),
{
}

/// A privacy/latency trade-off.
#[derive(Debug, Clone, Copy, PartialEq, Eq, Structural)]
pub enum PrivacyMode {
    Standard,
    Private,
    Maximum,
}

impl Default for PrivacyMode {
    /// `Maximum` is the default.
    fn default() -> (mode: Self)
        ensures
            mode == PrivacyMode::Maximum,
    {
        PrivacyMode::Maximum
    }
}

/// The protections a privacy mode targets.
#[derive(Debug, Clone, Copy, PartialEq, Eq, Structural)]
pub struct PrivacyPolicy {
    pub rotate_delivery_tokens_per_message: bool,
    pub pad_to_size_class: bool,
    pub route_rotation: bool,
    pub batching_target: bool,
    pub bounded_delay_target: bool,
}

/// The policy of a mode: every mode rotates delivery tokens; `Private` and
/// `Maximum` add size-class padding and route rotation; `Maximum` adds batching
/// and bounded delay.
pub open spec fn spec_policy(mode: PrivacyMode) -> PrivacyPolicy {
    PrivacyPolicy {
        rotate_delivery_tokens_per_message: true,
        pad_to_size_class: mode != PrivacyMode::Standard,
        route_rotation: mode != PrivacyMode::Standard,
        batching_target: mode == PrivacyMode::Maximum,
        bounded_delay_target: mode == PrivacyMode::Maximum,
    }
}

impl PrivacyMode {
    /// The protections this mode targets.
    pub fn policy(self) -> (policy: PrivacyPolicy)
        ensures
            policy == spec_policy(self),
    {
        match self {
            PrivacyMode::Standard => PrivacyPolicy {
                rotate_delivery_tokens_per_message: true,
                pad_to_size_class: false,
                route_rotation: false,
                batching_target: false,
                bounded_delay_target: false,
            },
            PrivacyMode::Private => PrivacyPolicy {
                rotate_delivery_tokens_per_message: true,
                pad_to_size_class: true,
                route_rotation: true,
                batching_target: false,
                bounded_delay_target: false,
            },
            PrivacyMode::Maximum => PrivacyPolicy {
                rotate_delivery_tokens_per_message: true,
                pad_to_size_class: true,
                route_rotation: true,
                batching_target: true,
                bounded_delay_target: true,
            },
        }
    }
}

/// Each stronger mode keeps every protection of the weaker ones, and the
/// default `Maximum` mode enables them all.
pub proof fn lemma_modes_are_ordered(mode: PrivacyMode)
    ensures
        spec_policy(mode).rotate_delivery_tokens_per_message,
        spec_policy(PrivacyMode::Private).pad_to_size_class && spec_policy(PrivacyMode::Private).route_rotation,
        ({
            let max = spec_policy(PrivacyMode::Maximum);
            max.rotate_delivery_tokens_per_message && max.pad_to_size_class && max.route_rotation
                && max.batching_target && max.bounded_delay_target
        }),
        spec_policy(mode).pad_to_size_class ==> spec_policy(PrivacyMode::Maximum).pad_to_size_class,
        spec_policy(mode).route_rotation ==> spec_policy(PrivacyMode::Maximum).route_rotation,
{
}

} // verus!
