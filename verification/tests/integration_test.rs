use volo_loadbalance::error::LoadBalanceError;
use volo_loadbalance::node::{Endpoint, Node};
use volo_loadbalance::strategy::{
    BaseBalancer, ConsistentHash, LeastConnection, PowerOfTwoChoices, RequestMetadata,
    ResponseTimeWeighted, RoundRobin, WeightedRandom, WeightedRoundRobin,
};

// Create a collection of nodes for integration testing
fn create_integration_nodes() -> Vec<Node> {
    vec![
        Node::new(
            Endpoint {
                id: 1,
                address: "server1:8080".to_string(),
            },
            10,
        ),
        Node::new(
            Endpoint {
                id: 2,
                address: "server2:8080".to_string(),
            },
            20,
        ),
        Node::new(
            Endpoint {
                id: 3,
                address: "server3:8080".to_string(),
            },
            30,
        ),
        Node::new(
            Endpoint {
                id: 4,
                address: "server4:8080".to_string(),
            },
            40,
        ),
    ]
}

#[test]
fn test_multiple_strategies_same_nodes() {
    // Test how different strategies handle the same set of nodes
    let req = RequestMetadata { hash_key: None };

    let mut rr_balancer = BaseBalancer::new(RoundRobin);
    rr_balancer.update_nodes(create_integration_nodes());
    let mut rr_picker = rr_balancer.picker();
    let result = rr_picker.pick(&req);
    assert!(result.is_ok());
    let node = result.unwrap();
    assert!(node.endpoint.id >= 1 && node.endpoint.id <= 4);

    let mut wrr_balancer = BaseBalancer::new(WeightedRoundRobin);
    wrr_balancer.update_nodes(create_integration_nodes());
    let mut wrr_picker = wrr_balancer.picker();
    let result = wrr_picker.pick(&req);
    assert!(result.is_ok());
    let node = result.unwrap();
    assert!(node.endpoint.id >= 1 && node.endpoint.id <= 4);

    let mut p2c_balancer = BaseBalancer::new(PowerOfTwoChoices);
    p2c_balancer.update_nodes(create_integration_nodes());
    let mut p2c_picker = p2c_balancer.picker();
    let result = p2c_picker.pick(&req);
    assert!(result.is_ok());
    let node = result.unwrap();
    assert!(node.endpoint.id >= 1 && node.endpoint.id <= 4);
}

#[test]
fn test_base_balancer_strategy_switching() {
    let nodes = create_integration_nodes();

    // Test that BaseBalancer can switch between different strategies
    let mut rr_balancer = BaseBalancer::new(RoundRobin);
    rr_balancer.update_nodes(nodes.clone());

    let mut wrr_balancer = BaseBalancer::new(WeightedRoundRobin);
    wrr_balancer.update_nodes(nodes.clone());

    let req = RequestMetadata { hash_key: None };

    // Test the round-robin strategy
    let mut rr_picker = rr_balancer.picker();
    let rr_node1 = rr_picker.pick(&req).unwrap();
    let rr_node2 = rr_picker.pick(&req).unwrap();

    // Test the weighted round-robin strategy
    let mut wrr_picker = wrr_balancer.picker();
    let wrr_node1 = wrr_picker.pick(&req).unwrap();
    let wrr_node2 = wrr_picker.pick(&req).unwrap();

    // Verify both strategies work correctly
    assert!(rr_node1.endpoint.id >= 1 && rr_node1.endpoint.id <= 4);
    assert!(rr_node2.endpoint.id >= 1 && rr_node2.endpoint.id <= 4);
    assert!(wrr_node1.endpoint.id >= 1 && wrr_node1.endpoint.id <= 4);
    assert!(wrr_node2.endpoint.id >= 1 && wrr_node2.endpoint.id <= 4);
}

#[test]
fn test_node_state_tracking() {
    let nodes = create_integration_nodes();
    let mut balancer = BaseBalancer::new(LeastConnection);
    balancer.update_nodes(nodes.clone());

    let req = RequestMetadata { hash_key: None };
    let mut picker = balancer.picker();

    // Initially, all nodes have 0 connections
    let _initial_node = picker.pick(&req).unwrap();

    // Increase the connection count of a node
    nodes[1]
        .in_flight
        .fetch_add(5, std::sync::atomic::Ordering::Relaxed);

    // Now select the node with the least connections
    let next_node = picker.pick(&req).unwrap();

    // Verify the selection logic is correct (should not select the loaded node)
    assert!(next_node.endpoint.id != 2);
}

#[test]
fn test_response_time_optimization() {
    let nodes = create_integration_nodes();
    let mut balancer = BaseBalancer::new(ResponseTimeWeighted);
    balancer.update_nodes(nodes.clone());

    let req = RequestMetadata { hash_key: None };
    let mut picker = balancer.picker();

    // Set different response times
    nodes[0]
        .last_rtt_ns
        .store(100_000_000, std::sync::atomic::Ordering::Relaxed); // 100ms
    nodes[1]
        .last_rtt_ns
        .store(50_000_000, std::sync::atomic::Ordering::Relaxed); // 50ms
    nodes[2]
        .last_rtt_ns
        .store(10_000_000, std::sync::atomic::Ordering::Relaxed); // 10ms
    nodes[3]
        .last_rtt_ns
        .store(200_000_000, std::sync::atomic::Ordering::Relaxed); // 200ms

    // Select multiple times to verify a preference for nodes with shorter response times
    let mut fast_node_selections = 0;
    let total_selections = 100;

    for _ in 0..total_selections {
        let node = picker.pick(&req).unwrap();
        if node.endpoint.id == 3 {
            // node 3 has the shortest response time
            fast_node_selections += 1;
        }
    }

    // Nodes with the shortest response times should be selected more frequently
    assert!(fast_node_selections > total_selections / 4);
}

#[test]
fn test_consistent_hash_session_affinity() {
    let nodes = create_integration_nodes();
    let mut balancer = BaseBalancer::new(ConsistentHash::default());
    balancer.update_nodes(nodes.clone());

    let mut picker = balancer.picker();

    // Test session stickiness: the same hash key should return the same node
    let hash_key = 12345;
    let req1 = RequestMetadata {
        hash_key: Some(hash_key),
    };
    let req2 = RequestMetadata {
        hash_key: Some(hash_key),
    };
    let req3 = RequestMetadata {
        hash_key: Some(hash_key),
    };

    let node1 = picker.pick(&req1).unwrap();
    let node2 = picker.pick(&req2).unwrap();
    let node3 = picker.pick(&req3).unwrap();

    assert_eq!(node1.endpoint.id, node2.endpoint.id);
    assert_eq!(node2.endpoint.id, node3.endpoint.id);

    // Different hash keys may return different nodes
    let req_diff = RequestMetadata {
        hash_key: Some(67890),
    };
    let _node_diff = picker.pick(&req_diff).unwrap();
    // Note: Different hash keys may return the same node, which is a normal hash collision
}

#[test]
fn test_error_handling_integration() {
    let mut balancer = BaseBalancer::new(RoundRobin);

    // Test error handling for an empty node list
    balancer.update_nodes(Vec::new());
    let mut picker = balancer.picker();
    let req = RequestMetadata { hash_key: None };

    let result = picker.pick(&req);
    assert!(matches!(result, Err(LoadBalanceError::NoAvailableNodes)));

    // Test the error when a hash key is missing for consistent hashing
    let mut ch_balancer = BaseBalancer::new(ConsistentHash::default());
    ch_balancer.update_nodes(create_integration_nodes());
    let mut ch_picker = ch_balancer.picker();

    let req_no_key = RequestMetadata { hash_key: None };
    let ch_result = ch_picker.pick(&req_no_key);
    assert!(matches!(ch_result, Err(LoadBalanceError::MissingHashKey)));
}

fn checked_picker(
    name: &str,
    mut picker: volo_loadbalance::strategy::Picker,
    req: &RequestMetadata,
) {
    // Test 1000 selections to verify no panic and valid results
    for _ in 0..1000 {
        let result = picker.pick(req);
        assert!(result.is_ok(), "Strategy {} failed", name);
        let node = result.unwrap();
        assert!(node.endpoint.id >= 1 && node.endpoint.id <= 4);
    }
}

#[test]
fn test_performance_characteristics() {
    let nodes = create_integration_nodes();

    // Test the performance characteristics of various strategies (primarily functional correctness)
    let req = RequestMetadata { hash_key: None };

    let mut balancer_rr = BaseBalancer::new(RoundRobin);
    balancer_rr.update_nodes(nodes.clone());
    checked_picker("RoundRobin", balancer_rr.picker(), &req);

    let mut balancer_wrr = BaseBalancer::new(WeightedRoundRobin);
    balancer_wrr.update_nodes(nodes.clone());
    checked_picker("WeightedRoundRobin", balancer_wrr.picker(), &req);

    let mut balancer_p2c = BaseBalancer::new(PowerOfTwoChoices);
    balancer_p2c.update_nodes(nodes.clone());
    checked_picker("PowerOfTwoChoices", balancer_p2c.picker(), &req);

    let mut balancer_wr = BaseBalancer::new(WeightedRandom);
    balancer_wr.update_nodes(nodes.clone());
    checked_picker("WeightedRandom", balancer_wr.picker(), &req);

    let mut balancer_lc = BaseBalancer::new(LeastConnection);
    balancer_lc.update_nodes(nodes.clone());
    checked_picker("LeastConnection", balancer_lc.picker(), &req);

    let mut balancer_rtw = BaseBalancer::new(ResponseTimeWeighted);
    balancer_rtw.update_nodes(nodes.clone());
    checked_picker("ResponseTimeWeighted", balancer_rtw.picker(), &req);

    // Test consistent hashing (requires a hash key)
    let mut ch_balancer = BaseBalancer::new(ConsistentHash::default());
    ch_balancer.update_nodes(nodes.clone());
    let mut ch_picker = ch_balancer.picker();
    let ch_req = RequestMetadata { hash_key: Some(42) };
    for _ in 0..1000 {
        let result = ch_picker.pick(&ch_req);
        assert!(result.is_ok());
        let node = result.unwrap();
        assert!(node.endpoint.id >= 1 && node.endpoint.id <= 4);
    }
}
