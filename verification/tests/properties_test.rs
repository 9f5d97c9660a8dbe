use std::collections::HashMap;

use volo_loadbalance::adapter::volo_adapter::{
    instance_node_id, instances_signature, round_robin, ChangeInfo, EndpointInfo, InstanceInfo,
};
use volo_loadbalance::hashing::{hash64, point_hash};
use volo_loadbalance::node::{Endpoint, Node};
use volo_loadbalance::random::random_index;
use volo_loadbalance::strategy::{
    BalanceStrategy, ConsistentHash, RequestMetadata, RoundRobin, WeightedRandom,
    WeightedRoundRobin,
};

fn named_nodes(specs: &[(u64, u32)]) -> Vec<Node> {
    specs
        .iter()
        .map(|(id, weight)| {
            Node::new(
                Endpoint {
                    id: *id,
                    address: format!("10.0.0.{}:80", id),
                },
                *weight,
            )
        })
        .collect()
}

#[test]
fn round_robin_three_node_cycle() {
    let nodes = named_nodes(&[(1, 1), (2, 1), (3, 1)]);
    let mut picker = RoundRobin.build_picker(nodes);
    let req = RequestMetadata { hash_key: None };
    let mut seen = Vec::new();
    for _ in 0..6 {
        seen.push(picker.pick(&req).unwrap().endpoint.id);
    }
    assert_eq!(seen, vec![1, 2, 3, 1, 2, 3]);
}

#[test]
fn weighted_round_robin_exact_period() {
    let nodes = named_nodes(&[(1, 3), (2, 2), (3, 1)]);
    let mut picker = WeightedRoundRobin.build_picker(nodes);
    let req = RequestMetadata { hash_key: None };
    let mut counts: HashMap<u64, u32> = HashMap::new();
    for _ in 0..6 {
        *counts
            .entry(picker.pick(&req).unwrap().endpoint.id)
            .or_insert(0) += 1;
    }
    assert_eq!(counts.get(&1), Some(&3));
    assert_eq!(counts.get(&2), Some(&2));
    assert_eq!(counts.get(&3), Some(&1));
}

#[test]
fn weighted_round_robin_interleaves() {
    let nodes = named_nodes(&[(1, 3), (2, 2), (3, 1)]);
    let mut picker = WeightedRoundRobin.build_picker(nodes);
    let req = RequestMetadata { hash_key: None };
    // over ten full periods, no node runs longer than its weight share
    let mut last: u64 = 0;
    let mut run: u32 = 0;
    for _ in 0..60 {
        let id = picker.pick(&req).unwrap().endpoint.id;
        if id == last {
            run += 1;
        } else {
            last = id;
            run = 1;
        }
        let bound = match id {
            1 => 3,
            2 => 2,
            _ => 1,
        };
        assert!(run <= bound);
    }
}

#[test]
fn weighted_round_robin_all_zero_degrades_to_round_robin() {
    let nodes = named_nodes(&[(1, 0), (2, 0), (3, 0)]);
    let mut picker = WeightedRoundRobin.build_picker(nodes);
    let req = RequestMetadata { hash_key: None };
    let mut seen = Vec::new();
    for _ in 0..4 {
        seen.push(picker.pick(&req).unwrap().endpoint.id);
    }
    assert_eq!(seen, vec![1, 2, 3, 1]);
}

#[test]
fn weighted_random_never_picks_zero_weight_node() {
    let nodes = named_nodes(&[(1, 0), (2, 5)]);
    let mut picker = WeightedRandom.build_picker(nodes);
    let req = RequestMetadata { hash_key: None };
    for _ in 0..200 {
        let node = picker.pick(&req).unwrap();
        assert_eq!(node.endpoint.id, 2);
    }
}

#[test]
fn weighted_random_all_zero_still_serves() {
    let nodes = named_nodes(&[(1, 0), (2, 0)]);
    let mut picker = WeightedRandom.build_picker(nodes);
    let req = RequestMetadata { hash_key: None };
    for _ in 0..50 {
        assert!(picker.pick(&req).is_ok());
    }
}

#[test]
fn consistent_hash_session_affinity_many_picks() {
    let nodes = named_nodes(&[(1, 1), (2, 1), (3, 1)]);
    let mut picker = ConsistentHash {
        virtual_factor: 160,
    }
    .build_picker(nodes);
    for key in [123456789u64, 987654321u64, 555555555u64] {
        let req = RequestMetadata {
            hash_key: Some(key),
        };
        let first = picker.pick(&req).unwrap().endpoint.id;
        for _ in 0..99 {
            assert_eq!(picker.pick(&req).unwrap().endpoint.id, first);
        }
    }
}

#[test]
fn consistent_hash_minimal_disruption() {
    let three = named_nodes(&[(1, 1), (2, 1), (3, 1)]);
    let two = named_nodes(&[(1, 1), (2, 1)]);
    let mut picker3 = ConsistentHash {
        virtual_factor: 160,
    }
    .build_picker(three);
    let mut picker2 = ConsistentHash {
        virtual_factor: 160,
    }
    .build_picker(two);

    let total = 10_000u64;
    let mut moved = 0u64;
    for key in 0..total {
        let req = RequestMetadata { hash_key: Some(key) };
        let before = picker3.pick(&req).unwrap().endpoint.id;
        let after = picker2.pick(&req).unwrap().endpoint.id;
        if before != after {
            moved += 1;
        }
        // keys that were not on the removed node must stay put
        if before != 3 {
            assert_eq!(before, after);
        }
    }
    let fraction = moved as f64 / total as f64;
    assert!(fraction > 1.0 / 3.0 - 0.05 && fraction < 1.0 / 3.0 + 0.05);
}

#[test]
fn adapter_cache_and_invalidation() {
    let mut lb = round_robin();
    let ep = EndpointInfo {
        service_name: "svc".to_string(),
        address: None,
        tags: Vec::new(),
    };
    let key = "cluster".to_string();
    let set1 = vec![
        InstanceInfo {
            address: "10.0.0.1:80".to_string(),
            weight: 1,
            tags: Vec::new(),
        },
        InstanceInfo {
            address: "10.0.0.2:80".to_string(),
            weight: 1,
            tags: Vec::new(),
        },
    ];
    let ck = lb.cache_key(&ep, &key);

    let g1 = lb.get_picker(&ep, &key, &set1).unwrap();
    let g1_again = lb.get_picker(&ep, &key, &set1).unwrap();
    // an identical call serves the very same picker build
    assert_eq!(g1, g1_again);

    // the cached round-robin cursor survives cache hits
    let req = RequestMetadata { hash_key: None };
    let first = lb.pick_from(ck, &req).unwrap();
    assert_eq!(first.endpoint.address, "10.0.0.1:80");
    // mark the first backend with live state
    first
        .in_flight
        .fetch_add(7, std::sync::atomic::Ordering::Relaxed);

    // a change event invalidates the cached picker for this discovery key
    let set2 = vec![
        InstanceInfo {
            address: "10.0.0.1:80".to_string(),
            weight: 1,
            tags: Vec::new(),
        },
        InstanceInfo {
            address: "10.0.0.2:80".to_string(),
            weight: 9,
            tags: Vec::new(),
        },
    ];
    lb.rebalance(&ChangeInfo {
        key: key.clone(),
        all: set2.clone(),
    });
    assert!(lb.lookup_picker(ck).is_none());

    let g2 = lb.get_picker(&ep, &key, &set2).unwrap();
    assert_ne!(g1, g2);

    // the unchanged backend keeps its identity and counters across the rebuild
    let kept = lb.pick_from(ck, &req).unwrap();
    assert_eq!(kept.endpoint.address, "10.0.0.1:80");
    assert_eq!(kept.endpoint.id, first.endpoint.id);
    assert_eq!(
        kept.in_flight.load(std::sync::atomic::Ordering::Relaxed),
        7
    );
    // the changed backend starts over
    let changed = lb.pick_from(ck, &req).unwrap();
    assert_eq!(changed.endpoint.address, "10.0.0.2:80");
    assert_eq!(changed.weight, 9);
    assert_eq!(
        changed.in_flight.load(std::sync::atomic::Ordering::Relaxed),
        0
    );
}

#[test]
fn adapter_rebuilds_on_changed_signature() {
    let mut lb = round_robin();
    let ep = EndpointInfo {
        service_name: "svc".to_string(),
        address: None,
        tags: Vec::new(),
    };
    let key = "cluster".to_string();
    let set1 = vec![InstanceInfo {
        address: "10.0.0.1:80".to_string(),
        weight: 1,
        tags: Vec::new(),
    }];
    let set2 = vec![InstanceInfo {
        address: "10.0.0.1:80".to_string(),
        weight: 2,
        tags: Vec::new(),
    }];
    let g1 = lb.get_picker(&ep, &key, &set1).unwrap();
    // same set: cache hit, same build
    assert_eq!(lb.get_picker(&ep, &key, &set1).unwrap(), g1);
    // changed set: the stale picker is replaced even without a change event
    let g2 = lb.get_picker(&ep, &key, &set2).unwrap();
    assert_ne!(g1, g2);
    // and the new set is served from the cache afterwards
    assert_eq!(lb.get_picker(&ep, &key, &set2).unwrap(), g2);
}

#[test]
fn hash_wrappers_are_deterministic_and_discriminating() {
    assert_eq!(hash64(1), hash64(1));
    assert_ne!(hash64(1), hash64(2));
    assert_eq!(point_hash(3, 4), point_hash(3, 4));
    assert_ne!(point_hash(1, 2), point_hash(2, 1));

    let a1 = instance_node_id(&"10.0.0.1:80".to_string(), &Vec::new());
    let a2 = instance_node_id(&"10.0.0.1:80".to_string(), &Vec::new());
    let b = instance_node_id(&"10.0.0.2:80".to_string(), &Vec::new());
    let tagged = instance_node_id(
        &"10.0.0.1:80".to_string(),
        &vec![("zone".to_string(), "east".to_string())],
    );
    assert_eq!(a1, a2);
    assert_ne!(a1, b);
    assert_ne!(a1, tagged);

    let set_a = vec![InstanceInfo {
        address: "10.0.0.1:80".to_string(),
        weight: 1,
        tags: Vec::new(),
    }];
    let set_b = vec![InstanceInfo {
        address: "10.0.0.1:80".to_string(),
        weight: 2,
        tags: Vec::new(),
    }];
    assert_eq!(instances_signature(&set_a), instances_signature(&set_a));
    assert_ne!(instances_signature(&set_a), instances_signature(&set_b));
}

#[test]
fn random_index_stays_in_range_and_varies() {
    let mut seen = [false; 10];
    for _ in 0..200 {
        let i = random_index(10);
        assert!(i < 10);
        seen[i] = true;
    }
    let distinct = seen.iter().filter(|b| **b).count();
    assert!(distinct >= 2);
}
