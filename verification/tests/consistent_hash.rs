use std::collections::hash_map::DefaultHasher;
use std::hash::{Hash, Hasher};

use rsbalancer::consistent_hash::ConsistentHashing;
use rsbalancer::Node;

#[test]
fn get() {
    let balancer = ConsistentHashing::new(
        vec![
            Node::new_with_default_weight("1".to_string()),
            Node::new_with_default_weight("2".to_string()),
            Node::new_with_default_weight("3".to_string()),
        ],
        10,
    );
    assert_eq!(balancer.get_nodes().len(), 3);
    assert!(balancer.get_node(&"1".to_string()).is_some());
    assert!(balancer.get_node(&"4".to_string()).is_none());
}

#[test]
fn remove() {
    let mut balancer = ConsistentHashing::new(
        vec![
            Node::new_with_default_weight("1".to_string()),
            Node::new_with_default_weight("2".to_string()),
            Node::new_with_default_weight("3".to_string()),
        ],
        10,
    );
    balancer.remove_node(&"1".to_string()).unwrap();
    assert!(balancer.get_node(&"1".to_string()).is_none());
    assert!(balancer.get_node(&"2".to_string()).is_some());
}

#[test]
fn consistent_hash_simple() {
    let mut balancer = ConsistentHashing::new(
        vec![
            Node::new_with_default_weight("1".to_string()),
            Node::new_with_default_weight("2".to_string()),
            Node::new_with_default_weight("3".to_string()),
        ],
        10,
    );
    let ip = vec!["123", "234", "122"];
    let mut nodes = Vec::with_capacity(3);
    for item in &ip {
        let result = balancer.get_matching_node(item.to_string()).unwrap();
        println!("ip result: {}", result.get_id());
        for _ in 0..10 {
            assert_eq!(
                result.get_id(),
                balancer.get_matching_node(item.to_string()).unwrap().get_id()
            );
        }
        nodes.push(result.get_id().clone());
    }

    balancer.remove_node(&nodes.first().unwrap()).unwrap();
    assert_eq!(2, balancer.get_nodes().len());

    let balancer = balancer;
    let first_ip = ip.first().unwrap();
    let node = balancer.get_matching_node(first_ip.to_string()).unwrap();
    assert_ne!(*node.get_id(), nodes.first().unwrap().clone());
}

fn std_hash(text: &str) -> u64 {
    let mut hasher = DefaultHasher::new();
    text.to_string().hash(&mut hasher);
    hasher.finish()
}

fn ring_of(ids: &[(&str, usize)], replicas: usize) -> ConsistentHashing {
    ConsistentHashing::new(
        ids.iter().map(|(id, weight)| Node::new(id.to_string(), *weight).unwrap()).collect(),
        replicas,
    )
}

/// The places of a ring, worked out with std alone: hash value, then order of arrival.
fn expected_slots(ids: &[(&str, usize)], replicas: usize) -> Vec<(u64, usize, String)> {
    let mut slots = Vec::new();
    let mut arrival = 0;
    for (id, weight) in ids {
        let count = std::cmp::max(1, weight * replicas);
        for i in 0..count {
            let text = if i == 0 { id.to_string() } else { format!("{}-{}", id, i) };
            slots.push((std_hash(&text), arrival, id.to_string()));
            arrival += 1;
        }
    }
    slots.sort();
    slots
}

fn expected_owner(slots: &[(u64, usize, String)], key: &str) -> Option<String> {
    let h = std_hash(key);
    match slots.iter().find(|slot| slot.0 >= h) {
        Some(slot) => Some(slot.2.clone()),
        None => slots.first().map(|slot| slot.2.clone()),
    }
}

#[test]
fn consistent_hash_value_is_that_of_the_default_hasher() {
    let balancer = ring_of(&[], 1);
    for text in ["", "a", "1", "1-1", "some longer key"] {
        assert_eq!(balancer.hash(&text.to_string()), std_hash(text));
    }
    assert_ne!(balancer.hash(&"a".to_string()), balancer.hash(&"b".to_string()));
}

#[test]
fn consistent_hash_lookup_follows_the_ring() {
    let ids = [("1", 1), ("2", 1), ("3", 1)];
    let balancer = ring_of(&ids, 10);
    let slots = expected_slots(&ids, 10);
    let mut owners = std::collections::HashSet::new();
    for n in 0..500 {
        let key = format!("key-{}", n);
        let owner = balancer.get_matching_node_id(key.clone()).cloned();
        assert_eq!(owner, expected_owner(&slots, &key));
        owners.insert(owner.unwrap());
    }
    assert_eq!(owners.len(), 3);
}

#[test]
fn consistent_hash_weights_and_replicas_place_the_replicas() {
    let ids = [("alpha", 3), ("beta", 1), ("gamma", 2)];
    let balancer = ring_of(&ids, 7);
    let slots = expected_slots(&ids, 7);
    for n in 0..500 {
        let key = format!("{}", n);
        assert_eq!(balancer.get_matching_node_id(key.clone()).cloned(), expected_owner(&slots, &key));
    }
}

#[test]
fn consistent_hash_replica_count() {
    let balancer = ring_of(&[], 3);
    assert_eq!(balancer.replicas_of_node(&Node::new("a".to_string(), 2).unwrap()), 6);
    assert_eq!(balancer.replicas_of_node(&Node::new_with_default_weight("a".to_string())), 3);
    let none = ring_of(&[], 0);
    assert_eq!(none.replicas_of_node(&Node::new("a".to_string(), 5).unwrap()), 1);
    let huge = ring_of(&[], usize::MAX);
    assert_eq!(
        huge.replicas_of_node(&Node::new("a".to_string(), usize::MAX).unwrap()),
        (usize::MAX as u128) * (usize::MAX as u128)
    );
}

#[test]
fn consistent_hash_wraps_to_the_first_place() {
    let ids = [("only", 1), ("other", 1)];
    let balancer = ring_of(&ids, 1);
    let slots = expected_slots(&ids, 1);
    let largest = slots.last().unwrap().0;
    let mut wrapped = 0;
    for n in 0..200 {
        let key = format!("w{}", n);
        if std_hash(&key) > largest {
            wrapped += 1;
            assert_eq!(balancer.get_matching_node_id(key).unwrap(), &slots[0].2);
        }
    }
    assert!(wrapped > 0);
}

#[test]
fn consistent_hash_empty_ring_matches_nothing() {
    let mut balancer = ring_of(&[], 10);
    assert!(balancer.get_matching_node("123".to_string()).is_none());
    assert!(balancer.get_matching_node_id("123".to_string()).is_none());
    assert!(balancer.get_nodes().is_empty());
    assert!(!balancer.contains_id(&"1".to_string()));
    assert!(balancer.remove_node(&"1".to_string()).is_err());
}

#[test]
fn consistent_hash_zero_replicas_gives_one_place() {
    let ids = [("1", 4), ("2", 4)];
    let balancer = ring_of(&ids, 0);
    let slots = expected_slots(&ids, 0);
    assert_eq!(slots.len(), 2);
    for n in 0..100 {
        let key = format!("{}", n);
        assert_eq!(balancer.get_matching_node_id(key.clone()).cloned(), expected_owner(&slots, &key));
    }
}

#[test]
fn consistent_hash_lookup_is_repeatable() {
    let balancer = ring_of(&[("1", 1), ("2", 2), ("3", 3)], 20);
    for n in 0..100 {
        let key = format!("{}", n);
        let first = balancer.get_matching_node_id(key.clone()).cloned();
        for _ in 0..5 {
            assert_eq!(balancer.get_matching_node_id(key.clone()).cloned(), first);
        }
        assert_eq!(
            balancer.get_matching_node(key.clone()).map(|n| n.get_id().clone()),
            first
        );
    }
}

#[test]
fn consistent_hash_removal_moves_only_the_removed_nodes_keys() {
    let ids = [("1", 1), ("2", 1), ("3", 1), ("4", 1)];
    let mut balancer = ring_of(&ids, 10);
    let keys: Vec<String> = (0..300).map(|n| format!("ip-{}", n)).collect();
    let before: Vec<String> =
        keys.iter().map(|k| balancer.get_matching_node_id(k.clone()).unwrap().clone()).collect();
    balancer.remove_node(&"2".to_string()).unwrap();
    let mut moved = 0;
    for (key, owner) in keys.iter().zip(before.iter()) {
        let now = balancer.get_matching_node_id(key.clone()).unwrap().clone();
        assert_ne!(now, "2");
        if owner == "2" {
            moved += 1;
        } else {
            assert_eq!(&now, owner);
        }
    }
    assert!(moved > 0);
}

#[test]
fn consistent_hash_add_remove_add() {
    let ids = [("1", 1), ("2", 1), ("3", 1)];
    let mut balancer = ring_of(&ids, 10);
    let keys: Vec<String> = (0..200).map(|n| format!("{}", n)).collect();
    let before: Vec<String> =
        keys.iter().map(|k| balancer.get_matching_node_id(k.clone()).unwrap().clone()).collect();

    balancer.add_node(Node::new("4".to_string(), 2).unwrap()).unwrap();
    assert!(balancer.add_node(Node::new("4".to_string(), 2).unwrap()).is_err());
    assert!(balancer.contains_id(&"4".to_string()));
    balancer.remove_node(&"4".to_string()).unwrap();
    assert!(balancer.remove_node(&"4".to_string()).is_err());
    assert!(!balancer.contains_id(&"4".to_string()));
    let after: Vec<String> =
        keys.iter().map(|k| balancer.get_matching_node_id(k.clone()).unwrap().clone()).collect();
    assert_eq!(before, after);

    balancer.add_node(Node::new("4".to_string(), 1).unwrap()).unwrap();
    assert_eq!(balancer.get_node(&"4".to_string()).unwrap().get_weight(), 1);
    let slots = expected_slots(&[("1", 1), ("2", 1), ("3", 1), ("4", 1)], 10);
    for key in &keys {
        assert_eq!(balancer.get_matching_node_id(key.clone()).cloned(), expected_owner(&slots, key));
    }
}

#[test]
fn consistent_hash_ignores_duplicates_at_construction() {
    let balancer = ring_of(&[("1", 1), ("2", 1), ("1", 5)], 10);
    assert_eq!(balancer.get_nodes().len(), 2);
    assert_eq!(balancer.get_node(&"1".to_string()).unwrap().get_weight(), 1);
    let slots = expected_slots(&[("1", 1), ("2", 1)], 10);
    for n in 0..100 {
        let key = format!("{}", n);
        assert_eq!(balancer.get_matching_node_id(key.clone()).cloned(), expected_owner(&slots, &key));
    }
}

#[test]
fn consistent_hash_serves_a_node_that_is_down() {
    let ids = [("1", 1), ("2", 1), ("3", 1)];
    let mut balancer = ring_of(&ids, 10);
    let keys: Vec<String> = (0..100).map(|n| format!("{}", n)).collect();
    let before: Vec<String> =
        keys.iter().map(|k| balancer.get_matching_node_id(k.clone()).unwrap().clone()).collect();
    assert!(balancer.set_down(&"4".to_string(), true).is_err());
    balancer.set_down(&"2".to_string(), true).unwrap();
    assert!(balancer.get_node(&"2".to_string()).unwrap().is_down());
    assert!(!balancer.get_node(&"1".to_string()).unwrap().is_down());
    let after: Vec<String> =
        keys.iter().map(|k| balancer.get_matching_node_id(k.clone()).unwrap().clone()).collect();
    assert_eq!(before, after);
    assert!(before.iter().any(|owner| owner == "2"));
    balancer.set_down(&"2".to_string(), false).unwrap();
    assert!(!balancer.get_node(&"2".to_string()).unwrap().is_down());
    let names: Vec<String> = balancer.get_nodes().iter().map(|n| n.get_id().clone()).collect();
    assert_eq!(names, vec!["1".to_string(), "2".to_string(), "3".to_string()]);
}

#[test]
fn consistent_hash_try_new() {
    let list = |ids: &[&str]| -> Vec<Node<String>> {
        ids.iter().map(|id| Node::new_with_default_weight(id.to_string())).collect()
    };
    assert!(ConsistentHashing::try_new(list(&["1", "2", "1"]), 10).is_err());
    let balancer = match ConsistentHashing::try_new(list(&["1", "2", "3"]), 10) {
        Ok(b) => b,
        Err(_) => panic!("distinct identifiers were refused"),
    };
    let slots = expected_slots(&[("1", 1), ("2", 1), ("3", 1)], 10);
    for n in 0..100 {
        let key = format!("{}", n);
        assert_eq!(balancer.get_matching_node_id(key.clone()).cloned(), expected_owner(&slots, &key));
    }
}
