use std::collections::HashMap;

use rsbalancer::weighted_round_robin::WeightedRoundRobin;
use rsbalancer::{Balancer, Node};

fn map_nodes(array: Vec<(i32, usize)>) -> Vec<Node<i32>> {
    array.into_iter().map(|(id, weight)| Node::new(id, weight).unwrap()).collect()
}

#[test]
fn weighted_round_robin_simple() {
    let mut balancer = WeightedRoundRobin::new(map_nodes(vec![(1, 3), (2, 2), (3, 1)]));

    let mut map = HashMap::from([(1, 0), (2, 0), (3, 0)]);
    for _ in 0..12 {
        map.entry(*balancer.next().unwrap().get_id()).and_modify(|v| *v += 1);
    }
    for (i, v) in map {
        if i == 1 {
            assert_eq!(6, v);
        }
        if i == 2 {
            assert_eq!(4, v);
        }
        if i == 3 {
            assert_eq!(2, v);
        }
    }
}

#[test]
fn weighted_round_robin_add_node() {
    let mut balancer = WeightedRoundRobin::new(map_nodes(vec![(1, 3), (2, 2), (3, 1)]));

    let mut map = HashMap::from([(1, 0), (2, 0), (3, 0)]);
    let mut prev = -1;
    for i in 0..14 {
        let id = *balancer.next().unwrap().get_id();
        assert_ne!(id, prev);
        prev = id;
        map.entry(id).and_modify(|v| *v += 1);
        if i == 1 {
            balancer.add_node(Node::new(4, 1).unwrap()).unwrap();
        }
    }
    for (i, v) in map {
        if i == 1 {
            assert_eq!(6, v);
        }
        if i == 2 {
            assert_eq!(4, v);
        }
        if i == 3 {
            assert_eq!(2, v);
        }
        if i == 4 {
            assert_eq!(2, v);
        }
    }
}

#[test]
fn weighted_round_robin_down() {
    let nodes = vec![1, 2, 3];
    let nodes = nodes.into_iter().map(|id| Node::new_with_default_weight(id)).collect();
    let mut balancer = WeightedRoundRobin::new(nodes);

    balancer.set_down(&1, true).unwrap();
    assert_ne!(*balancer.next_id().unwrap(), 1);
    assert_ne!(*balancer.next_id().unwrap(), 1);
    assert_ne!(*balancer.next_id().unwrap(), 1);

    balancer.set_down(&2, true).unwrap();
    balancer.set_down(&3, true).unwrap();

    assert!(balancer.next_id().is_none());
    assert!(balancer.next_id().is_none());
}

fn picks(balancer: &mut WeightedRoundRobin<i32>, n: usize) -> Vec<i32> {
    let mut out = Vec::new();
    for _ in 0..n {
        out.push(*balancer.next_id().unwrap());
    }
    out
}

#[test]
fn weighted_round_robin_exact_sequence() {
    let mut balancer = WeightedRoundRobin::new(map_nodes(vec![(1, 3), (2, 2), (3, 1)]));
    let seq = picks(&mut balancer, 12);
    assert_eq!(seq, vec![1, 2, 1, 3, 2, 1, 1, 2, 1, 3, 2, 1]);
    assert_eq!(seq.iter().filter(|id| **id == 1).count(), 6);
    assert_eq!(seq.iter().filter(|id| **id == 2).count(), 4);
    assert_eq!(seq.iter().filter(|id| **id == 3).count(), 2);
    for window in seq.chunks(6) {
        for pair in window.windows(2) {
            assert_ne!(pair[0], pair[1]);
        }
    }
}

#[test]
fn weighted_round_robin_spreads_a_heavy_node() {
    let mut balancer = WeightedRoundRobin::new(map_nodes(vec![(1, 5), (2, 1), (3, 1)]));
    assert_eq!(picks(&mut balancer, 7), vec![1, 1, 2, 1, 3, 1, 1]);
}

#[test]
fn weighted_round_robin_first_node_wins_ties() {
    let mut balancer = WeightedRoundRobin::new(map_nodes(vec![(10, 1), (20, 1), (30, 1)]));
    assert_eq!(picks(&mut balancer, 6), vec![10, 20, 30, 10, 20, 30]);
}

#[test]
fn weighted_round_robin_empty_selects_nothing() {
    let mut balancer: WeightedRoundRobin<i32> = WeightedRoundRobin::new(Vec::new());
    assert!(balancer.next().is_none());
    assert!(balancer.next_id().is_none());
}

#[test]
fn weighted_round_robin_down_node_is_left_out_of_the_total() {
    let mut balancer = WeightedRoundRobin::new(map_nodes(vec![(1, 3), (2, 2), (3, 1)]));
    balancer.set_down(&1, true).unwrap();
    assert_eq!(picks(&mut balancer, 6), vec![2, 3, 2, 2, 3, 2]);
    balancer.set_down(&1, false).unwrap();
    assert_eq!(picks(&mut balancer, 6), vec![1, 2, 1, 3, 2, 1]);
}

#[test]
fn weighted_round_robin_counters_freeze_while_down() {
    let mut balancer = WeightedRoundRobin::new(map_nodes(vec![(1, 3), (2, 2), (3, 1)]));
    assert_eq!(picks(&mut balancer, 1), vec![1]);
    balancer.set_down(&1, true).unwrap();
    assert_eq!(picks(&mut balancer, 3), vec![2, 2, 3]);
    balancer.set_down(&1, false).unwrap();
    assert_eq!(picks(&mut balancer, 2), vec![2, 1]);
}

#[test]
fn weighted_round_robin_add_remove_add() {
    let mut balancer = WeightedRoundRobin::new(map_nodes(vec![(1, 3), (2, 2), (3, 1)]));
    assert_eq!(picks(&mut balancer, 2), vec![1, 2]);
    balancer.remove_node(&1).unwrap();
    assert!(balancer.remove_node(&1).is_err());
    assert!(!balancer.contains_id(&1));
    balancer.add_node(Node::new(1, 3).unwrap()).unwrap();
    assert!(balancer.add_node(Node::new(1, 3).unwrap()).is_err());
    let ids: Vec<i32> = balancer.get_nodes().iter().map(|n| *n.get_id()).collect();
    assert_eq!(ids, vec![2, 3, 1]);
    assert_eq!(balancer.get_node(&1).unwrap().get_weight(), 3);
    assert_eq!(picks(&mut balancer, 3), vec![3, 1, 2]);
}

#[test]
fn weighted_round_robin_errors() {
    let mut balancer = WeightedRoundRobin::new(map_nodes(vec![(1, 3)]));
    assert!(balancer.set_down(&2, true).is_err());
    assert!(balancer.get_node(&2).is_none());
    assert_eq!(balancer.get_nodes().len(), 1);
}

#[test]
fn weighted_round_robin_window_is_proportional_and_repeats() {
    let weights = vec![(1, 5), (2, 3), (3, 2), (4, 1)];
    let mut balancer = WeightedRoundRobin::new(map_nodes(weights.clone()));
    let first = picks(&mut balancer, 11);
    for (id, weight) in &weights {
        assert_eq!(first.iter().filter(|p| *p == id).count(), *weight);
    }
    assert_eq!(first, vec![1, 2, 3, 1, 4, 1, 2, 1, 3, 2, 1]);
    for _ in 0..3 {
        assert_eq!(picks(&mut balancer, 11), first);
    }
}

#[test]
fn weighted_round_robin_try_new() {
    assert!(WeightedRoundRobin::try_new(map_nodes(vec![(1, 1), (1, 2)])).is_err());
    match WeightedRoundRobin::try_new(map_nodes(vec![(2, 1), (1, 2)])) {
        Ok(mut b) => assert_eq!(picks(&mut b, 3), vec![1, 2, 1]),
        Err(_) => panic!("distinct identifiers were refused"),
    }
}
