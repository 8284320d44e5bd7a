use rsbalancer::round_robin::RoundRobin;
use rsbalancer::{Balancer, Node};

fn unit_nodes(ids: Vec<i32>) -> Vec<Node<i32>> {
    ids.into_iter().map(|id| Node::new_with_default_weight(id)).collect()
}

#[test]
fn round_robin_simple() {
    let nodes = vec![1, 2, 3, 4, 5];
    let nodes = nodes.into_iter().map(|id| Node::new_with_default_weight(id)).collect();
    let mut balancer = RoundRobin::new(nodes);
    for i in 0..20 {
        assert_eq!((i % 5) + 1, *balancer.next().unwrap().get_id());
    }
}

#[test]
fn round_robin_add_node() {
    let nodes = vec![1, 2, 3];
    let nodes = nodes.into_iter().map(|id| Node::new_with_default_weight(id)).collect();
    let mut balancer = RoundRobin::new(nodes);
    for i in 0..10 {
        let id = *balancer.next().unwrap().get_id();
        if i == 1 {
            balancer.add_node(Node::new_with_default_weight(4)).unwrap();
        }
        assert_eq!((i % 4) + 1, id);
    }
}

#[test]
fn remove_node() {
    let nodes = vec![1, 2, 3];
    let nodes = nodes.into_iter().map(|id| Node::new_with_default_weight(id)).collect();
    let mut balancer = RoundRobin::new(nodes);

    assert_eq!(*balancer.next_id().unwrap(), 1);
    balancer.remove_node(&1).unwrap();
    assert_eq!(*balancer.next_id().unwrap(), 2);
    balancer.remove_node(&3).unwrap();
    assert_eq!(*balancer.next_id().unwrap(), 2);
}

#[test]
fn round_robin_down() {
    let nodes = vec![1, 2, 3];
    let nodes = nodes.into_iter().map(|id| Node::new_with_default_weight(id)).collect();
    let mut balancer = RoundRobin::new(nodes);

    balancer.set_down(&1, true).unwrap();
    assert_eq!(*balancer.next_id().unwrap(), 2);
    assert_eq!(*balancer.next_id().unwrap(), 3);
    assert_eq!(*balancer.next_id().unwrap(), 2);

    balancer.set_down(&2, true).unwrap();
    balancer.set_down(&3, true).unwrap();

    assert!(balancer.next_id().is_none());
    assert!(balancer.next_id().is_none());
}

#[test]
fn round_robin_visits_each_node_once_per_round() {
    let mut balancer = RoundRobin::new(unit_nodes(vec![7, 8, 9, 10]));
    for _ in 0..3 {
        let mut seen = Vec::new();
        for _ in 0..4 {
            seen.push(*balancer.next_id().unwrap());
        }
        assert_eq!(seen, vec![7, 8, 9, 10]);
    }
}

#[test]
fn round_robin_empty_selects_nothing() {
    let mut balancer: RoundRobin<i32> = RoundRobin::new(Vec::new());
    assert!(balancer.next().is_none());
    assert!(balancer.next_id().is_none());
    assert!(balancer.get_nodes().is_empty());
}

#[test]
fn round_robin_node_comes_back_when_marked_up() {
    let mut balancer = RoundRobin::new(unit_nodes(vec![1, 2]));
    balancer.set_down(&1, true).unwrap();
    assert_eq!(*balancer.next_id().unwrap(), 2);
    assert_eq!(*balancer.next_id().unwrap(), 2);
    balancer.set_down(&1, false).unwrap();
    assert_eq!(*balancer.next_id().unwrap(), 1);
    assert_eq!(*balancer.next_id().unwrap(), 2);
}

#[test]
fn round_robin_removal_before_cursor_moves_cursor_back() {
    let mut balancer = RoundRobin::new(unit_nodes(vec![1, 2, 3, 4]));
    assert_eq!(*balancer.next_id().unwrap(), 1);
    assert_eq!(*balancer.next_id().unwrap(), 2);
    balancer.remove_node(&1).unwrap();
    assert_eq!(*balancer.next_id().unwrap(), 3);
    assert_eq!(*balancer.next_id().unwrap(), 4);
    assert_eq!(*balancer.next_id().unwrap(), 2);
}

#[test]
fn round_robin_removal_at_cursor_keeps_next_node() {
    let mut balancer = RoundRobin::new(unit_nodes(vec![1, 2, 3, 4]));
    assert_eq!(*balancer.next_id().unwrap(), 1);
    balancer.remove_node(&2).unwrap();
    assert_eq!(*balancer.next_id().unwrap(), 3);
    assert_eq!(*balancer.next_id().unwrap(), 4);
    assert_eq!(*balancer.next_id().unwrap(), 1);
}

#[test]
fn round_robin_removal_behind_cursor_leaves_cursor() {
    let mut balancer = RoundRobin::new(unit_nodes(vec![1, 2, 3, 4]));
    assert_eq!(*balancer.next_id().unwrap(), 1);
    balancer.remove_node(&4).unwrap();
    assert_eq!(*balancer.next_id().unwrap(), 2);
    assert_eq!(*balancer.next_id().unwrap(), 3);
    assert_eq!(*balancer.next_id().unwrap(), 1);
}

#[test]
fn round_robin_removing_last_node_empties() {
    let mut balancer = RoundRobin::new(unit_nodes(vec![1]));
    assert_eq!(*balancer.next_id().unwrap(), 1);
    balancer.remove_node(&1).unwrap();
    assert!(balancer.next_id().is_none());
    balancer.add_node(Node::new_with_default_weight(5)).unwrap();
    assert_eq!(*balancer.next_id().unwrap(), 5);
}

#[test]
fn round_robin_errors() {
    let mut balancer = RoundRobin::new(unit_nodes(vec![1, 2]));
    assert!(balancer.add_node(Node::new_with_default_weight(1)).is_err());
    assert!(balancer.remove_node(&9).is_err());
    assert!(balancer.set_down(&9, true).is_err());
    assert!(balancer.contains_id(&1));
    assert!(!balancer.contains_id(&9));
    assert!(balancer.get_node(&2).is_some());
    assert!(balancer.get_node(&9).is_none());
    assert_eq!(balancer.get_nodes().len(), 2);
}

#[test]
fn round_robin_add_remove_add() {
    let mut balancer = RoundRobin::new(unit_nodes(vec![1, 2]));
    assert_eq!(*balancer.next_id().unwrap(), 1);
    balancer.add_node(Node::new_with_default_weight(3)).unwrap();
    balancer.set_down(&3, true).unwrap();
    balancer.remove_node(&3).unwrap();
    assert_eq!(balancer.get_nodes().len(), 2);
    balancer.add_node(Node::new_with_default_weight(3)).unwrap();
    assert!(!balancer.get_node(&3).unwrap().is_down());
    assert_eq!(*balancer.next_id().unwrap(), 2);
    assert_eq!(*balancer.next_id().unwrap(), 3);
    assert_eq!(*balancer.next_id().unwrap(), 1);
}

#[test]
fn round_robin_ignores_duplicates_at_construction() {
    let mut balancer = RoundRobin::new(unit_nodes(vec![1, 2, 1, 3, 2]));
    assert_eq!(balancer.get_nodes().len(), 3);
    assert_eq!(*balancer.next_id().unwrap(), 1);
    assert_eq!(*balancer.next_id().unwrap(), 2);
    assert_eq!(*balancer.next_id().unwrap(), 3);
    assert_eq!(*balancer.next_id().unwrap(), 1);
}
