use rsbalancer::random::Random;
use rsbalancer::{Balancer, Node};

#[test]
fn random_simple() {
    let nodes = vec![1, 2, 3, 4, 5];
    let nodes = nodes.into_iter().map(|id| Node::new_with_default_weight(id)).collect();
    let mut balancer = Random::new(nodes);
    for _ in 0..50 {
        assert!(balancer.next().is_some());
    }
}

#[test]
fn random_down() {
    let nodes = vec![1, 2];
    let nodes = nodes.into_iter().map(|id| Node::new_with_default_weight(id)).collect();
    let mut balancer = Random::new(nodes);
    assert!(balancer.next().is_some());

    balancer.set_down(&1, true).unwrap();
    assert_eq!(*balancer.next_id().unwrap(), 2);
    assert_eq!(*balancer.next_id().unwrap(), 2);

    balancer.set_down(&2, true).unwrap();

    assert!(balancer.next_id().is_none());
    assert!(balancer.next_id().is_none());
}

fn five() -> Random<i32> {
    Random::new((1..=5).map(|id| Node::new_with_default_weight(id)).collect())
}

#[test]
fn random_empty_selects_nothing() {
    let mut balancer: Random<i32> = Random::new(Vec::new());
    assert!(balancer.next().is_none());
    assert!(balancer.next_id().is_none());
}

#[test]
fn random_picks_only_registered_up_nodes() {
    let mut balancer = five();
    balancer.set_down(&2, true).unwrap();
    balancer.set_down(&4, true).unwrap();
    let mut seen = [false; 6];
    for _ in 0..400 {
        let id = *balancer.next_id().unwrap();
        assert!(id == 1 || id == 3 || id == 5);
        seen[id as usize] = true;
    }
    assert!(seen[1] && seen[3] && seen[5]);
}

#[test]
fn random_reaches_every_node() {
    let mut balancer = five();
    let mut seen = [false; 6];
    for _ in 0..400 {
        seen[*balancer.next_id().unwrap() as usize] = true;
    }
    assert!(seen[1] && seen[2] && seen[3] && seen[4] && seen[5]);
}

#[test]
fn random_next_from_takes_the_start_when_up() {
    let balancer = five();
    for start in 0..5 {
        assert_eq!(*balancer.next_from(start).unwrap().get_id(), start as i32 + 1);
    }
    assert_eq!(*balancer.next_from(5).unwrap().get_id(), 1);
    assert!(balancer.next_from(6).is_none());
}

#[test]
fn random_next_from_walks_past_down_nodes() {
    let mut balancer = five();
    balancer.set_down(&2, true).unwrap();
    balancer.set_down(&3, true).unwrap();
    assert_eq!(*balancer.next_from(0).unwrap().get_id(), 1);
    assert_eq!(*balancer.next_from(1).unwrap().get_id(), 4);
    assert_eq!(*balancer.next_from(2).unwrap().get_id(), 4);
    assert_eq!(*balancer.next_from(3).unwrap().get_id(), 4);
    assert_eq!(*balancer.next_from(4).unwrap().get_id(), 5);
}

#[test]
fn random_next_from_wraps_round() {
    let mut balancer = five();
    balancer.set_down(&4, true).unwrap();
    balancer.set_down(&5, true).unwrap();
    assert_eq!(*balancer.next_from(3).unwrap().get_id(), 1);
    assert_eq!(*balancer.next_from(4).unwrap().get_id(), 1);
    balancer.set_down(&1, true).unwrap();
    assert_eq!(*balancer.next_from(4).unwrap().get_id(), 2);
    balancer.set_down(&2, true).unwrap();
    balancer.set_down(&3, true).unwrap();
    for start in 0..5 {
        assert!(balancer.next_from(start).is_none());
    }
}

#[test]
fn random_add_remove_add() {
    let mut balancer = five();
    assert!(balancer.add_node(Node::new_with_default_weight(3)).is_err());
    balancer.set_down(&3, true).unwrap();
    balancer.remove_node(&3).unwrap();
    assert!(balancer.remove_node(&3).is_err());
    assert!(!balancer.contains_id(&3));
    balancer.add_node(Node::new_with_default_weight(3)).unwrap();
    assert!(!balancer.get_node(&3).unwrap().is_down());
    let ids: Vec<i32> = balancer.get_nodes().iter().map(|n| *n.get_id()).collect();
    assert_eq!(ids, vec![1, 2, 4, 5, 3]);
    assert!(balancer.set_down(&9, false).is_err());
}
