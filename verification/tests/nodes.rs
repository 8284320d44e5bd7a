use rsbalancer::nodes::NodesContainer;
use rsbalancer::{InvalidParameterError, Node};

#[test]
fn nodes_simple() {
    let mut nodes: NodesContainer<i32> = NodesContainer::new();

    assert!(nodes.insert(Node::new_with_default_weight(1)).is_ok());
    assert!(nodes.insert(Node::new_with_default_weight(2)).is_ok());
    assert!(nodes.insert(Node::new_with_default_weight(3)).is_ok());
    assert!(nodes.insert(Node::new_with_default_weight(4)).is_ok());
    assert!(nodes.insert(Node::new_with_default_weight(1)).is_err());

    assert_eq!(*nodes.get_by_index(0).unwrap().get_id(), 1);
    assert_eq!(*nodes.get_by_index(1).unwrap().get_id(), 2);
    assert_eq!(*nodes.get_by_index(2).unwrap().get_id(), 3);
    assert_eq!(*nodes.get_by_index(3).unwrap().get_id(), 4);

    assert!(nodes.remove(&1).is_ok());
    assert!(nodes.remove(&1).is_err());
    assert!(nodes.get_by_id(&1).is_none());

    assert_eq!(*nodes.get_by_index(0).unwrap().get_id(), 2);
    assert!(nodes.set_down(&2, true).is_ok());

    assert_eq!(nodes.get_by_index(0).unwrap().is_down(), true);
}

fn registry(ids: Vec<i32>) -> NodesContainer<i32> {
    NodesContainer::from(ids.into_iter().map(|id| Node::new_with_default_weight(id)).collect())
}

fn ids_of(nodes: &NodesContainer<i32>) -> Vec<i32> {
    nodes.get_all().iter().map(|n| *n.get_id()).collect()
}

#[test]
fn node_constructors() {
    let node = Node::new_with_default_weight(7);
    assert_eq!(*node.get_id(), 7);
    assert_eq!(node.get_weight(), 1);
    assert!(!node.is_down());

    let node = Node::new("a".to_string(), 5).unwrap();
    assert_eq!(node.get_id(), "a");
    assert_eq!(node.get_weight(), 5);
    assert!(!node.is_down());
}

#[test]
fn node_weight_must_be_positive() {
    let res: Result<Node<i32>, InvalidParameterError> = Node::new(1, 0);
    assert!(res.is_err());
    assert!(Node::new(1, 1).is_ok());
    assert!(Node::new(1, usize::MAX).is_ok());
}

#[test]
fn error_messages() {
    assert_eq!(rsbalancer::NotFoundError.message(), "Not found");
    assert_eq!(rsbalancer::DuplicatedKeyError.message(), "Duplicated key");
    assert_eq!(rsbalancer::InvalidParameterError.message(), "Invalid parameter");
}

#[test]
fn nodes_from_keeps_order_and_first_of_duplicates() {
    let first = Node::new(1, 2).unwrap();
    let second = Node::new(2, 3).unwrap();
    let again = Node::new(1, 9).unwrap();
    let nodes = NodesContainer::from(vec![first, second, again]);
    assert_eq!(nodes.len(), 2);
    assert_eq!(ids_of(&nodes), vec![1, 2]);
    assert_eq!(nodes.get_by_id(&1).unwrap().get_weight(), 2);
}

#[test]
fn nodes_remove_tells_the_position() {
    let mut nodes = registry(vec![5, 6, 7, 8]);
    assert_eq!(nodes.remove(&7).unwrap(), 2);
    assert_eq!(ids_of(&nodes), vec![5, 6, 8]);
    assert_eq!(nodes.remove(&5).unwrap(), 0);
    assert_eq!(nodes.remove(&8).unwrap(), 1);
    assert_eq!(nodes.remove(&6).unwrap(), 0);
    assert_eq!(nodes.len(), 0);
    assert!(nodes.remove(&6).is_err());
}

#[test]
fn nodes_lookup_by_index_and_id() {
    let nodes = registry(vec![5, 6]);
    assert!(nodes.get_by_index(2).is_none());
    assert_eq!(*nodes.get_by_index(1).unwrap().get_id(), 6);
    assert_eq!(*nodes.get_by_id(&5).unwrap().get_id(), 5);
    assert!(nodes.get_by_id(&7).is_none());
}

#[test]
fn nodes_set_down_changes_one_node() {
    let mut nodes = registry(vec![5, 6, 7]);
    assert!(nodes.set_down(&9, true).is_err());
    nodes.set_down(&6, true).unwrap();
    let flags: Vec<bool> = nodes.get_all().iter().map(|n| n.is_down()).collect();
    assert_eq!(flags, vec![false, true, false]);
    nodes.set_down(&6, false).unwrap();
    assert!(!nodes.get_by_id(&6).unwrap().is_down());
}

#[test]
fn nodes_mutable_access() {
    let mut nodes = registry(vec![5, 6, 7]);
    assert!(nodes.get_mut_by_index(3).is_none());
    assert!(nodes.get_mut_by_id(&9).is_none());
    assert_eq!(*nodes.get_mut_by_index(1).unwrap().get_id(), 6);
    assert_eq!(*nodes.get_mut_by_id(&7).unwrap().get_id(), 7);
    *nodes.get_mut_by_index(0).unwrap() = Node::new(5, 4).unwrap();
    assert_eq!(nodes.get_by_id(&5).unwrap().get_weight(), 4);
    assert_eq!(ids_of(&nodes), vec![5, 6, 7]);
}

#[test]
fn nodes_first_up_from_walks_one_round() {
    let mut nodes = registry(vec![5, 6, 7, 8]);
    assert_eq!(nodes.first_up_from(0), Some(0));
    assert_eq!(nodes.first_up_from(3), Some(3));
    assert_eq!(nodes.first_up_from(4), Some(0));
    assert_eq!(nodes.first_up_from(5), None);
    nodes.set_down(&7, true).unwrap();
    nodes.set_down(&8, true).unwrap();
    assert_eq!(nodes.first_up_from(2), Some(0));
    assert_eq!(nodes.first_up_from(1), Some(1));
    nodes.set_down(&5, true).unwrap();
    assert_eq!(nodes.first_up_from(2), Some(1));
    nodes.set_down(&6, true).unwrap();
    assert_eq!(nodes.first_up_from(0), None);
    assert_eq!(nodes.first_up_from(2), None);
    let empty: NodesContainer<i32> = NodesContainer::new();
    assert_eq!(empty.first_up_from(0), None);
}

#[test]
fn nodes_add_remove_add() {
    let mut nodes = registry(vec![5, 6]);
    nodes.insert(Node::new(7, 3).unwrap()).unwrap();
    nodes.set_down(&7, true).unwrap();
    assert_eq!(nodes.remove(&7).unwrap(), 2);
    assert_eq!(ids_of(&nodes), vec![5, 6]);
    nodes.insert(Node::new(7, 1).unwrap()).unwrap();
    let node = nodes.get_by_id(&7).unwrap();
    assert!(!node.is_down());
    assert_eq!(node.get_weight(), 1);
}

#[test]
fn nodes_from_distinct() {
    let list = |ids: Vec<i32>| ids.into_iter().map(|id| Node::new_with_default_weight(id)).collect();
    assert!(NodesContainer::from_distinct(list(vec![1, 2, 2])).is_err());
    assert!(NodesContainer::from_distinct(list(vec![1, 2, 3, 1])).is_err());
    match NodesContainer::from_distinct(list(vec![3, 1, 2])) {
        Ok(nodes) => assert_eq!(ids_of(&nodes), vec![3, 1, 2]),
        Err(_) => panic!("distinct identifiers were refused"),
    }
    assert!(NodesContainer::<i32>::from_distinct(Vec::new()).is_ok());
}
