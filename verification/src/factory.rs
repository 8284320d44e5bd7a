use vstd::prelude::*;
use std::hash::Hash;
use crate::balancer::Balancer;
use crate::consistent_hash::{ConsistentHashing, HashRingView};
use crate::errors::{DuplicatedKeyError, NotFoundError};
use crate::identity::eq_is_identity;
use crate::node::{Node, NodeView};
use crate::nodes::{distinct_ids, views, with_new_nodes};
use crate::random::Random;
use crate::round_robin::RoundRobin;
use crate::weighted_round_robin::WeightedRoundRobin;

verus! {

/// The strategies that [`new`] can build over any identifier type.
pub enum BalancerEnum {
    /// Round robin.
    RR,
    /// Smooth weighted round robin.
    WRR,
    /// Random.
    Random,
}

/// A balancer whose strategy was chosen when it was built.
pub enum AnyBalancer<T: Hash + Eq + Clone> {
    /// Round robin.
    RR(RoundRobin<T>),
    /// Smooth weighted round robin.
    WRR(WeightedRoundRobin<T>),
    /// Random.
    Random(Random<T>),
}

impl<T: Hash + Eq + Clone> Balancer<T> for AnyBalancer<T> {
    open spec fn nodes(&self) -> Seq<NodeView<T>> {
        match self {
            AnyBalancer::RR(b) => b.nodes(),
            AnyBalancer::WRR(b) => b.nodes(),
            AnyBalancer::Random(b) => b.nodes(),
        }
    }

    open spec fn wf(&self) -> bool {
        match self {
            AnyBalancer::RR(b) => b.wf(),
            AnyBalancer::WRR(b) => b.wf(),
            AnyBalancer::Random(b) => b.wf(),
        }
    }

    proof fn lemma_wf_registry(&self) {
        match self {
            AnyBalancer::RR(b) => b.lemma_wf_registry(),
            AnyBalancer::WRR(b) => b.lemma_wf_registry(),
            AnyBalancer::Random(b) => b.lemma_wf_registry(),
        }
    }

    open spec fn within_limits(&self) -> bool {
        match self {
            AnyBalancer::RR(b) => b.within_limits(),
            AnyBalancer::WRR(b) => b.within_limits(),
            AnyBalancer::Random(b) => b.within_limits(),
        }
    }

    fn add_node(&mut self, node: Node<T>) -> (res: Result<(), DuplicatedKeyError>) {
        match self {
            AnyBalancer::RR(b) => b.add_node(node),
            AnyBalancer::WRR(b) => b.add_node(node),
            AnyBalancer::Random(b) => b.add_node(node),
        }
    }

    fn remove_node(&mut self, id: &T) -> (res: Result<(), NotFoundError>) {
        match self {
            AnyBalancer::RR(b) => b.remove_node(id),
            AnyBalancer::WRR(b) => b.remove_node(id),
            AnyBalancer::Random(b) => b.remove_node(id),
        }
    }

    fn contains_id(&mut self, id: &T) -> (found: bool) {
        match self {
            AnyBalancer::RR(b) => b.contains_id(id),
            AnyBalancer::WRR(b) => b.contains_id(id),
            AnyBalancer::Random(b) => b.contains_id(id),
        }
    }

    fn get_node(&self, id: &T) -> (r: Option<&Node<T>>) {
        match self {
            AnyBalancer::RR(b) => b.get_node(id),
            AnyBalancer::WRR(b) => b.get_node(id),
            AnyBalancer::Random(b) => b.get_node(id),
        }
    }

    fn get_nodes(&self) -> (all: Vec<&Node<T>>) {
        match self {
            AnyBalancer::RR(b) => b.get_nodes(),
            AnyBalancer::WRR(b) => b.get_nodes(),
            AnyBalancer::Random(b) => b.get_nodes(),
        }
    }

    fn set_down(&mut self, id: &T, down: bool) -> (res: Result<(), NotFoundError>) {
        match self {
            AnyBalancer::RR(b) => b.set_down(id, down),
            AnyBalancer::WRR(b) => b.set_down(id, down),
            AnyBalancer::Random(b) => b.set_down(id, down),
        }
    }

    fn has_room(&self) -> (ok: bool) {
        match self {
            AnyBalancer::RR(b) => b.has_room(),
            AnyBalancer::WRR(b) => b.has_room(),
            AnyBalancer::Random(b) => b.has_room(),
        }
    }

    fn next(&mut self) -> (r: Option<&Node<T>>) {
        match self {
            AnyBalancer::RR(b) => b.next(),
            AnyBalancer::WRR(b) => b.next(),
            AnyBalancer::Random(b) => b.next(),
        }
    }

    fn next_id(&mut self) -> (r: Option<&T>) {
        match self {
            AnyBalancer::RR(b) => b.next_id(),
            AnyBalancer::WRR(b) => b.next_id(),
            AnyBalancer::Random(b) => b.next_id(),
        }
    }
}

/// A balancer of the chosen strategy over `nodes`; of nodes with one
/// identifier the first stays.
pub fn new<T: Hash + Eq + Clone>(balancer_enum: BalancerEnum, nodes: Vec<Node<T>>) -> (b: AnyBalancer<T>)
    requires
        eq_is_identity::<T>(),
    ensures
        b.nodes() == with_new_nodes(Seq::empty(), views(nodes@)),
        (forall|i: int| 0 <= i < nodes@.len() ==> (#[trigger] nodes@[i]).wf()) ==> b.wf(),
        match balancer_enum {
            BalancerEnum::RR => b matches AnyBalancer::RR(rr) && rr.cursor() == 0,
            BalancerEnum::WRR => b is WRR,
            BalancerEnum::Random => b is Random,
        },
{
    match balancer_enum {
        BalancerEnum::RR => AnyBalancer::RR(RoundRobin::new(nodes)),
        BalancerEnum::WRR => AnyBalancer::WRR(WeightedRoundRobin::new(nodes)),
        BalancerEnum::Random => AnyBalancer::Random(Random::new(nodes)),
    }
}

/// A balancer of the chosen strategy over exactly `nodes`; fails where two of
/// them share an identifier.
pub fn try_new<T: Hash + Eq + Clone>(balancer_enum: BalancerEnum, nodes: Vec<Node<T>>) -> (res: Result<
    AnyBalancer<T>,
    DuplicatedKeyError,
>)
    requires
        eq_is_identity::<T>(),
    ensures
        res is Err <==> !distinct_ids(views(nodes@)),
        res matches Ok(b) ==> {
            &&& b.nodes() == views(nodes@)
            &&& (forall|i: int| 0 <= i < nodes@.len() ==> (#[trigger] nodes@[i]).wf()) ==> b.wf()
            &&& match balancer_enum {
                BalancerEnum::RR => b matches AnyBalancer::RR(rr) && rr.cursor() == 0,
                BalancerEnum::WRR => b is WRR,
                BalancerEnum::Random => b is Random,
            }
        },
{
    match balancer_enum {
        BalancerEnum::RR => match RoundRobin::try_new(nodes) {
            Err(e) => Err(e),
            Ok(b) => Ok(AnyBalancer::RR(b)),
        },
        BalancerEnum::WRR => match WeightedRoundRobin::try_new(nodes) {
            Err(e) => Err(e),
            Ok(b) => Ok(AnyBalancer::WRR(b)),
        },
        BalancerEnum::Random => match Random::try_new(nodes) {
            Err(e) => Err(e),
            Ok(b) => Ok(AnyBalancer::Random(b)),
        },
    }
}

/// A smooth weighted round robin over `nodes`.
pub fn weighted_round_robin<T: Hash + Eq + Clone>(nodes: Vec<Node<T>>) -> (b: WeightedRoundRobin<T>)
    requires
        eq_is_identity::<T>(),
    ensures
        b.nodes() == with_new_nodes(Seq::empty(), views(nodes@)),
        (forall|i: int| 0 <= i < nodes@.len() ==> (#[trigger] nodes@[i]).wf()) ==> b.wf(),
{
    WeightedRoundRobin::new(nodes)
}

/// A round robin over `nodes`.
pub fn round_robin<T: Hash + Eq + Clone>(nodes: Vec<Node<T>>) -> (b: RoundRobin<T>)
    requires
        eq_is_identity::<T>(),
    ensures
        b.nodes() == with_new_nodes(Seq::empty(), views(nodes@)),
        b.cursor() == 0,
        (forall|i: int| 0 <= i < nodes@.len() ==> (#[trigger] nodes@[i]).wf()) ==> b.wf(),
{
    RoundRobin::new(nodes)
}

/// A random balancer over `nodes`.
pub fn random<T: Hash + Eq + Clone>(nodes: Vec<Node<T>>) -> (b: Random<T>)
    requires
        eq_is_identity::<T>(),
    ensures
        b.nodes() == with_new_nodes(Seq::empty(), views(nodes@)),
        (forall|i: int| 0 <= i < nodes@.len() ==> (#[trigger] nodes@[i]).wf()) ==> b.wf(),
{
    Random::new(nodes)
}

/// A consistent hashing ring over `nodes` with `replicas` places per unit of
/// weight. The down flag of a node has no effect on such a ring.
pub fn consistent_hashing(nodes: Vec<Node<String>>, replicas: usize) -> (b: ConsistentHashing)
    requires
        forall|i: int| 0 <= i < nodes@.len() ==> (#[trigger] nodes@[i]).wf(),
    ensures
        b.wf(),
        b@ == HashRingView::empty(replicas as nat).added_all(views(nodes@)),
{
    ConsistentHashing::new(nodes, replicas)
}

} // verus!
