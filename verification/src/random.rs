use vstd::prelude::*;
use std::hash::Hash;
use rand::Rng;
use crate::balancer::Balancer;
use crate::errors::{DuplicatedKeyError, NotFoundError};
use crate::identity::eq_is_identity;
use crate::node::{Node, NodeView};
use crate::nodes::{
    distinct_ids, lemma_first_up_from, picked_from, registry_wf, views, with_new_nodes,
    NodesContainer,
};

verus! {

/// Draws a position below `len` from the thread's random number generator.
///
/// Calls `rand::thread_rng().gen_range(0..len)`. Assumed of it: the number
/// lies in the range. The range must not be empty, since `gen_range` panics
/// on an empty one. Which number comes is left open. The generator of a
/// thread is seeded from the operating system when the thread first asks for
/// it, and `thread_rng` panics where the system gives no seed; no argument
/// of this function bears on that.
#[verifier::external_body]
fn random_index(len: usize) -> (i: usize)
    requires
        len > 0,
    ensures
        i < len,
{
    rand::thread_rng().gen_range(0..len)
}

/// Starts at a random node and hands out the first up node from there on.
///
/// Where some nodes are down the up nodes are not equally likely: the up node
/// that follows a run of down nodes is picked for each of them too.
pub struct Random<T: Hash + Eq + Clone> {
    nodes: NodesContainer<T>,
}

impl<T: Hash + Eq + Clone> Random<T> {
    /// A balancer over `nodes`; of nodes with one identifier the first stays.
    pub fn new(nodes: Vec<Node<T>>) -> (b: Random<T>)
        requires
            eq_is_identity::<T>(),
        ensures
            b.nodes() == with_new_nodes(Seq::empty(), views(nodes@)),
            (forall|i: int| 0 <= i < nodes@.len() ==> (#[trigger] nodes@[i]).wf()) ==> b.wf(),
    {
        Random { nodes: NodesContainer::from(nodes) }
    }

    /// The selection for a given starting position: the first up node met in
    /// one round from `start`; none where `start` lies beyond the end.
    pub fn next_from(&self, start: usize) -> (r: Option<&Node<T>>)
        ensures
            match picked_from(self.nodes(), start as int) {
                Some(v) => r matches Some(n) && n@ == v,
                None => r is None,
            },
    {
        proof {
            if start <= self.nodes@.len() {
                lemma_first_up_from(self.nodes@, start as int);
            }
        }
        match self.nodes.first_up_from(start) {
            None => None,
            Some(i) => self.nodes.get_by_index(i),
        }
    }

    /// A balancer over exactly `nodes`; fails where two of them share an
    /// identifier.
    pub fn try_new(nodes: Vec<Node<T>>) -> (res: Result<Random<T>, DuplicatedKeyError>)
        requires
            eq_is_identity::<T>(),
        ensures
            res is Err <==> !distinct_ids(views(nodes@)),
            res matches Ok(b) ==> b.nodes() == views(nodes@) && ((forall|i: int|
                0 <= i < nodes@.len() ==> (#[trigger] nodes@[i]).wf()) ==> b.wf()),
    {
        match NodesContainer::from_distinct(nodes) {
            Err(e) => Err(e),
            Ok(nodes) => Ok(Random { nodes }),
        }
    }
}

impl<T: Hash + Eq + Clone> Balancer<T> for Random<T> {
    closed spec fn nodes(&self) -> Seq<NodeView<T>> {
        self.nodes@
    }

    open spec fn wf(&self) -> bool {
        registry_wf(self.nodes())
    }

    proof fn lemma_wf_registry(&self) {
    }

    open spec fn within_limits(&self) -> bool {
        true
    }

    fn add_node(&mut self, node: Node<T>) -> (res: Result<(), DuplicatedKeyError>) {
        self.nodes.insert(node)
    }

    fn remove_node(&mut self, id: &T) -> (res: Result<(), NotFoundError>) {
        match self.nodes.remove(id) {
            Err(e) => Err(e),
            Ok(_) => Ok(()),
        }
    }

    fn contains_id(&mut self, id: &T) -> (found: bool) {
        self.nodes.get_by_id(id).is_some()
    }

    fn get_node(&self, id: &T) -> (r: Option<&Node<T>>) {
        self.nodes.get_by_id(id)
    }

    fn get_nodes(&self) -> (all: Vec<&Node<T>>) {
        self.nodes.get_all()
    }

    fn set_down(&mut self, id: &T, down: bool) -> (res: Result<(), NotFoundError>) {
        self.nodes.set_down(id, down)
    }

    fn has_room(&self) -> (ok: bool) {
        true
    }

    fn next(&mut self) -> (r: Option<&Node<T>>)
        ensures
            final(self).nodes() == old(self).nodes(),
            r matches Some(n) ==> exists|start: int|
                0 <= start < old(self).nodes().len() && #[trigger] picked_from(
                    old(self).nodes(),
                    start,
                ) == Some(n@),
    {
        let len = self.nodes.len();
        if len == 0 {
            return None;
        }
        let start = random_index(len);
        proof {
            lemma_first_up_from(self.nodes@, start as int);
        }
        self.next_from(start)
    }

    fn next_id(&mut self) -> (r: Option<&T>)
        ensures
            final(self).nodes() == old(self).nodes(),
            r matches Some(id) ==> exists|start: int|
                0 <= start < old(self).nodes().len() && (#[trigger] picked_from(
                    old(self).nodes(),
                    start,
                )) is Some && picked_from(old(self).nodes(), start).unwrap().id == *id,
    {
        match self.next() {
            None => None,
            Some(n) => Some(n.get_id()),
        }
    }
}

} // verus!
