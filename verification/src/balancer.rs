use vstd::prelude::*;
use std::hash::Hash;
use crate::errors::{DuplicatedKeyError, NotFoundError};
use crate::identity::eq_is_identity;
use crate::node::{Node, NodeView};
use crate::nodes::{all_down, has_id, position_of, registry_wf};

verus! {

/// Whether two registries hold the same nodes in the same order, with the same
/// weights and down flags; only the selection counters may differ.
pub open spec fn same_members<T>(a: Seq<NodeView<T>>, b: Seq<NodeView<T>>) -> bool {
    &&& a.len() == b.len()
    &&& forall|i: int|
        0 <= i < a.len() ==> {
            &&& (#[trigger] a[i]).id == b[i].id
            &&& a[i].weight == b[i].weight
            &&& a[i].down == b[i].down
        }
}

/// What every selection strategy over a registry of nodes offers.
pub trait Balancer<T: Hash + Eq + Clone> {
    /// The registered nodes in insertion order.
    spec fn nodes(&self) -> Seq<NodeView<T>>;

    /// The invariant of the strategy's state.
    spec fn wf(&self) -> bool;

    /// The invariant of a strategy includes that of its registry: the nodes
    /// are well formed and differ in their identifiers.
    proof fn lemma_wf_registry(&self)
        requires
            self.wf(),
        ensures
            registry_wf(self.nodes()),
    ;

    /// Whether the counters of the strategy have room for one more selection.
    spec fn within_limits(&self) -> bool;

    /// Registers `node` behind the nodes already present, unless its identifier is taken.
    fn add_node(&mut self, node: Node<T>) -> (res: Result<(), DuplicatedKeyError>)
        requires
            eq_is_identity::<T>(),
            old(self).wf(),
            node.wf(),
        ensures
            final(self).wf(),
            res is Err <==> has_id(old(self).nodes(), node@.id),
            res is Ok ==> final(self).nodes() == old(self).nodes().push(node@),
            res is Err ==> final(self).nodes() == old(self).nodes(),
    ;

    /// Removes the node that carries `id`; the other nodes keep their order.
    fn remove_node(&mut self, id: &T) -> (res: Result<(), NotFoundError>)
        requires
            eq_is_identity::<T>(),
            old(self).wf(),
        ensures
            final(self).wf(),
            res is Err <==> !has_id(old(self).nodes(), *id),
            res is Ok ==> final(self).nodes() == old(self).nodes().remove(
                position_of(old(self).nodes(), *id),
            ),
            res is Err ==> final(self).nodes() == old(self).nodes(),
    ;

    /// Whether a node carries `id`.
    fn contains_id(&mut self, id: &T) -> (found: bool)
        requires
            eq_is_identity::<T>(),
            old(self).wf(),
        ensures
            final(self).wf(),
            final(self).nodes() == old(self).nodes(),
            found == has_id(old(self).nodes(), *id),
    ;

    /// The node that carries `id`, if there is one.
    fn get_node(&self, id: &T) -> (r: Option<&Node<T>>)
        requires
            eq_is_identity::<T>(),
            self.wf(),
        ensures
            r is Some <==> has_id(self.nodes(), *id),
            r matches Some(n) ==> n@ == self.nodes()[position_of(self.nodes(), *id)],
    ;

    /// All nodes in insertion order.
    fn get_nodes(&self) -> (all: Vec<&Node<T>>)
        ensures
            all@.len() == self.nodes().len(),
            forall|i: int| 0 <= i < all@.len() ==> (#[trigger] all@[i])@ == self.nodes()[i],
    ;

    /// Marks the node that carries `id` as out of service, or as back in service.
    fn set_down(&mut self, id: &T, down: bool) -> (res: Result<(), NotFoundError>)
        requires
            eq_is_identity::<T>(),
            old(self).wf(),
        ensures
            final(self).wf(),
            res is Err <==> !has_id(old(self).nodes(), *id),
            res is Err ==> final(self).nodes() == old(self).nodes(),
            res is Ok ==> final(self).nodes() == old(self).nodes().update(
                position_of(old(self).nodes(), *id),
                old(self).nodes()[position_of(old(self).nodes(), *id)].with_down(down),
            ),
    ;

    /// Tests whether the counters have room for one more selection, which
    /// is what `next` and `next_id` ask for.
    fn has_room(&self) -> (ok: bool)
        requires
            self.wf(),
        ensures
            ok == self.within_limits(),
    ;

    /// Selects the node for the next unit of work. A node that is down is
    /// never selected, and nothing is selected only when no node is up.
    fn next(&mut self) -> (r: Option<&Node<T>>)
        requires
            old(self).wf(),
            old(self).within_limits(),
        ensures
            final(self).wf(),
            same_members(old(self).nodes(), final(self).nodes()),
            r is None <==> all_down(old(self).nodes()),
            r matches Some(n) ==> !n@.down && exists|i: int|
                0 <= i < final(self).nodes().len() && n@ == #[trigger] final(self).nodes()[i],
    ;

    /// As `next`, handing out the identifier only.
    fn next_id(&mut self) -> (r: Option<&T>)
        requires
            old(self).wf(),
            old(self).within_limits(),
        ensures
            final(self).wf(),
            same_members(old(self).nodes(), final(self).nodes()),
            r is None <==> all_down(old(self).nodes()),
            r matches Some(id) ==> exists|i: int|
                0 <= i < final(self).nodes().len() && *id == (#[trigger] final(self).nodes()[i]).id
                    && !final(self).nodes()[i].down,
    ;
}

} // verus!
