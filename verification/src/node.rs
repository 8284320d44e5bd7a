use vstd::prelude::*;
use std::hash::Hash;
use crate::errors::InvalidParameterError;

verus! {

/// The abstract value of a [`Node`].
pub struct NodeView<T> {
    /// The identifier the node is registered under.
    pub id: T,
    /// The configured weight; never changes after construction.
    pub weight: nat,
    /// Whether the caller has marked the node as out of service.
    pub down: bool,
    /// Smooth weighted round robin counter.
    pub current_weight: int,
    /// Smooth weighted round robin ramp, between zero and `weight`.
    pub effective_weight: nat,
}

impl<T> NodeView<T> {
    /// The value every constructor produces: in service, counters at rest.
    pub open spec fn fresh(id: T, weight: nat) -> Self {
        NodeView { id, weight, down: false, current_weight: 0, effective_weight: weight }
    }

    /// The weight is positive, the effective weight does not exceed it, and
    /// both it and the current weight fit the machine integers that hold them.
    pub open spec fn wf(self) -> bool {
        &&& 0 < self.weight <= usize::MAX
        &&& self.effective_weight <= self.weight
        &&& i128::MIN <= self.current_weight <= i128::MAX
    }

    /// The node after its turn in a selection round: an up node adds its
    /// effective weight to its current weight, and an effective weight below
    /// the weight moves one step up. A down node is left as it is.
    pub open spec fn bumped(self) -> Self {
        if self.down {
            self
        } else {
            NodeView {
                current_weight: self.current_weight + self.effective_weight,
                effective_weight: if self.effective_weight < self.weight {
                    self.effective_weight + 1
                } else {
                    self.effective_weight
                },
                ..self
            }
        }
    }

    /// The node after it was selected in a round whose up nodes weighed `total`.
    pub open spec fn settled(self, total: int) -> Self {
        NodeView { current_weight: self.current_weight - total, ..self }
    }

    /// The same node with another down flag.
    pub open spec fn with_down(self, down: bool) -> Self {
        NodeView { down, ..self }
    }
}

/// A destination that work can be sent to.
pub struct Node<T: Hash + Eq + Clone> {
    id: T,
    weight: usize,
    down: bool,
    current_weight: i128,
    effective_weight: usize,
}

impl<T: Hash + Eq + Clone> View for Node<T> {
    type V = NodeView<T>;

    closed spec fn view(&self) -> NodeView<T> {
        NodeView {
            id: self.id,
            weight: self.weight as nat,
            down: self.down,
            current_weight: self.current_weight as int,
            effective_weight: self.effective_weight as nat,
        }
    }
}

impl<T: Hash + Eq + Clone> Clone for Node<T> {
    /// A copy with the same weight, down flag and counters, under a clone of
    /// the identifier.
    fn clone(&self) -> (copy: Self)
        ensures
            cloned::<T>(self@.id, copy@.id),
            copy@ == (NodeView { id: copy@.id, ..self@ }),
    {
        Node {
            id: self.id.clone(),
            weight: self.weight,
            down: self.down,
            current_weight: self.current_weight,
            effective_weight: self.effective_weight,
        }
    }
}

impl<T: Hash + Eq + Clone> Node<T> {
    /// Well-formedness of the stored value, see [`NodeView::wf`].
    pub open spec fn wf(&self) -> bool {
        self@.wf()
    }

    /// A node of weight one.
    pub fn new_with_default_weight(id: T) -> (node: Node<T>)
        ensures
            node@ == NodeView::fresh(id, 1),
            node.wf(),
    {
        Node { id, weight: 1, down: false, current_weight: 0, effective_weight: 1 }
    }

    /// A node of the given weight, which must be positive.
    pub fn new(id: T, weight: usize) -> (res: Result<Node<T>, InvalidParameterError>)
        ensures
            weight == 0 <==> res is Err,
            res matches Ok(node) ==> node@ == NodeView::fresh(id, weight as nat) && node.wf(),
    {
        if weight == 0 {
            return Err(InvalidParameterError);
        }
        Ok(Node { id, weight, down: false, current_weight: 0, effective_weight: weight })
    }

    /// The identifier of the node.
    pub fn get_id(&self) -> (id: &T)
        ensures
            *id == self@.id,
    {
        &self.id
    }

    /// The weight the node was made with.
    pub fn get_weight(&self) -> (weight: usize)
        ensures
            weight == self@.weight,
    {
        self.weight
    }

    /// Whether the node is marked as out of service.
    pub fn is_down(&self) -> (down: bool)
        ensures
            down == self@.down,
    {
        self.down
    }

    /// The selection counter of the node.
    pub(crate) fn current_weight(&self) -> (w: i128)
        ensures
            w == self@.current_weight,
    {
        self.current_weight
    }

    /// The weight the node currently takes part in a selection round with.
    pub(crate) fn effective_weight(&self) -> (w: usize)
        ensures
            w == self@.effective_weight,
    {
        self.effective_weight
    }

    /// Takes the node's turn in a selection round.
    pub(crate) fn bump(&mut self)
        requires
            old(self).wf(),
            old(self)@.current_weight + old(self)@.effective_weight <= i128::MAX,
        ensures
            final(self)@ == old(self)@.bumped(),
            final(self).wf(),
    {
        if !self.down {
            self.current_weight = self.current_weight + self.effective_weight as i128;
            if self.effective_weight < self.weight {
                self.effective_weight = self.effective_weight + 1;
            }
        }
    }

    /// Charges the selected node with the weight of the round.
    pub(crate) fn settle(&mut self, total: i128)
        requires
            old(self).wf(),
            i128::MIN <= old(self)@.current_weight - total <= i128::MAX,
        ensures
            final(self)@ == old(self)@.settled(total as int),
            final(self).wf(),
    {
        self.current_weight = self.current_weight - total;
    }

    /// Marks the node as out of service, or as back in service.
    pub(crate) fn set_down(&mut self, down: bool)
        ensures
            final(self)@ == old(self)@.with_down(down),
    {
        self.down = down;
    }
}

} // verus!
