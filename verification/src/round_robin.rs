use vstd::prelude::*;
use std::hash::Hash;
use vstd::arithmetic::div_mod::{lemma_add_mod_noop, lemma_mod_bound, lemma_mod_self_0, lemma_small_mod};
use crate::balancer::Balancer;
use crate::errors::{DuplicatedKeyError, NotFoundError};
use crate::identity::eq_is_identity;
use crate::node::{Node, NodeView};
use crate::nodes::{
    distinct_ids, first_up_from, lemma_first_up_from, position_of, registry_wf, views, with_new_nodes,
    NodesContainer,
};

verus! {

/// Where the cursor stands after the node at `picked` was handed out.
pub open spec fn cursor_after_pick(picked: int, len: int) -> int {
    if picked + 1 >= len {
        0
    } else {
        picked + 1
    }
}

/// Where the cursor stands after the node at `removed` left a registry that
/// then holds `new_len` nodes.
pub open spec fn cursor_after_removal(cursor: int, removed: int, new_len: int) -> int {
    if removed < cursor {
        cursor - 1
    } else if removed == cursor && cursor >= new_len {
        0
    } else {
        cursor
    }
}

/// Where the cursor stands after `rounds` selections that began at `cursor`.
pub open spec fn cursor_after_rounds<T>(s: Seq<NodeView<T>>, cursor: int, rounds: nat) -> int
    decreases rounds,
{
    if rounds == 0 {
        cursor
    } else {
        let c = cursor_after_rounds(s, cursor, (rounds - 1) as nat);
        match first_up_from(s, c) {
            Some(i) => cursor_after_pick(i, s.len() as int),
            None => c,
        }
    }
}

/// The position handed out by the selection that follows `rounds` earlier
/// ones, the first of which began at `cursor`.
pub open spec fn pick_after_rounds<T>(s: Seq<NodeView<T>>, cursor: int, rounds: nat) -> Option<int> {
    first_up_from(s, cursor_after_rounds(s, cursor, rounds))
}

/// While every node is up and the registry is left alone, the selections go
/// through the nodes in insertion order and start over after the last: the
/// selection number `rounds` hands out the node `rounds` places behind the
/// cursor, counted round the registry. From a cursor at the beginning, any
/// run of as many selections as there are nodes visits each node once.
pub proof fn lemma_round_robin_order<T>(s: Seq<NodeView<T>>, cursor: int, rounds: nat)
    requires
        0 <= cursor < s.len(),
        forall|i: int| 0 <= i < s.len() ==> !(#[trigger] s[i]).down,
    ensures
        cursor_after_rounds(s, cursor, rounds) == (cursor + rounds) % (s.len() as int),
        pick_after_rounds(s, cursor, rounds) == Some((cursor + rounds) % (s.len() as int)),
    decreases rounds,
{
    let n = s.len() as int;
    if rounds == 0 {
        lemma_small_mod(cursor as nat, n as nat);
    } else {
        let before = (rounds - 1) as nat;
        lemma_round_robin_order(s, cursor, before);
        let c = (cursor + before) % n;
        lemma_mod_bound(cursor + before, n);
        assert(first_up_from(s, c) == Some(c));
        lemma_add_mod_noop(cursor + before, 1, n);
        if c + 1 >= n {
            if n == 1 {
                lemma_mod_bound(cursor + rounds, n);
            } else {
                lemma_small_mod(1, n as nat);
                lemma_mod_self_0(n);
            }
        } else {
            lemma_small_mod(1, n as nat);
            lemma_small_mod((c + 1) as nat, n as nat);
        }
    }
    lemma_mod_bound(cursor + rounds, n);
    let at = (cursor + rounds) % n;
    assert(first_up_from(s, at) == Some(at));
}

/// Adding a node and removing it again leaves the cursor where it stood.
pub proof fn lemma_round_trip_keeps_cursor(cursor: int, len: int)
    requires
        0 <= cursor,
        cursor < len || cursor == 0,
        0 <= len,
    ensures
        cursor_after_removal(cursor, len, len) == cursor,
{
}

/// Hands the up nodes out in insertion order, one after the other, and starts
/// over after the last.
pub struct RoundRobin<T: Hash + Eq + Clone> {
    nodes: NodesContainer<T>,
    index: usize,
}

impl<T: Hash + Eq + Clone> RoundRobin<T> {
    /// The position at which the next selection starts to look.
    pub closed spec fn cursor(&self) -> int {
        self.index as int
    }

    /// A round robin over `nodes`; of nodes with one identifier the first stays.
    pub fn new(nodes: Vec<Node<T>>) -> (b: RoundRobin<T>)
        requires
            eq_is_identity::<T>(),
        ensures
            b.nodes() == with_new_nodes(Seq::empty(), views(nodes@)),
            b.cursor() == 0,
            (forall|i: int| 0 <= i < nodes@.len() ==> (#[trigger] nodes@[i]).wf()) ==> b.wf(),
    {
        RoundRobin { nodes: NodesContainer::from(nodes), index: 0 }
    }

    /// A round robin over exactly `nodes`; fails where two of them share an
    /// identifier.
    pub fn try_new(nodes: Vec<Node<T>>) -> (res: Result<RoundRobin<T>, DuplicatedKeyError>)
        requires
            eq_is_identity::<T>(),
        ensures
            res is Err <==> !distinct_ids(views(nodes@)),
            res matches Ok(b) ==> b.nodes() == views(nodes@) && b.cursor() == 0 && ((forall|i: int|
                0 <= i < nodes@.len() ==> (#[trigger] nodes@[i]).wf()) ==> b.wf()),
    {
        match NodesContainer::from_distinct(nodes) {
            Err(e) => Err(e),
            Ok(nodes) => Ok(RoundRobin { nodes, index: 0 }),
        }
    }
}

impl<T: Hash + Eq + Clone> Balancer<T> for RoundRobin<T> {
    closed spec fn nodes(&self) -> Seq<NodeView<T>> {
        self.nodes@
    }

    open spec fn wf(&self) -> bool {
        &&& registry_wf(self.nodes())
        &&& 0 <= self.cursor()
        &&& self.cursor() < self.nodes().len() || self.cursor() == 0
    }

    proof fn lemma_wf_registry(&self) {
    }

    open spec fn within_limits(&self) -> bool {
        true
    }

    fn add_node(&mut self, node: Node<T>) -> (res: Result<(), DuplicatedKeyError>)
        ensures
            final(self).cursor() == old(self).cursor(),
    {
        self.nodes.insert(node)
    }

    fn remove_node(&mut self, id: &T) -> (res: Result<(), NotFoundError>)
        ensures
            res is Err ==> final(self).cursor() == old(self).cursor(),
            res is Ok ==> final(self).cursor() == cursor_after_removal(
                old(self).cursor(),
                position_of(old(self).nodes(), *id),
                final(self).nodes().len() as int,
            ),
    {
        match self.nodes.remove(id) {
            Err(e) => Err(e),
            Ok(removed) => {
                if removed < self.index {
                    self.index -= 1;
                } else if removed == self.index && self.index >= self.nodes.len() {
                    self.index = 0;
                }
                Ok(())
            },
        }
    }

    fn contains_id(&mut self, id: &T) -> (found: bool)
        ensures
            final(self).cursor() == old(self).cursor(),
    {
        self.nodes.get_by_id(id).is_some()
    }

    fn get_node(&self, id: &T) -> (r: Option<&Node<T>>) {
        self.nodes.get_by_id(id)
    }

    fn get_nodes(&self) -> (all: Vec<&Node<T>>) {
        self.nodes.get_all()
    }

    fn set_down(&mut self, id: &T, down: bool) -> (res: Result<(), NotFoundError>)
        ensures
            final(self).cursor() == old(self).cursor(),
    {
        self.nodes.set_down(id, down)
    }

    fn has_room(&self) -> (ok: bool) {
        true
    }

    fn next(&mut self) -> (r: Option<&Node<T>>)
        ensures
            final(self).nodes() == old(self).nodes(),
            match first_up_from(old(self).nodes(), old(self).cursor()) {
                Some(i) => r matches Some(n) && n@ == old(self).nodes()[i]
                    && final(self).cursor() == cursor_after_pick(i, old(self).nodes().len() as int),
                None => r is None && final(self).cursor() == old(self).cursor(),
            },
    {
        proof {
            lemma_first_up_from(self.nodes@, self.index as int);
        }
        match self.nodes.first_up_from(self.index) {
            None => None,
            Some(i) => {
                let len = self.nodes.len();
                self.index = if i + 1 >= len {
                    0
                } else {
                    i + 1
                };
                self.nodes.get_by_index(i)
            },
        }
    }

    fn next_id(&mut self) -> (r: Option<&T>)
        ensures
            final(self).nodes() == old(self).nodes(),
            match first_up_from(old(self).nodes(), old(self).cursor()) {
                Some(i) => r matches Some(id) && *id == old(self).nodes()[i].id
                    && final(self).cursor() == cursor_after_pick(i, old(self).nodes().len() as int),
                None => r is None && final(self).cursor() == old(self).cursor(),
            },
    {
        match self.next() {
            None => None,
            Some(n) => Some(n.get_id()),
        }
    }
}

} // verus!
