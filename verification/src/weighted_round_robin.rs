use vstd::prelude::*;
use std::hash::Hash;
use crate::balancer::{same_members, Balancer};
use crate::errors::{DuplicatedKeyError, NotFoundError};
use crate::identity::eq_is_identity;
use crate::node::{Node, NodeView};
use crate::nodes::{
    all_down, distinct_ids, registry_wf, views, with_new_nodes, NodesContainer,
};

verus! {

/// The sum of the effective weights of the up nodes of `s`.
pub open spec fn total_weight<T>(s: Seq<NodeView<T>>) -> int
    decreases s.len(),
{
    if s.len() == 0 {
        0
    } else if s.last().down {
        total_weight(s.drop_last())
    } else {
        total_weight(s.drop_last()) + s.last().effective_weight
    }
}

/// Every node after its turn in a selection round.
pub open spec fn bumped_all<T>(s: Seq<NodeView<T>>) -> Seq<NodeView<T>> {
    s.map_values(|n: NodeView<T>| n.bumped())
}

/// Whether the node at `w` is up and leads the first `upto` nodes of `s`: no
/// up node among them has a greater current weight, and none before `w` has
/// an equal one.
pub open spec fn leads<T>(s: Seq<NodeView<T>>, w: int, upto: int) -> bool {
    &&& 0 <= w < upto <= s.len()
    &&& !s[w].down
    &&& forall|j: int| 0 <= j < upto && !(#[trigger] s[j]).down ==> s[j].current_weight <= s[w].current_weight
    &&& forall|j: int| 0 <= j < w && !(#[trigger] s[j]).down ==> s[j].current_weight < s[w].current_weight
}

/// The position that a selection round over `s` picks: after every up node
/// took its turn, the up node with the greatest current weight, the first of
/// them where several have it. Nothing is picked where no node is up.
pub open spec fn selected<T>(s: Seq<NodeView<T>>) -> Option<int> {
    if all_down(s) {
        None
    } else {
        Some(choose|w: int| leads(bumped_all(s), w, s.len() as int))
    }
}

/// The registry after a selection round: every up node took its turn, and the
/// picked node was charged with the total weight of the round.
pub open spec fn after_selection<T>(s: Seq<NodeView<T>>) -> Seq<NodeView<T>> {
    match selected(s) {
        None => s,
        Some(w) => bumped_all(s).update(w, bumped_all(s)[w].settled(total_weight(s))),
    }
}

/// Whether one selection round over `s` stays within the range of the counters.
pub open spec fn round_fits<T>(s: Seq<NodeView<T>>) -> bool {
    &&& total_weight(s) <= i128::MAX
    &&& forall|i: int|
        0 <= i < s.len() && !(#[trigger] s[i]).down ==> s[i].current_weight + s[i].effective_weight
            <= i128::MAX
    &&& forall|w: int|
        leads(bumped_all(s), w, s.len() as int) ==> bumped_all(s)[w].current_weight - total_weight(s)
            >= i128::MIN
}

/// At most one node leads a given range.
pub proof fn lemma_leader_unique<T>(s: Seq<NodeView<T>>, a: int, b: int, upto: int)
    requires
        leads(s, a, upto),
        leads(s, b, upto),
    ensures
        a == b,
{
    if a < b {
        assert(s[a].current_weight < s[b].current_weight);
    } else if b < a {
        assert(s[b].current_weight < s[a].current_weight);
    }
}

/// The weight of a prefix does not exceed the weight of the whole.
pub proof fn lemma_total_weight_prefix<T>(s: Seq<NodeView<T>>, i: int)
    requires
        0 <= i <= s.len(),
    ensures
        0 <= total_weight(s.take(i)) <= total_weight(s),
    decreases s.len() - i,
{
    if i == s.len() {
        assert(s.take(i) =~= s);
        lemma_total_weight_nonnegative(s);
    } else {
        lemma_total_weight_prefix(s, i + 1);
        lemma_total_weight_nonnegative(s.take(i));
        assert(s.take(i + 1).drop_last() =~= s.take(i));
    }
}

/// The weight of a registry is not negative.
pub proof fn lemma_total_weight_nonnegative<T>(s: Seq<NodeView<T>>)
    ensures
        0 <= total_weight(s),
    decreases s.len(),
{
    if s.len() > 0 {
        lemma_total_weight_nonnegative(s.drop_last());
    }
}

/// Where some node among the first `upto` is up, one of them leads.
pub proof fn lemma_leader_exists<T>(s: Seq<NodeView<T>>, upto: int)
    requires
        0 <= upto <= s.len(),
        exists|j: int| 0 <= j < upto && !(#[trigger] s[j]).down,
    ensures
        exists|w: int| leads(s, w, upto),
    decreases upto,
{
    let last = upto - 1;
    if exists|j: int| 0 <= j < last && !(#[trigger] s[j]).down {
        lemma_leader_exists(s, last);
        let w = choose|w: int| leads(s, w, last);
        if !s[last].down && s[w].current_weight < s[last].current_weight {
            assert(leads(s, last, upto));
        } else {
            assert(leads(s, w, upto));
        }
    } else {
        assert(leads(s, last, upto));
    }
}

/// A selection round picks a node exactly when some node is up, the node it
/// picks is up, and the round changes no identifier, weight or down flag.
pub proof fn lemma_selection_round<T>(s: Seq<NodeView<T>>)
    ensures
        selected(s) is None <==> all_down(s),
        selected(s) matches Some(w) ==> leads(bumped_all(s), w, s.len() as int) && !s[w].down,
        same_members(s, after_selection(s)),
{
    if !all_down(s) {
        let j = choose|j: int| 0 <= j < s.len() && !(#[trigger] s[j]).down;
        assert(!bumped_all(s)[j].down);
        lemma_leader_exists(bumped_all(s), s.len() as int);
    }
}

/// Smooth weighted round robin: over a window as long as the sum of the
/// weights each node is picked in proportion to its weight, and the picks of
/// one node are spread out rather than bunched.
pub struct WeightedRoundRobin<T: Hash + Eq + Clone> {
    nodes: NodesContainer<T>,
}

impl<T: Hash + Eq + Clone> WeightedRoundRobin<T> {
    /// A balancer over `nodes`; of nodes with one identifier the first stays.
    pub fn new(nodes: Vec<Node<T>>) -> (b: WeightedRoundRobin<T>)
        requires
            eq_is_identity::<T>(),
        ensures
            b.nodes() == with_new_nodes(Seq::empty(), views(nodes@)),
            (forall|i: int| 0 <= i < nodes@.len() ==> (#[trigger] nodes@[i]).wf()) ==> b.wf(),
    {
        WeightedRoundRobin { nodes: NodesContainer::from(nodes) }
    }

    /// Runs one selection round and tells the position of the picked node.
    fn select(&mut self) -> (r: Option<usize>)
        requires
            old(self).wf(),
            old(self).within_limits(),
        ensures
            final(self).wf(),
            final(self).nodes() == after_selection(old(self).nodes()),
            r is None <==> selected(old(self).nodes()) is None,
            r matches Some(w) ==> selected(old(self).nodes()) == Some(w as int) && w < final(self).nodes().len(),
    {
        let ghost before = self.nodes@;
        let ghost after = bumped_all(before);
        let len = self.nodes.len();
        let mut total: i128 = 0;
        let mut best: Option<usize> = None;
        let mut i: usize = 0;
        while i < len
            invariant
                i <= len,
                len == before.len(),
                after == bumped_all(before),
                registry_wf(before),
                round_fits(before),
                self.nodes@.len() == len,
                forall|j: int| 0 <= j < i ==> (#[trigger] self.nodes@[j]) == after[j],
                forall|j: int| i <= j < len ==> (#[trigger] self.nodes@[j]) == before[j],
                forall|j: int| 0 <= j < len ==> (#[trigger] self.nodes@[j]).wf(),
                total == total_weight(before.take(i as int)),
                best is None ==> forall|j: int| 0 <= j < i ==> (#[trigger] before[j]).down,
                best matches Some(w) ==> leads(after, w as int, i as int),
            decreases len - i,
        {
            proof {
                lemma_total_weight_prefix(before, i as int + 1);
                assert(before.take(i as int + 1).drop_last() =~= before.take(i as int));
            }
            if !self.nodes.node(i).is_down() {
                total = total + self.nodes.node(i).effective_weight() as i128;
                self.nodes.node_mut(i).bump();
                let weight = self.nodes.node(i).current_weight();
                let ahead = match best {
                    None => true,
                    Some(w) => self.nodes.node(w).current_weight() < weight,
                };
                if ahead {
                    best = Some(i);
                }
            }
            i += 1;
        }
        proof {
            assert(before.take(len as int) =~= before);
        }
        match best {
            None => {
                assert(all_down(before));
                assert(self.nodes@ =~= before);
                None
            },
            Some(w) => {
                proof {
                    assert(!before[w as int].down);
                    let c = choose|c: int| leads(after, c, len as int);
                    lemma_leader_unique(after, c, w as int, len as int);
                }
                proof {
                    lemma_total_weight_nonnegative(before);
                    assert(self.nodes@[w as int] == after[w as int]);
                }
                self.nodes.node_mut(w).settle(total);
                assert(self.nodes@ =~= after_selection(before));
                assert(registry_wf(self.nodes@));
                Some(w)
            },
        }
    }

    /// A balancer over exactly `nodes`; fails where two of them share an
    /// identifier.
    pub fn try_new(nodes: Vec<Node<T>>) -> (res: Result<WeightedRoundRobin<T>, DuplicatedKeyError>)
        requires
            eq_is_identity::<T>(),
        ensures
            res is Err <==> !distinct_ids(views(nodes@)),
            res matches Ok(b) ==> b.nodes() == views(nodes@) && ((forall|i: int|
                0 <= i < nodes@.len() ==> (#[trigger] nodes@[i]).wf()) ==> b.wf()),
    {
        match NodesContainer::from_distinct(nodes) {
            Err(e) => Err(e),
            Ok(nodes) => Ok(WeightedRoundRobin { nodes }),
        }
    }
}

impl<T: Hash + Eq + Clone> Balancer<T> for WeightedRoundRobin<T> {
    closed spec fn nodes(&self) -> Seq<NodeView<T>> {
        self.nodes@
    }

    open spec fn wf(&self) -> bool {
        registry_wf(self.nodes())
    }

    proof fn lemma_wf_registry(&self) {
    }

    open spec fn within_limits(&self) -> bool {
        round_fits(self.nodes())
    }

    fn add_node(&mut self, node: Node<T>) -> (res: Result<(), DuplicatedKeyError>) {
        self.nodes.insert(node)
    }

    fn remove_node(&mut self, id: &T) -> (res: Result<(), NotFoundError>) {
        match self.nodes.remove(id) {
            Err(e) => Err(e),
            Ok(_) => Ok(()),
        }
    }

    fn contains_id(&mut self, id: &T) -> (found: bool) {
        self.nodes.get_by_id(id).is_some()
    }

    fn get_node(&self, id: &T) -> (r: Option<&Node<T>>) {
        self.nodes.get_by_id(id)
    }

    fn get_nodes(&self) -> (all: Vec<&Node<T>>) {
        self.nodes.get_all()
    }

    fn set_down(&mut self, id: &T, down: bool) -> (res: Result<(), NotFoundError>) {
        self.nodes.set_down(id, down)
    }

    fn has_room(&self) -> (ok: bool) {
        let ghost before = self.nodes@;
        let ghost after = bumped_all(before);
        let len = self.nodes.len();
        let mut total: i128 = 0;
        let mut best: Option<i128> = None;
        let ghost mut leader: int = 0;
        let mut i: usize = 0;
        while i < len
            invariant
                i <= len,
                len == before.len(),
                before == self.nodes@,
                after == bumped_all(before),
                registry_wf(before),
                total == total_weight(before.take(i as int)),
                forall|j: int|
                    0 <= j < i && !(#[trigger] before[j]).down ==> before[j].current_weight
                        + before[j].effective_weight <= i128::MAX,
                best is None ==> forall|j: int| 0 <= j < i ==> (#[trigger] before[j]).down,
                best matches Some(b) ==> leads(after, leader, i as int) && after[leader].current_weight == b,
            decreases len - i,
        {
            proof {
                lemma_total_weight_prefix(before, i as int + 1);
                lemma_total_weight_prefix(before, i as int);
                assert(before.take(i as int + 1).drop_last() =~= before.take(i as int));
            }
            let node = self.nodes.node(i);
            if !node.is_down() {
                let weight = node.effective_weight() as i128;
                if total > i128::MAX - weight {
                    return false;
                }
                total = total + weight;
                let current = node.current_weight();
                if current > i128::MAX - weight {
                    return false;
                }
                let bumped = current + weight;
                let ahead = match best {
                    None => true,
                    Some(b) => b < bumped,
                };
                if ahead {
                    best = Some(bumped);
                    proof {
                        leader = i as int;
                    }
                }
            }
            i += 1;
        }
        proof {
            assert(before.take(len as int) =~= before);
        }
        match best {
            None => {
                assert forall|w: int| leads(after, w, len as int) implies after[w].current_weight
                    - total_weight(before) >= i128::MIN by {
                    assert(before[w].down);
                }
                true
            },
            Some(b) => {
                proof {
                    lemma_total_weight_nonnegative(before);
                    assert forall|w: int| leads(after, w, len as int) implies w == leader by {
                        lemma_leader_unique(after, w, leader, len as int);
                    }
                }
                b >= i128::MIN + total
            },
        }
    }

    fn next(&mut self) -> (r: Option<&Node<T>>)
        ensures
            final(self).nodes() == after_selection(old(self).nodes()),
            match selected(old(self).nodes()) {
                Some(w) => r matches Some(n) && n@ == final(self).nodes()[w],
                None => r is None,
            },
    {
        proof {
            lemma_selection_round(self.nodes@);
        }
        match self.select() {
            None => None,
            Some(w) => self.nodes.get_by_index(w),
        }
    }

    fn next_id(&mut self) -> (r: Option<&T>)
        ensures
            final(self).nodes() == after_selection(old(self).nodes()),
            match selected(old(self).nodes()) {
                Some(w) => r matches Some(id) && *id == old(self).nodes()[w].id,
                None => r is None,
            },
    {
        proof {
            lemma_selection_round(self.nodes@);
        }
        match self.next() {
            None => None,
            Some(n) => Some(n.get_id()),
        }
    }
}

} // verus!
