use vstd::prelude::*;
use std::hash::Hash;
use crate::errors::{DuplicatedKeyError, NotFoundError};
use crate::identity::eq_is_identity;
use crate::node::{Node, NodeView};

verus! {

/// The abstract values of a sequence of nodes.
pub open spec fn views<T: Hash + Eq + Clone>(v: Seq<Node<T>>) -> Seq<NodeView<T>> {
    v.map_values(|n: Node<T>| n@)
}

/// Whether some node of `s` carries the identifier `id`.
pub open spec fn has_id<T>(s: Seq<NodeView<T>>, id: T) -> bool {
    exists|i: int| 0 <= i < s.len() && (#[trigger] s[i]).id == id
}

/// The position of the node that carries `id`; meaningful when `has_id(s, id)`.
pub open spec fn position_of<T>(s: Seq<NodeView<T>>, id: T) -> int {
    choose|i: int| 0 <= i < s.len() && (#[trigger] s[i]).id == id
}

/// Whether no identifier occurs twice in `s`.
pub open spec fn distinct_ids<T>(s: Seq<NodeView<T>>) -> bool {
    forall|i: int, j: int|
        0 <= i < s.len() && 0 <= j < s.len() && (#[trigger] s[i]).id == (#[trigger] s[j]).id ==> i == j
}

/// Every node is well formed and no identifier occurs twice.
pub open spec fn registry_wf<T>(s: Seq<NodeView<T>>) -> bool {
    &&& forall|i: int| 0 <= i < s.len() ==> (#[trigger] s[i]).wf()
    &&& distinct_ids(s)
}

/// `s` followed by those nodes of `added` whose identifier is not yet present,
/// taken in order: of several nodes with one identifier the first stays.
pub open spec fn with_new_nodes<T>(s: Seq<NodeView<T>>, added: Seq<NodeView<T>>) -> Seq<NodeView<T>>
    decreases added.len(),
{
    if added.len() == 0 {
        s
    } else if has_id(s, added[0].id) {
        with_new_nodes(s, added.drop_first())
    } else {
        with_new_nodes(s.push(added[0]), added.drop_first())
    }
}

/// Whether every node of `s` is down; true of the empty sequence.
pub open spec fn all_down<T>(s: Seq<NodeView<T>>) -> bool {
    forall|i: int| 0 <= i < s.len() ==> (#[trigger] s[i]).down
}

/// The least position in `lo..hi` whose node is up.
pub open spec fn first_up_in<T>(s: Seq<NodeView<T>>, lo: int, hi: int) -> Option<int>
    decreases hi - lo,
{
    if lo < 0 || hi > s.len() || lo >= hi {
        None
    } else if !s[lo].down {
        Some(lo)
    } else {
        first_up_in(s, lo + 1, hi)
    }
}

/// The first up node met when walking from `start` to the end and then from
/// the beginning up to `start`: one full round, each node visited once.
pub open spec fn first_up_from<T>(s: Seq<NodeView<T>>, start: int) -> Option<int> {
    match first_up_in(s, start, s.len() as int) {
        Some(i) => Some(i),
        None => first_up_in(s, 0, start),
    }
}

/// The node that a walk of one full round from `start` hands out.
pub open spec fn picked_from<T>(s: Seq<NodeView<T>>, start: int) -> Option<NodeView<T>> {
    match first_up_from(s, start) {
        Some(i) => Some(s[i]),
        None => None,
    }
}

/// What `first_up_in` finds is up and every node before it in the range is down;
/// it finds nothing only where the whole range is down.
pub proof fn lemma_first_up_in<T>(s: Seq<NodeView<T>>, lo: int, hi: int)
    requires
        0 <= lo <= hi <= s.len(),
    ensures
        match first_up_in(s, lo, hi) {
            Some(i) => lo <= i < hi && !s[i].down && forall|j: int| lo <= j < i ==> (#[trigger] s[j]).down,
            None => forall|j: int| lo <= j < hi ==> (#[trigger] s[j]).down,
        },
    decreases hi - lo,
{
    if lo < hi && s[lo].down {
        lemma_first_up_in(s, lo + 1, hi);
    }
}

/// A walk of one full round finds a node exactly when some node is up, and the
/// node it finds is up.
pub proof fn lemma_first_up_from<T>(s: Seq<NodeView<T>>, start: int)
    requires
        0 <= start <= s.len(),
    ensures
        first_up_from(s, start) is None <==> all_down(s),
        first_up_from(s, start) matches Some(i) ==> 0 <= i < s.len() && !s[i].down,
{
    lemma_first_up_in(s, start, s.len() as int);
    lemma_first_up_in(s, 0, start);
}

/// In a well-formed registry the node that carries an identifier stands at one place only.
pub proof fn lemma_position_unique<T>(s: Seq<NodeView<T>>, i: int)
    requires
        registry_wf(s),
        0 <= i < s.len(),
    ensures
        has_id(s, s[i].id),
        position_of(s, s[i].id) == i,
{
    let p = position_of(s, s[i].id);
    assert(0 <= p < s.len() && s[p].id == s[i].id);
}

/// Adding a node under a new identifier and removing it again leaves the
/// registry as it was, so that the identifier can be added once more.
pub proof fn lemma_insert_remove_round_trip<T>(s: Seq<NodeView<T>>, n: NodeView<T>)
    requires
        registry_wf(s),
        n.wf(),
        !has_id(s, n.id),
    ensures
        registry_wf(s.push(n)),
        has_id(s.push(n), n.id),
        position_of(s.push(n), n.id) == s.len(),
        s.push(n).remove(position_of(s.push(n), n.id)) == s,
{
    let grown = s.push(n);
    assert(grown[s.len() as int].id == n.id);
    assert forall|i: int, j: int|
        0 <= i < grown.len() && 0 <= j < grown.len() && (#[trigger] grown[i]).id == (#[trigger] grown[j]).id implies i
        == j by {
        if i < s.len() {
            assert(grown[i] == s[i]);
        }
        if j < s.len() {
            assert(grown[j] == s[j]);
        }
    }
    assert(grown.remove(s.len() as int) =~= s);
}

/// After a node was removed its identifier is free, and a node added under
/// it afterwards is stored as it was given: nothing of the removed node is
/// left, whatever its counters and its down flag were.
pub proof fn lemma_removed_id_is_free<T>(s: Seq<NodeView<T>>, id: T, n: NodeView<T>)
    requires
        registry_wf(s),
        has_id(s, id),
        n.wf(),
        n.id == id,
    ensures
        registry_wf(s.remove(position_of(s, id))),
        !has_id(s.remove(position_of(s, id)), id),
        registry_wf(s.remove(position_of(s, id)).push(n)),
        s.remove(position_of(s, id)).push(n).last() == n,
{
    let p = position_of(s, id);
    let rest = s.remove(p);
    assert forall|i: int| 0 <= i < rest.len() implies (#[trigger] rest[i]).id != id && rest[i].wf() by {
        if i < p {
            assert(rest[i] == s[i]);
        } else {
            assert(rest[i] == s[i + 1]);
        }
    }
    assert forall|i: int, j: int|
        0 <= i < rest.len() && 0 <= j < rest.len() && (#[trigger] rest[i]).id == (#[trigger] rest[j]).id implies i
        == j by {
        let si = if i < p {
            i
        } else {
            i + 1
        };
        let sj = if j < p {
            j
        } else {
            j + 1
        };
        assert(rest[i] == s[si] && rest[j] == s[sj]);
    }
    lemma_insert_remove_round_trip(rest, n);
}

/// Nodes in insertion order, each identifier at most once.
pub struct NodesContainer<T: Hash + Eq + Clone> {
    vec: Vec<Node<T>>,
}

impl<T: Hash + Eq + Clone> View for NodesContainer<T> {
    type V = Seq<NodeView<T>>;

    closed spec fn view(&self) -> Seq<NodeView<T>> {
        views(self.vec@)
    }
}

impl<T: Hash + Eq + Clone> NodesContainer<T> {
    /// The invariant of the registry, see [`registry_wf`].
    pub open spec fn wf(&self) -> bool {
        registry_wf(self@)
    }

    /// An empty registry.
    pub fn new() -> (c: NodesContainer<T>)
        ensures
            c@ == Seq::<NodeView<T>>::empty(),
            c.wf(),
    {
        let c = NodesContainer { vec: Vec::new() };
        assert(c@ =~= Seq::<NodeView<T>>::empty());
        c
    }

    /// A registry of `nodes` in their order; a node whose identifier came
    /// earlier in `nodes` is left out.
    pub fn from(nodes: Vec<Node<T>>) -> (c: NodesContainer<T>)
        requires
            eq_is_identity::<T>(),
        ensures
            c@ == with_new_nodes(Seq::empty(), views(nodes@)),
            (forall|i: int| 0 <= i < nodes@.len() ==> (#[trigger] nodes@[i]).wf()) ==> c.wf(),
    {
        let mut c = NodesContainer::new();
        let ghost all = views(nodes@);
        assert(all.skip(0) =~= all);
        for node in it: nodes.into_iter()
            invariant
                eq_is_identity::<T>(),
                it.seq() == nodes@,
                all == views(nodes@),
                with_new_nodes(c@, all.skip(it.index())) == with_new_nodes(Seq::empty(), all),
                (forall|i: int| 0 <= i < nodes@.len() ==> (#[trigger] nodes@[i]).wf()) ==> c.wf(),
        {
            proof {
                let rest = all.skip(it.index() as int);
                assert(rest[0] == node@);
                assert(rest.drop_first() =~= all.skip(it.index() + 1));
            }
            let _ = c.insert(node);
        }
        assert(all.skip(all.len() as int) =~= Seq::empty());
        c
    }

    /// A registry of exactly `nodes`, in their order; fails where two of them
    /// share an identifier.
    pub fn from_distinct(nodes: Vec<Node<T>>) -> (res: Result<NodesContainer<T>, DuplicatedKeyError>)
        requires
            eq_is_identity::<T>(),
        ensures
            res is Err <==> !distinct_ids(views(nodes@)),
            res matches Ok(c) ==> c@ == views(nodes@) && ((forall|i: int|
                0 <= i < nodes@.len() ==> (#[trigger] nodes@[i]).wf()) ==> c.wf()),
    {
        let mut c = NodesContainer::new();
        let ghost all = views(nodes@);
        assert(all.take(0) =~= Seq::<NodeView<T>>::empty());
        for node in it: nodes.into_iter()
            invariant
                eq_is_identity::<T>(),
                it.seq() == nodes@,
                all == views(nodes@),
                c@ == all.take(it.index() as int),
                distinct_ids(c@),
            ensures
                c@ == all,
        {
            let ghost i = it.index() as int;
            assert(all[i] == node@);
            assert(all.take(i + 1) =~= all.take(i).push(node@));
            match c.insert(node) {
                Err(e) => {
                    proof {
                        let j = choose|j: int| 0 <= j < i && (#[trigger] all.take(i)[j]).id == all[i].id;
                        assert(all[j].id == all[i].id);
                    }
                    return Err(e);
                },
                Ok(_) => {
                    assert forall|a: int, b: int|
                        0 <= a < c@.len() && 0 <= b < c@.len() && (#[trigger] c@[a]).id == (#[trigger] c@[b]).id implies a
                        == b by {
                        if a < i {
                            assert(c@[a] == all.take(i)[a]);
                        }
                        if b < i {
                            assert(c@[b] == all.take(i)[b]);
                        }
                    }
                },
            }
        }
        assert(all.take(all.len() as int) =~= all);
        Ok(c)
    }

    /// The number of registered nodes.
    pub fn len(&self) -> (n: usize)
        ensures
            n == self@.len(),
    {
        self.vec.len()
    }

    /// The first position whose node carries `id`.
    fn find(&self, id: &T) -> (r: Option<usize>)
        requires
            eq_is_identity::<T>(),
        ensures
            match r {
                Some(i) => i < self@.len() && self@[i as int].id == *id
                    && forall|j: int| 0 <= j < i ==> self@[j].id != *id,
                None => !has_id(self@, *id),
            },
    {
        let mut i: usize = 0;
        while i < self.vec.len()
            invariant
                i <= self.vec.len(),
                eq_is_identity::<T>(),
                forall|j: int| 0 <= j < i ==> self@[j].id != *id,
            decreases self.vec.len() - i,
        {
            if *self.vec[i].get_id() == *id {
                return Some(i);
            }
            i += 1;
        }
        None
    }

    /// The nodes in insertion order.
    pub fn get_all(&self) -> (all: Vec<&Node<T>>)
        ensures
            all@.len() == self@.len(),
            forall|i: int| 0 <= i < all@.len() ==> (#[trigger] all@[i])@ == self@[i],
    {
        let mut all: Vec<&Node<T>> = Vec::new();
        let mut i: usize = 0;
        while i < self.vec.len()
            invariant
                i <= self.vec.len(),
                all@.len() == i,
                forall|j: int| 0 <= j < i ==> (#[trigger] all@[j])@ == self@[j],
            decreases self.vec.len() - i,
        {
            all.push(&self.vec[i]);
            i += 1;
        }
        all
    }

    /// Appends `node` unless its identifier is already registered.
    pub fn insert(&mut self, node: Node<T>) -> (res: Result<(), DuplicatedKeyError>)
        requires
            eq_is_identity::<T>(),
        ensures
            res is Err <==> has_id(old(self)@, node@.id),
            res is Ok ==> final(self)@ == old(self)@.push(node@),
            res is Err ==> final(self)@ == old(self)@,
            old(self).wf() && node.wf() ==> final(self).wf(),
    {
        if self.find(node.get_id()).is_some() {
            return Err(DuplicatedKeyError);
        }
        self.vec.push(node);
        assert(self@ =~= old(self)@.push(node@));
        Ok(())
    }

    /// Removes the node that carries `id` and tells where it stood.
    pub fn remove(&mut self, id: &T) -> (res: Result<usize, NotFoundError>)
        requires
            eq_is_identity::<T>(),
            old(self).wf(),
        ensures
            res is Err <==> !has_id(old(self)@, *id),
            res is Err ==> final(self)@ == old(self)@,
            res matches Ok(i) ==> i == position_of(old(self)@, *id)
                && final(self)@ == old(self)@.remove(i as int),
            final(self).wf(),
    {
        match self.find(id) {
            None => Err(NotFoundError),
            Some(i) => {
                proof {
                    lemma_position_unique(self@, i as int);
                }
                self.vec.remove(i);
                assert(self@ =~= old(self)@.remove(i as int));
                Ok(i)
            },
        }
    }

    /// The node that carries `id`, if there is one.
    pub fn get_by_id(&self, id: &T) -> (r: Option<&Node<T>>)
        requires
            eq_is_identity::<T>(),
            self.wf(),
        ensures
            r is Some <==> has_id(self@, *id),
            r matches Some(n) ==> n@ == self@[position_of(self@, *id)],
    {
        match self.find(id) {
            None => None,
            Some(i) => {
                proof {
                    lemma_position_unique(self@, i as int);
                }
                Some(&self.vec[i])
            },
        }
    }

    /// Mutable access to the node that carries `id`, if there is one.
    pub fn get_mut_by_id(&mut self, id: &T) -> (r: Option<&mut Node<T>>)
        requires
            eq_is_identity::<T>(),
            old(self).wf(),
        ensures
            r is Some <==> has_id(old(self)@, *id),
            r is None ==> final(self)@ == old(self)@,
            r matches Some(n) ==> (*n)@ == old(self)@[position_of(old(self)@, *id)]
                && final(self)@ == old(self)@.update(
                position_of(old(self)@, *id),
                (*final(n))@,
            ),
    {
        match self.find(id) {
            None => None,
            Some(i) => {
                proof {
                    lemma_position_unique(self@, i as int);
                }
                Some(&mut self.vec[i])
            },
        }
    }

    /// Marks the node that carries `id` as out of service, or as back in service.
    pub fn set_down(&mut self, id: &T, down: bool) -> (res: Result<(), NotFoundError>)
        requires
            eq_is_identity::<T>(),
            old(self).wf(),
        ensures
            res is Err <==> !has_id(old(self)@, *id),
            res is Err ==> final(self)@ == old(self)@,
            res is Ok ==> final(self)@ == old(self)@.update(
                position_of(old(self)@, *id),
                old(self)@[position_of(old(self)@, *id)].with_down(down),
            ),
            final(self).wf(),
    {
        match self.find(id) {
            None => Err(NotFoundError),
            Some(i) => {
                proof {
                    lemma_position_unique(self@, i as int);
                }
                self.vec[i].set_down(down);
                assert(self@ =~= old(self)@.update(i as int, old(self)@[i as int].with_down(down)));
                Ok(())
            },
        }
    }

    /// Mutable access to the node at `index`.
    pub(crate) fn node_mut(&mut self, index: usize) -> (n: &mut Node<T>)
        requires
            index < old(self)@.len(),
        ensures
            (*n)@ == old(self)@[index as int],
            final(self)@ == old(self)@.update(index as int, (*final(n))@),
    {
        &mut self.vec[index]
    }

    /// The node at `index`.
    pub(crate) fn node(&self, index: usize) -> (n: &Node<T>)
        requires
            index < self@.len(),
        ensures
            n@ == self@[index as int],
    {
        &self.vec[index]
    }

    /// The position of the first up node in one round that starts at
    /// `start`; none where `start` lies beyond the end.
    pub fn first_up_from(&self, start: usize) -> (r: Option<usize>)
        ensures
            r is Some <==> first_up_from(self@, start as int) is Some,
            r matches Some(i) ==> first_up_from(self@, start as int) == Some(i as int),
    {
        let len = self.vec.len();
        if start > len {
            return None;
        }
        let mut i: usize = start;
        while i < len
            invariant
                start <= i <= len,
                len == self@.len(),
                first_up_in(self@, start as int, len as int) == first_up_in(self@, i as int, len as int),
            decreases len - i,
        {
            if !self.vec[i].is_down() {
                return Some(i);
            }
            i += 1;
        }
        let mut j: usize = 0;
        while j < start
            invariant
                j <= start <= len,
                len == self@.len(),
                first_up_in(self@, start as int, len as int) is None,
                first_up_in(self@, 0, start as int) == first_up_in(self@, j as int, start as int),
            decreases start - j,
        {
            if !self.vec[j].is_down() {
                return Some(j);
            }
            j += 1;
        }
        None
    }

    /// The node at `index`, if there is one.
    pub fn get_by_index(&self, index: usize) -> (r: Option<&Node<T>>)
        ensures
            index < self@.len() <==> r is Some,
            r matches Some(n) ==> n@ == self@[index as int],
    {
        if index < self.vec.len() {
            Some(&self.vec[index])
        } else {
            None
        }
    }

    /// Mutable access to the node at `index`, if there is one. The registry
    /// afterwards holds at that place whatever the caller leaves there.
    pub fn get_mut_by_index(&mut self, index: usize) -> (r: Option<&mut Node<T>>)
        ensures
            index < old(self)@.len() <==> r is Some,
            r is None ==> final(self)@ == old(self)@,
            r matches Some(n) ==> (*n)@ == old(self)@[index as int]
                && final(self)@ == old(self)@.update(index as int, (*final(n))@),
    {
        if index < self.vec.len() {
            Some(&mut self.vec[index])
        } else {
            None
        }
    }
}

} // verus!
