use vstd::prelude::*;
use vstd::std_specs::hash::DefaultHasherAdditionalSpecFns;
use std::collections::hash_map::DefaultHasher;
use std::hash::Hash;
use std::hash::Hasher;
use crate::errors::{DuplicatedKeyError, NotFoundError};
use crate::node::{Node, NodeView};
use crate::nodes::views;
use crate::ring::{
    first_reaching, lemma_first_reaching, lemma_removal_keeps_other_owners,
    lemma_with_slots_count, lemma_with_slots_sorted, lemma_with_slots_then_without,
    lemma_without_absent_owner, lemma_without_owner_count, lemma_without_owner_places,
    owned_count, owner_for, place_for, sorted, with_slot, with_slots, without_owner, Ring, SlotView,
};

verus! {

/// What hashing a string feeds to a hasher: the writes that
/// `<String as Hash>::hash` makes, in order.
pub uninterp spec fn hash_input(text: Seq<char>) -> Seq<Seq<u8>>;

/// The hash value of a string: what a fresh default hasher returns after the
/// string was fed to it.
pub open spec fn key_hash(text: Seq<char>) -> u64 {
    DefaultHasher::spec_finish(Seq::<Seq<u8>>::empty() + hash_input(text))
}

/// The decimal digit for a number below ten.
pub open spec fn digit(d: nat) -> char {
    seq!['0', '1', '2', '3', '4', '5', '6', '7', '8', '9'][d as int]
}

/// A number written in decimal, without sign or leading zeros.
pub open spec fn decimal(n: nat) -> Seq<char>
    decreases n,
{
    if n < 10 {
        seq![digit(n)]
    } else {
        decimal(n / 10).push(digit(n % 10))
    }
}

/// The text whose hash value places the replica number `i` of the node `id`:
/// the identifier, a hyphen and the number.
pub open spec fn replica_label(id: Seq<char>, i: nat) -> Seq<char> {
    id + seq!['-'] + decimal(i)
}

/// The hash value at which the replica number `i` of the node `id` stands;
/// the first replica stands at the hash value of the identifier itself.
pub open spec fn slot_key(id: Seq<char>, i: nat) -> u64 {
    if i == 0 {
        key_hash(id)
    } else {
        key_hash(replica_label(id, i))
    }
}

/// The hash values of the first `count` replicas of the node `id`.
pub open spec fn slot_keys(id: Seq<char>, count: nat) -> Seq<u64> {
    Seq::new(count, |i: int| slot_key(id, i as nat))
}

/// The number of places a node of the given weight gets: the weight times
/// the replication factor, and one where that is zero.
pub open spec fn replica_count(weight: nat, replicas: nat) -> nat {
    if weight * replicas == 0 {
        1
    } else {
        weight * replicas
    }
}

/// Whether some node of `s` carries the identifier with the text `name`.
pub open spec fn has_name(s: Seq<NodeView<String>>, name: Seq<char>) -> bool {
    exists|i: int| 0 <= i < s.len() && (#[trigger] s[i]).id@ == name
}

/// The position of the node called `name`; meaningful when `has_name(s, name)`.
pub open spec fn place_of_name(s: Seq<NodeView<String>>, name: Seq<char>) -> int {
    choose|i: int| 0 <= i < s.len() && (#[trigger] s[i]).id@ == name
}

/// Whether no two nodes of `s` carry identifiers with the same text.
pub open spec fn distinct_names(s: Seq<NodeView<String>>) -> bool {
    forall|i: int, j: int|
        0 <= i < s.len() && 0 <= j < s.len() && (#[trigger] s[i]).id@ == (#[trigger] s[j]).id@ ==> i == j
}

/// The abstract value of a [`ConsistentHashing`].
pub struct HashRingView {
    /// The places in the order of their hash values.
    pub ring: Seq<SlotView>,
    /// The registered nodes in the order in which they were added.
    pub nodes: Seq<NodeView<String>>,
    /// The number of places per unit of weight.
    pub replicas: nat,
}

impl HashRingView {
    /// A ring without nodes.
    pub open spec fn empty(replicas: nat) -> HashRingView {
        HashRingView { ring: Seq::empty(), nodes: Seq::empty(), replicas }
    }

    /// The invariant. The ring is sorted; the nodes are well formed and
    /// differ in their identifiers; every place belongs to a registered node;
    /// and each node owns as many places as its weight and the replication
    /// factor give it.
    pub open spec fn wf(self) -> bool {
        &&& sorted(self.ring)
        &&& forall|i: int| 0 <= i < self.nodes.len() ==> (#[trigger] self.nodes[i]).wf()
        &&& distinct_names(self.nodes)
        &&& forall|k: int| 0 <= k < self.ring.len() ==> has_name(self.nodes, (#[trigger] self.ring[k]).owner)
        &&& forall|i: int|
            0 <= i < self.nodes.len() ==> owned_count(self.ring, (#[trigger] self.nodes[i]).id@)
                == replica_count(self.nodes[i].weight, self.replicas)
    }

    /// The state after `node`, whose identifier is not yet registered, was added.
    pub open spec fn added(self, node: NodeView<String>) -> HashRingView {
        HashRingView {
            ring: with_slots(
                self.ring,
                node.id@,
                slot_keys(node.id@, replica_count(node.weight, self.replicas)),
            ),
            nodes: self.nodes.push(node),
            replicas: self.replicas,
        }
    }

    /// The state after the nodes of `nodes` were offered one by one; a node
    /// whose identifier is registered by then is passed over.
    pub open spec fn added_all(self, nodes: Seq<NodeView<String>>) -> HashRingView
        decreases nodes.len(),
    {
        if nodes.len() == 0 {
            self
        } else if has_name(self.nodes, nodes[0].id@) {
            self.added_all(nodes.drop_first())
        } else {
            self.added(nodes[0]).added_all(nodes.drop_first())
        }
    }

    /// The state after the down flag of the registered node called `name`
    /// was set: the ring is as before, so every key keeps its node.
    pub open spec fn flagged(self, name: Seq<char>, down: bool) -> HashRingView {
        HashRingView {
            ring: self.ring,
            nodes: self.nodes.update(
                place_of_name(self.nodes, name),
                self.nodes[place_of_name(self.nodes, name)].with_down(down),
            ),
            replicas: self.replicas,
        }
    }

    /// The state after the registered node called `name` was removed.
    pub open spec fn removed(self, name: Seq<char>) -> HashRingView {
        HashRingView {
            ring: without_owner(self.ring, name),
            nodes: self.nodes.remove(place_of_name(self.nodes, name)),
            replicas: self.replicas,
        }
    }

    /// The identifier of the node that answers for `key`.
    pub open spec fn owner_of(self, key: Seq<char>) -> Option<Seq<char>> {
        owner_for(self.ring, key_hash(key))
    }
}

/// Whether `owner` owns a place of `ring`.
pub open spec fn has_owner(ring: Seq<SlotView>, owner: Seq<char>) -> bool {
    exists|j: int| 0 <= j < ring.len() && (#[trigger] ring[j]).owner == owner
}

/// Every place of a ring that got places for one owner belongs to that owner
/// or to an owner that had a place before.
pub proof fn lemma_with_slots_owners(ring: Seq<SlotView>, owner: Seq<char>, hashes: Seq<u64>)
    ensures
        forall|k: int|
            0 <= k < with_slots(ring, owner, hashes).len() ==> (#[trigger] with_slots(
                ring,
                owner,
                hashes,
            )[k]).owner == owner || has_owner(ring, with_slots(ring, owner, hashes)[k].owner),
    decreases hashes.len(),
{
    if hashes.len() > 0 {
        let slot = SlotView { hash: hashes[0], owner };
        let grown = with_slot(ring, slot);
        let p = first_reaching(ring, slot.hash + 1, 0);
        lemma_first_reaching(ring, slot.hash + 1, 0);
        lemma_with_slots_owners(grown, owner, hashes.drop_first());
        let out = with_slots(ring, owner, hashes);
        assert forall|k: int| 0 <= k < out.len() implies (#[trigger] out[k]).owner == owner
            || has_owner(ring, out[k].owner) by {
            if out[k].owner != owner {
                assert(out[k] == with_slots(grown, owner, hashes.drop_first())[k]);
                assert(has_owner(grown, out[k].owner));
                let j = choose|j: int| 0 <= j < grown.len() && (#[trigger] grown[j]).owner == out[k].owner;
                if j < p {
                    assert(ring[j].owner == out[k].owner);
                } else {
                    assert(j > p);
                    assert(ring[j - 1].owner == out[k].owner);
                }
            }
        }
    } else {
        let out = with_slots(ring, owner, hashes);
        assert forall|k: int| 0 <= k < out.len() implies (#[trigger] out[k]).owner == owner
            || has_owner(ring, out[k].owner) by {
            assert(ring[k].owner == out[k].owner);
        }
    }
}

/// An owner that owns no place has the count zero.
pub proof fn lemma_absent_owner_count(ring: Seq<SlotView>, owner: Seq<char>)
    requires
        forall|k: int| 0 <= k < ring.len() ==> (#[trigger] ring[k]).owner != owner,
    ensures
        owned_count(ring, owner) == 0,
    decreases ring.len(),
{
    reveal(Seq::filter);
    if ring.len() > 0 {
        lemma_absent_owner_count(ring.drop_last(), owner);
    }
}

/// Adding a node whose identifier is new keeps the invariant.
pub proof fn lemma_added_wf(v: HashRingView, node: NodeView<String>)
    requires
        v.wf(),
        node.wf(),
        !has_name(v.nodes, node.id@),
    ensures
        v.added(node).wf(),
{
    let name = node.id@;
    let keys = slot_keys(name, replica_count(node.weight, v.replicas));
    let after = v.added(node);
    lemma_with_slots_sorted(v.ring, name, keys);
    lemma_with_slots_owners(v.ring, name, keys);
    assert(after.nodes[v.nodes.len() as int] == node);
    assert forall|k: int| 0 <= k < after.ring.len() implies has_name(
        after.nodes,
        (#[trigger] after.ring[k]).owner,
    ) by {
        if after.ring[k].owner == name {
            assert(after.nodes[v.nodes.len() as int].id@ == name);
        } else {
            assert(has_owner(v.ring, after.ring[k].owner));
            let j = choose|j: int| 0 <= j < v.ring.len() && (#[trigger] v.ring[j]).owner == after.ring[k].owner;
            assert(has_name(v.nodes, v.ring[j].owner));
            let i = place_of_name(v.nodes, v.ring[j].owner);
            assert(after.nodes[i] == v.nodes[i]);
        }
    }
    assert forall|i: int| 0 <= i < after.nodes.len() implies owned_count(
        after.ring,
        (#[trigger] after.nodes[i]).id@,
    ) == replica_count(after.nodes[i].weight, after.replicas) by {
        lemma_with_slots_count(v.ring, name, keys, after.nodes[i].id@);
        if i == v.nodes.len() {
            assert forall|k: int| 0 <= k < v.ring.len() implies (#[trigger] v.ring[k]).owner != name by {
                assert(has_name(v.nodes, v.ring[k].owner));
            }
            lemma_absent_owner_count(v.ring, name);
        } else {
            assert(after.nodes[i] == v.nodes[i]);
        }
    }
    assert forall|i: int, j: int|
        0 <= i < after.nodes.len() && 0 <= j < after.nodes.len() && (#[trigger] after.nodes[i]).id@ == (
        #[trigger] after.nodes[j]).id@ implies i == j by {
        if i < v.nodes.len() {
            assert(after.nodes[i] == v.nodes[i]);
        }
        if j < v.nodes.len() {
            assert(after.nodes[j] == v.nodes[j]);
        }
    }
}

/// Removing a registered node keeps the invariant, and the identifier is
/// free afterwards.
pub proof fn lemma_removed_wf(v: HashRingView, name: Seq<char>)
    requires
        v.wf(),
        has_name(v.nodes, name),
    ensures
        v.removed(name).wf(),
        !has_name(v.removed(name).nodes, name),
{
    let p = place_of_name(v.nodes, name);
    let after = v.removed(name);
    lemma_without_owner_places(v.ring, name);
    assert forall|i: int| 0 <= i < after.nodes.len() implies (#[trigger] after.nodes[i]).id@ != name
        && after.nodes[i].wf() && owned_count(after.ring, after.nodes[i].id@) == replica_count(
        after.nodes[i].weight,
        after.replicas,
    ) by {
        let src = if i < p {
            i
        } else {
            i + 1
        };
        assert(after.nodes[i] == v.nodes[src]);
        lemma_without_owner_count(v.ring, name, after.nodes[i].id@);
    }
    assert forall|i: int, j: int|
        0 <= i < after.nodes.len() && 0 <= j < after.nodes.len() && (#[trigger] after.nodes[i]).id@ == (
        #[trigger] after.nodes[j]).id@ implies i == j by {
        let si = if i < p {
            i
        } else {
            i + 1
        };
        let sj = if j < p {
            j
        } else {
            j + 1
        };
        assert(after.nodes[i] == v.nodes[si]);
        assert(after.nodes[j] == v.nodes[sj]);
    }
    assert forall|k: int| 0 <= k < after.ring.len() implies has_name(
        after.nodes,
        (#[trigger] after.ring[k]).owner,
    ) by {
        let j = choose|j: int| k <= j < v.ring.len() && v.ring[j] == after.ring[k];
        assert(has_name(v.nodes, v.ring[j].owner));
        let i = place_of_name(v.nodes, v.ring[j].owner);
        assert(i != p);
        if i < p {
            assert(after.nodes[i] == v.nodes[i]);
        } else {
            assert(after.nodes[i - 1] == v.nodes[i]);
        }
    }
}

/// Removing a node changes the answer only for keys that the node answered
/// for: a key that another node answered for keeps its node.
pub proof fn lemma_remove_keeps_other_keys(v: HashRingView, name: Seq<char>, key: Seq<char>)
    requires
        v.wf(),
        v.owner_of(key) is Some,
        v.owner_of(key) != Some(name),
    ensures
        v.removed(name).owner_of(key) == v.owner_of(key),
{
    lemma_removal_keeps_other_owners(v.ring, name, key_hash(key));
}

/// A node that was removed answers for no key any more, and whatever node
/// answers for a key is registered.
pub proof fn lemma_removed_node_answers_nothing(v: HashRingView, name: Seq<char>, key: Seq<char>)
    requires
        v.wf(),
        has_name(v.nodes, name),
    ensures
        v.removed(name).owner_of(key) != Some(name),
        v.removed(name).owner_of(key) matches Some(owner) ==> has_name(v.removed(name).nodes, owner),
{
    lemma_removed_wf(v, name);
    let after = v.removed(name);
    lemma_first_reaching(after.ring, key_hash(key) as int, 0);
    if after.ring.len() > 0 {
        let p = place_for(after.ring, key_hash(key)).unwrap();
        assert(has_name(after.nodes, after.ring[p].owner));
    }
}

/// Adding a node and removing it again leaves the state as it was, so that
/// the same identifier can be added once more and nothing of the earlier
/// node is left.
pub proof fn lemma_add_remove_round_trip(v: HashRingView, node: NodeView<String>)
    requires
        v.wf(),
        node.wf(),
        !has_name(v.nodes, node.id@),
    ensures
        has_name(v.added(node).nodes, node.id@),
        v.added(node).removed(node.id@) == v,
{
    let name = node.id@;
    let grown = v.added(node);
    let last = v.nodes.len() as int;
    assert(grown.nodes[last].id@ == name);
    lemma_added_wf(v, node);
    assert(place_of_name(grown.nodes, name) == last);
    assert(grown.nodes.remove(last) =~= v.nodes);
    lemma_with_slots_then_without(
        v.ring,
        name,
        slot_keys(name, replica_count(node.weight, v.replicas)),
    );
    assert forall|k: int| 0 <= k < v.ring.len() implies (#[trigger] v.ring[k]).owner != name by {
        assert(has_name(v.nodes, v.ring[k].owner));
    }
    lemma_without_absent_owner(v.ring, name);
}

/// Feeds `text` to `hasher`.
///
/// Calls `<String as Hash>::hash`. Assumed of it: the writes it makes depend
/// on the characters of the string alone, and they are made after those the
/// hasher has already taken.
#[verifier::external_body]
fn feed(hasher: &mut DefaultHasher, text: &String)
    ensures
        final(hasher)@ == old(hasher)@ + hash_input(text@),
{
    text.hash(hasher);
}

/// The text that places the replica number `i` of the node `id`.
///
/// Calls `format!` with an identifier and a number. Assumed of it: a string
/// is shown as it is, and an unsigned number in decimal without sign or
/// leading zeros.
#[verifier::external_body]
fn label_of(id: &String, i: u128) -> (label: String)
    ensures
        label@ == replica_label(id@, i as nat),
{
    format!("{}-{}", id, i)
}

/// A consistent hashing ring over nodes with string identifiers.
///
/// Each node owns a number of places on a ring of hash values. A key is
/// answered for by the node that owns the first place at or after the key's
/// hash value, and by the owner of the first place of all where there is
/// none. The down flag of a node has no effect here.
pub struct ConsistentHashing {
    nodes: Ring,
    user_nodes: Vec<Node<String>>,
    replicas: usize,
}

impl View for ConsistentHashing {
    type V = HashRingView;

    closed spec fn view(&self) -> HashRingView {
        HashRingView {
            ring: self.nodes@,
            nodes: views(self.user_nodes@),
            replicas: self.replicas as nat,
        }
    }
}

impl ConsistentHashing {
    /// The invariant of the ring, see [`HashRingView::wf`].
    pub open spec fn wf(&self) -> bool {
        self@.wf()
    }

    /// A ring with `replicas` places per unit of weight, to which the nodes of
    /// `nodes` are added one by one; a node whose identifier came earlier is
    /// passed over.
    pub fn new(nodes: Vec<Node<String>>, replicas: usize) -> (balancer: ConsistentHashing)
        requires
            forall|i: int| 0 <= i < nodes@.len() ==> (#[trigger] nodes@[i]).wf(),
        ensures
            balancer.wf(),
            balancer@ == HashRingView::empty(replicas as nat).added_all(views(nodes@)),
    {
        let mut balancer = ConsistentHashing { nodes: Ring::new(), user_nodes: Vec::new(), replicas };
        let ghost all = views(nodes@);
        let ghost start = balancer@;
        assert(start.nodes =~= Seq::empty());
        assert(start == HashRingView::empty(replicas as nat));
        assert(all.skip(0) =~= all);
        for node in it: nodes.into_iter()
            invariant
                it.seq() == nodes@,
                all == views(nodes@),
                forall|i: int| 0 <= i < nodes@.len() ==> (#[trigger] nodes@[i]).wf(),
                balancer.wf(),
                balancer@.added_all(all.skip(it.index() as int)) == start.added_all(all),
        {
            proof {
                let rest = all.skip(it.index() as int);
                assert(rest[0] == node@);
                assert(rest.drop_first() =~= all.skip(it.index() + 1));
                assert(nodes@[it.index() as int].wf());
            }
            let _ = balancer.add_node(node);
        }
        balancer
    }

    /// A ring with `replicas` places per unit of weight over exactly `nodes`;
    /// fails where two of them share an identifier.
    pub fn try_new(nodes: Vec<Node<String>>, replicas: usize) -> (res: Result<
        ConsistentHashing,
        DuplicatedKeyError,
    >)
        requires
            forall|i: int| 0 <= i < nodes@.len() ==> (#[trigger] nodes@[i]).wf(),
        ensures
            res is Err <==> !distinct_names(views(nodes@)),
            res matches Ok(balancer) ==> {
                &&& balancer.wf()
                &&& balancer@.nodes == views(nodes@)
                &&& balancer@ == HashRingView::empty(replicas as nat).added_all(views(nodes@))
            },
    {
        let mut balancer = ConsistentHashing { nodes: Ring::new(), user_nodes: Vec::new(), replicas };
        let ghost all = views(nodes@);
        let ghost start = balancer@;
        assert(start.nodes =~= Seq::empty());
        assert(start == HashRingView::empty(replicas as nat));
        assert(all.skip(0) =~= all);
        assert(all.take(0) =~= Seq::<NodeView<String>>::empty());
        for node in it: nodes.into_iter()
            invariant
                it.seq() == nodes@,
                all == views(nodes@),
                forall|i: int| 0 <= i < nodes@.len() ==> (#[trigger] nodes@[i]).wf(),
                balancer.wf(),
                balancer@.nodes == all.take(it.index() as int),
                balancer@.added_all(all.skip(it.index() as int)) == start.added_all(all),
        {
            let ghost i = it.index() as int;
            proof {
                let rest = all.skip(i);
                assert(rest[0] == node@);
                assert(rest.drop_first() =~= all.skip(i + 1));
                assert(nodes@[i].wf());
                assert(all.take(i + 1) =~= all.take(i).push(node@));
            }
            match balancer.add_node(node) {
                Err(e) => {
                    proof {
                        let j = choose|j: int| 0 <= j < i && (#[trigger] all.take(i)[j]).id@ == all[i].id@;
                        assert(all[j].id@ == all[i].id@);
                    }
                    return Err(e);
                },
                Ok(_) => {},
            }
        }
        assert(all.take(all.len() as int) =~= all);
        assert(all.skip(all.len() as int) =~= Seq::<NodeView<String>>::empty());
        Ok(balancer)
    }

    /// The number of places that `node` gets on this ring.
    pub fn replicas_of_node(&self, node: &Node<String>) -> (count: u128)
        ensures
            count == replica_count(node@.weight, self@.replicas),
    {
        let weight = node.get_weight();
        assert(0 <= weight * self.replicas <= 0xffff_ffff_ffff_ffff * 0xffff_ffff_ffff_ffff)
            by (nonlinear_arith)
            requires
                0 <= weight <= 0xffff_ffff_ffff_ffff,
                0 <= self.replicas <= 0xffff_ffff_ffff_ffff,
        ;
        let count: u128 = (weight as u128) * (self.replicas as u128);
        if count == 0 {
            1
        } else {
            count
        }
    }

    /// The hash value of `id`.
    pub fn hash(&self, id: &String) -> (h: u64)
        ensures
            h == key_hash(id@),
    {
        let mut hasher = DefaultHasher::new();
        feed(&mut hasher, id);
        hasher.finish()
    }

    /// The position of the node called `id`.
    fn find(&self, id: &String) -> (r: Option<usize>)
        ensures
            match r {
                Some(i) => i < self@.nodes.len() && self@.nodes[i as int].id@ == id@,
                None => !has_name(self@.nodes, id@),
            },
    {
        let mut i: usize = 0;
        while i < self.user_nodes.len()
            invariant
                i <= self.user_nodes.len(),
                forall|j: int| 0 <= j < i ==> (#[trigger] self@.nodes[j]).id@ != id@,
            decreases self.user_nodes.len() - i,
        {
            if *self.user_nodes[i].get_id() == *id {
                return Some(i);
            }
            i += 1;
        }
        None
    }

    /// Registers `node` and gives it its places, unless its identifier is taken.
    pub fn add_node(&mut self, node: Node<String>) -> (res: Result<(), DuplicatedKeyError>)
        requires
            old(self).wf(),
            node.wf(),
        ensures
            final(self).wf(),
            res is Err <==> has_name(old(self)@.nodes, node@.id@),
            res is Ok ==> final(self)@ == old(self)@.added(node@),
            res is Err ==> final(self)@ == old(self)@,
    {
        if self.find(node.get_id()).is_some() {
            return Err(DuplicatedKeyError);
        }
        let count = self.replicas_of_node(&node);
        let id = node.get_id().clone();
        let ghost keys = slot_keys(id@, count as nat);
        let ghost ring = self.nodes@;
        proof {
            lemma_added_wf(self@, node@);
            assert(keys.skip(0) =~= keys);
        }
        let mut i: u128 = 0;
        while i < count
            invariant
                i <= count,
                keys == slot_keys(id@, count as nat),
                self.nodes.wf(),
                with_slots(self.nodes@, id@, keys.skip(i as int)) == with_slots(ring, id@, keys),
                self.user_nodes == old(self).user_nodes,
                self.replicas == old(self).replicas,
            decreases count - i,
        {
            let key = if i == 0 {
                self.hash(&id)
            } else {
                let label = label_of(&id, i);
                self.hash(&label)
            };
            proof {
                let rest = keys.skip(i as int);
                assert(rest[0] == key);
                assert(rest.drop_first() =~= keys.skip(i + 1));
            }
            self.nodes.insert(key, id.clone());
            i += 1;
        }
        self.user_nodes.push(node);
        assert(self@.nodes =~= old(self)@.nodes.push(node@));
        Ok(())
    }

    /// Removes the node called `id` together with all its places.
    pub fn remove_node(&mut self, id: &String) -> (res: Result<(), NotFoundError>)
        requires
            old(self).wf(),
        ensures
            final(self).wf(),
            res is Err <==> !has_name(old(self)@.nodes, id@),
            res is Ok ==> final(self)@ == old(self)@.removed(id@),
            res is Err ==> final(self)@ == old(self)@,
    {
        match self.find(id) {
            None => Err(NotFoundError),
            Some(i) => {
                proof {
                    lemma_removed_wf(self@, id@);
                    assert(place_of_name(self@.nodes, id@) == i);
                }
                self.nodes.remove_owner(id);
                self.user_nodes.remove(i);
                assert(self@.nodes =~= old(self)@.nodes.remove(i as int));
                Ok(())
            },
        }
    }

    /// Marks the node called `id` as out of service, or as back in service.
    /// The ring takes no notice: a node that is down keeps its places and
    /// goes on answering for its keys.
    pub fn set_down(&mut self, id: &String, down: bool) -> (res: Result<(), NotFoundError>)
        requires
            old(self).wf(),
        ensures
            final(self).wf(),
            res is Err <==> !has_name(old(self)@.nodes, id@),
            res is Ok ==> final(self)@ == old(self)@.flagged(id@, down),
            res is Err ==> final(self)@ == old(self)@,
    {
        match self.find(id) {
            None => Err(NotFoundError),
            Some(i) => {
                assert(place_of_name(self@.nodes, id@) == i);
                self.user_nodes[i].set_down(down);
                proof {
                    let before = old(self)@;
                    let after = before.flagged(id@, down);
                    assert(self@.nodes =~= after.nodes);
                    assert forall|k: int| 0 <= k < after.ring.len() implies has_name(
                        after.nodes,
                        (#[trigger] after.ring[k]).owner,
                    ) by {
                        assert(has_name(before.nodes, before.ring[k].owner));
                        let j = place_of_name(before.nodes, before.ring[k].owner);
                        assert(after.nodes[j].id == before.nodes[j].id);
                    }
                    assert forall|a: int, b: int|
                        0 <= a < after.nodes.len() && 0 <= b < after.nodes.len() && (#[trigger] after.nodes[a]).id@
                            == (#[trigger] after.nodes[b]).id@ implies a == b by {
                        assert(after.nodes[a].id == before.nodes[a].id);
                        assert(after.nodes[b].id == before.nodes[b].id);
                    }
                    assert forall|a: int| 0 <= a < after.nodes.len() implies (#[trigger] after.nodes[a]).wf()
                        && owned_count(after.ring, after.nodes[a].id@) == replica_count(
                        after.nodes[a].weight,
                        after.replicas,
                    ) by {
                        assert(after.nodes[a].id == before.nodes[a].id);
                        assert(before.nodes[a].wf());
                    }
                }
                Ok(())
            },
        }
    }

    /// Whether a node is called `id`.
    pub fn contains_id(&mut self, id: &String) -> (found: bool)
        ensures
            final(self)@ == old(self)@,
            found == has_name(old(self)@.nodes, id@),
    {
        self.find(id).is_some()
    }

    /// The node called `id`, if there is one.
    pub fn get_node(&self, id: &String) -> (r: Option<&Node<String>>)
        requires
            self.wf(),
        ensures
            r is Some <==> has_name(self@.nodes, id@),
            r matches Some(n) ==> n@ == self@.nodes[place_of_name(self@.nodes, id@)],
    {
        match self.find(id) {
            None => None,
            Some(i) => {
                assert(place_of_name(self@.nodes, id@) == i);
                Some(&self.user_nodes[i])
            },
        }
    }

    /// The registered nodes in the order in which they were added.
    pub fn get_nodes(&self) -> (all: Vec<&Node<String>>)
        ensures
            all@.len() == self@.nodes.len(),
            forall|i: int| 0 <= i < all@.len() ==> (#[trigger] all@[i])@ == self@.nodes[i],
    {
        let mut all: Vec<&Node<String>> = Vec::new();
        let mut i: usize = 0;
        while i < self.user_nodes.len()
            invariant
                i <= self.user_nodes.len(),
                all@.len() == i,
                forall|j: int| 0 <= j < i ==> (#[trigger] all@[j])@ == self@.nodes[j],
            decreases self.user_nodes.len() - i,
        {
            all.push(&self.user_nodes[i]);
            i += 1;
        }
        all
    }

    /// The node that answers for the key `request`; none on an empty ring.
    pub fn get_matching_node(&self, request: String) -> (r: Option<&Node<String>>)
        requires
            self.wf(),
        ensures
            match self@.owner_of(request@) {
                Some(owner) => r matches Some(n) && n@.id@ == owner && n@ == self@.nodes[place_of_name(
                    self@.nodes,
                    owner,
                )],
                None => r is None,
            },
            r is None <==> self@.ring.len() == 0,
    {
        let key = self.hash(&request);
        match self.nodes.lookup(key) {
            None => None,
            Some(owner) => {
                proof {
                    let p = place_for(self@.ring, key).unwrap();
                    lemma_first_reaching(self@.ring, key as int, 0);
                    assert(has_name(self@.nodes, self@.ring[p].owner));
                }
                self.get_node(owner)
            },
        }
    }

    /// The identifier of the node that answers for the key `request`.
    pub fn get_matching_node_id(&self, request: String) -> (r: Option<&String>)
        requires
            self.wf(),
        ensures
            match self@.owner_of(request@) {
                Some(owner) => r matches Some(id) && id@ == owner,
                None => r is None,
            },
            r is None <==> self@.ring.len() == 0,
    {
        match self.get_matching_node(request) {
            None => None,
            Some(n) => Some(n.get_id()),
        }
    }
}

} // verus!
