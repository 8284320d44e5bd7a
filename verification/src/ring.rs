use vstd::prelude::*;

verus! {

/// The abstract value of one place on the ring: a hash value and the
/// identifier of the node that owns it.
pub struct SlotView {
    pub hash: u64,
    pub owner: Seq<char>,
}

/// One place on the ring.
pub struct Slot {
    hash: u64,
    owner: String,
}

impl View for Slot {
    type V = SlotView;

    closed spec fn view(&self) -> SlotView {
        SlotView { hash: self.hash, owner: self.owner@ }
    }
}

/// Whether the hash values of `ring` never fall from one place to the next.
pub open spec fn sorted(ring: Seq<SlotView>) -> bool {
    forall|i: int, j: int| 0 <= i <= j < ring.len() ==> (#[trigger] ring[i]).hash <= (#[trigger] ring[j]).hash
}

/// The first place at or after `from` whose hash value is at least `bound`;
/// the length of the ring where there is none.
pub open spec fn first_reaching(ring: Seq<SlotView>, bound: int, from: int) -> int
    decreases ring.len() - from,
{
    if from < 0 || from >= ring.len() {
        ring.len() as int
    } else if ring[from].hash >= bound {
        from
    } else {
        first_reaching(ring, bound, from + 1)
    }
}

/// The place that answers for the hash value `h`: the first one whose hash
/// value is not below `h`, and the first place of all where `h` lies beyond
/// the last. An empty ring answers for nothing.
pub open spec fn place_for(ring: Seq<SlotView>, h: u64) -> Option<int> {
    if ring.len() == 0 {
        None
    } else if first_reaching(ring, h as int, 0) < ring.len() {
        Some(first_reaching(ring, h as int, 0))
    } else {
        Some(0)
    }
}

/// The identifier of the node that answers for the hash value `h`.
pub open spec fn owner_for(ring: Seq<SlotView>, h: u64) -> Option<Seq<char>> {
    match place_for(ring, h) {
        Some(i) => Some(ring[i].owner),
        None => None,
    }
}

/// The ring with `slot` put behind every place whose hash value is not
/// greater: among equal hash values the earlier arrival stays in front.
pub open spec fn with_slot(ring: Seq<SlotView>, slot: SlotView) -> Seq<SlotView> {
    ring.insert(first_reaching(ring, slot.hash + 1, 0), slot)
}

/// The ring after `owner` got a place at each of `hashes`, put on one by one.
pub open spec fn with_slots(ring: Seq<SlotView>, owner: Seq<char>, hashes: Seq<u64>) -> Seq<SlotView>
    decreases hashes.len(),
{
    if hashes.len() == 0 {
        ring
    } else {
        with_slots(
            with_slot(ring, SlotView { hash: hashes[0], owner }),
            owner,
            hashes.drop_first(),
        )
    }
}

/// The ring without the places that `owner` owns.
pub open spec fn without_owner(ring: Seq<SlotView>, owner: Seq<char>) -> Seq<SlotView> {
    ring.filter(|s: SlotView| s.owner != owner)
}

/// The number of places that `owner` owns.
pub open spec fn owned_count(ring: Seq<SlotView>, owner: Seq<char>) -> nat {
    ring.filter(|s: SlotView| s.owner == owner).len()
}

/// `first_reaching` returns a place in range, every place it passed lies
/// below the bound, and the place it stops at reaches the bound.
pub proof fn lemma_first_reaching(ring: Seq<SlotView>, bound: int, from: int)
    requires
        0 <= from <= ring.len(),
    ensures
        from <= first_reaching(ring, bound, from) <= ring.len(),
        forall|i: int| from <= i < first_reaching(ring, bound, from) ==> (#[trigger] ring[i]).hash < bound,
        first_reaching(ring, bound, from) < ring.len() ==> ring[first_reaching(ring, bound, from)].hash
            >= bound,
    decreases ring.len() - from,
{
    if from < ring.len() && ring[from].hash < bound {
        lemma_first_reaching(ring, bound, from + 1);
    }
}

/// A place that every earlier place lies below the bound of, and that itself
/// reaches the bound or is the end, is the one `first_reaching` returns.
pub proof fn lemma_first_reaching_is(ring: Seq<SlotView>, bound: int, p: int)
    requires
        0 <= p <= ring.len(),
        forall|i: int| 0 <= i < p ==> (#[trigger] ring[i]).hash < bound,
        p < ring.len() ==> ring[p].hash >= bound,
    ensures
        first_reaching(ring, bound, 0) == p,
{
    lemma_first_reaching(ring, bound, 0);
    let q = first_reaching(ring, bound, 0);
    if q < p {
        assert(ring[q].hash < bound);
    } else if p < q {
        assert(ring[p].hash < bound);
    }
}

/// Putting a slot on a sorted ring leaves it sorted.
pub proof fn lemma_with_slot_sorted(ring: Seq<SlotView>, slot: SlotView)
    requires
        sorted(ring),
    ensures
        sorted(with_slot(ring, slot)),
{
    let p = first_reaching(ring, slot.hash + 1, 0);
    lemma_first_reaching(ring, slot.hash + 1, 0);
    let r = with_slot(ring, slot);
    assert forall|i: int, j: int| 0 <= i <= j < r.len() implies (#[trigger] r[i]).hash <= (#[trigger] r[j]).hash by {
        if j < p {
            assert(r[i] == ring[i] && r[j] == ring[j]);
        } else if i > p {
            assert(r[i] == ring[i - 1] && r[j] == ring[j - 1]);
        } else if i < p && j > p {
            assert(r[i] == ring[i] && r[j] == ring[j - 1]);
        } else if i < p {
            assert(r[i] == ring[i]);
        } else if j > p {
            assert(r[j] == ring[j - 1]);
            assert(ring[p].hash <= ring[j - 1].hash);
        }
    }
}

/// Every place that stays when an owner leaves stood on the ring before,
/// owned by another, and the places that stay keep their order.
pub proof fn lemma_without_owner_places(ring: Seq<SlotView>, owner: Seq<char>)
    ensures
        without_owner(ring, owner).len() <= ring.len(),
        forall|k: int|
            0 <= k < without_owner(ring, owner).len() ==> (#[trigger] without_owner(ring, owner)[k]).owner
                != owner,
        forall|k: int|
            0 <= k < without_owner(ring, owner).len() ==> exists|j: int|
                k <= j < ring.len() && ring[j] == #[trigger] without_owner(ring, owner)[k],
        sorted(ring) ==> sorted(without_owner(ring, owner)),
    decreases ring.len(),
{
    reveal(Seq::filter);
    let keep = |s: SlotView| s.owner != owner;
    let out = ring.filter(keep);
    if ring.len() > 0 {
        let head = ring.drop_last();
        lemma_without_owner_places(head, owner);
        let sub = head.filter(keep);
        assert forall|k: int| 0 <= k < out.len() implies exists|j: int|
            k <= j < ring.len() && ring[j] == #[trigger] out[k] by {
            if k < sub.len() {
                let j = choose|j: int| k <= j < head.len() && head[j] == sub[k];
                assert(ring[j] == out[k]);
            } else {
                assert(ring[ring.len() - 1] == out[k]);
            }
        }
        if sorted(ring) {
            assert(sorted(head));
            assert forall|a: int, b: int| 0 <= a <= b < out.len() implies (#[trigger] out[a]).hash <= (
            #[trigger] out[b]).hash by {
                if b < sub.len() {
                    assert(out[a] == sub[a] && out[b] == sub[b]);
                } else if a < sub.len() {
                    let j = choose|j: int| a <= j < head.len() && head[j] == sub[a];
                    assert(ring[j].hash <= ring[ring.len() - 1].hash);
                }
            }
        }
    }
}

/// Taking an owner off a sorted ring leaves it sorted.
pub proof fn lemma_without_owner_sorted(ring: Seq<SlotView>, owner: Seq<char>)
    requires
        sorted(ring),
    ensures
        sorted(without_owner(ring, owner)),
{
    lemma_without_owner_places(ring, owner);
}

/// A ring cut in two at `p` and filtered is the two parts filtered and joined.
proof fn lemma_filter_split(ring: Seq<SlotView>, p: int, pred: spec_fn(SlotView) -> bool)
    requires
        0 <= p <= ring.len(),
    ensures
        ring.filter(pred) == ring.take(p).filter(pred) + ring.skip(p).filter(pred),
{
    assert(ring =~= ring.take(p) + ring.skip(p));
    Seq::filter_distributes_over_add(ring.take(p), ring.skip(p), pred);
}

/// Filtering a ring that got one more slot: the slot appears in the result
/// exactly when it passes.
proof fn lemma_filter_insert(ring: Seq<SlotView>, p: int, slot: SlotView, pred: spec_fn(SlotView) -> bool)
    requires
        0 <= p <= ring.len(),
    ensures
        ring.insert(p, slot).filter(pred) == if pred(slot) {
            ring.take(p).filter(pred).push(slot) + ring.skip(p).filter(pred)
        } else {
            ring.filter(pred)
        },
{
    let grown = ring.insert(p, slot);
    assert(grown =~= ring.take(p).push(slot) + ring.skip(p));
    Seq::filter_distributes_over_add(ring.take(p).push(slot), ring.skip(p), pred);
    ring.take(p).lemma_filter_push(slot, pred);
    lemma_filter_split(ring, p, pred);
}

/// A ring on which `owner` owns nothing is not changed by taking `owner` off.
pub proof fn lemma_without_absent_owner(ring: Seq<SlotView>, owner: Seq<char>)
    requires
        forall|i: int| 0 <= i < ring.len() ==> (#[trigger] ring[i]).owner != owner,
    ensures
        without_owner(ring, owner) == ring,
    decreases ring.len(),
{
    reveal(Seq::filter);
    if ring.len() > 0 {
        lemma_without_absent_owner(ring.drop_last(), owner);
        assert(ring.drop_last().push(ring.last()) =~= ring);
    }
}

/// Giving an owner places and taking the owner off again leaves the ring as
/// it was without that owner.
pub proof fn lemma_with_slots_then_without(ring: Seq<SlotView>, owner: Seq<char>, hashes: Seq<u64>)
    ensures
        without_owner(with_slots(ring, owner, hashes), owner) == without_owner(ring, owner),
    decreases hashes.len(),
{
    if hashes.len() > 0 {
        let slot = SlotView { hash: hashes[0], owner };
        let keep = |s: SlotView| s.owner != owner;
        lemma_first_reaching(ring, slot.hash + 1, 0);
        lemma_filter_insert(ring, first_reaching(ring, slot.hash + 1, 0), slot, keep);
        lemma_with_slots_then_without(with_slot(ring, slot), owner, hashes.drop_first());
    }
}

/// Places put on a sorted ring leave it sorted.
pub proof fn lemma_with_slots_sorted(ring: Seq<SlotView>, owner: Seq<char>, hashes: Seq<u64>)
    requires
        sorted(ring),
    ensures
        sorted(with_slots(ring, owner, hashes)),
    decreases hashes.len(),
{
    if hashes.len() > 0 {
        let slot = SlotView { hash: hashes[0], owner };
        lemma_with_slot_sorted(ring, slot);
        lemma_with_slots_sorted(with_slot(ring, slot), owner, hashes.drop_first());
    }
}

/// Places given to one owner raise that owner's count by their number and
/// leave every other count as it was.
pub proof fn lemma_with_slots_count(
    ring: Seq<SlotView>,
    owner: Seq<char>,
    hashes: Seq<u64>,
    other: Seq<char>,
)
    ensures
        owned_count(with_slots(ring, owner, hashes), other) == if other == owner {
            owned_count(ring, other) + hashes.len()
        } else {
            owned_count(ring, other)
        },
    decreases hashes.len(),
{
    if hashes.len() > 0 {
        let slot = SlotView { hash: hashes[0], owner };
        let mine = |s: SlotView| s.owner == other;
        let p = first_reaching(ring, slot.hash + 1, 0);
        lemma_first_reaching(ring, slot.hash + 1, 0);
        lemma_filter_insert(ring, p, slot, mine);
        lemma_filter_split(ring, p, mine);
        lemma_with_slots_count(with_slot(ring, slot), owner, hashes.drop_first(), other);
    }
}

/// Taking an owner off leaves that owner no place and every other owner the
/// places it had.
pub proof fn lemma_without_owner_count(ring: Seq<SlotView>, owner: Seq<char>, other: Seq<char>)
    ensures
        owned_count(without_owner(ring, owner), other) == if other == owner {
            0
        } else {
            owned_count(ring, other)
        },
    decreases ring.len(),
{
    reveal(Seq::filter);
    let keep = |s: SlotView| s.owner != owner;
    let mine = |s: SlotView| s.owner == other;
    if ring.len() > 0 {
        let head = ring.drop_last();
        lemma_without_owner_count(head, owner, other);
        if keep(ring.last()) {
            head.filter(keep).lemma_filter_push(ring.last(), mine);
        }
    }
}

/// Where an owner's place stands after another owner left: behind exactly
/// the places that stay of those that stood before it.
pub proof fn lemma_kept_place(ring: Seq<SlotView>, owner: Seq<char>, p: int)
    requires
        0 <= p < ring.len(),
        ring[p].owner != owner,
    ensures
        without_owner(ring.take(p), owner).len() < without_owner(ring, owner).len(),
        without_owner(ring, owner)[without_owner(ring.take(p), owner).len() as int] == ring[p],
        without_owner(ring, owner).take(without_owner(ring.take(p), owner).len() as int)
            == without_owner(ring.take(p), owner),
{
    let keep = |s: SlotView| s.owner != owner;
    lemma_filter_split(ring, p, keep);
    let tail = ring.skip(p);
    assert(tail =~= seq![ring[p]] + ring.skip(p + 1));
    Seq::filter_distributes_over_add(seq![ring[p]], ring.skip(p + 1), keep);
    assert(seq![ring[p]].filter(keep) =~= seq![ring[p]]) by {
        reveal(Seq::filter);
        assert(seq![ring[p]].drop_last() =~= Seq::<SlotView>::empty());
    }
    let front = ring.take(p).filter(keep);
    let all = without_owner(ring, owner);
    assert(all =~= front + (seq![ring[p]] + ring.skip(p + 1).filter(keep)));
    assert(all.take(front.len() as int) =~= front);
}

/// Taking a node off the ring changes the answer only for hash values that
/// the node answered for: a hash value that another node answered for is
/// still answered for by that node.
pub proof fn lemma_removal_keeps_other_owners(ring: Seq<SlotView>, owner: Seq<char>, h: u64)
    requires
        sorted(ring),
        owner_for(ring, h) is Some,
        owner_for(ring, h) != Some(owner),
    ensures
        owner_for(without_owner(ring, owner), h) == owner_for(ring, h),
{
    let p = place_for(ring, h).unwrap();
    let rest = without_owner(ring, owner);
    lemma_first_reaching(ring, h as int, 0);
    lemma_kept_place(ring, owner, p);
    let front = without_owner(ring.take(p), owner);
    let k = front.len() as int;
    lemma_without_owner_places(ring.take(p), owner);
    lemma_without_owner_places(ring, owner);
    if first_reaching(ring, h as int, 0) < ring.len() {
        assert forall|i: int| 0 <= i < k implies (#[trigger] rest[i]).hash < h by {
            assert(rest[i] == front[i]);
            let j = choose|j: int| i <= j < ring.take(p).len() && ring.take(p)[j] == front[i];
            assert(ring[j].hash < h);
        }
        lemma_first_reaching_is(rest, h as int, k);
    } else {
        assert(k == 0) by {
            assert(ring.take(0) =~= Seq::<SlotView>::empty());
        }
        assert forall|i: int| 0 <= i < rest.len() implies (#[trigger] rest[i]).hash < h by {
            let j = choose|j: int| i <= j < ring.len() && ring[j] == rest[i];
            assert(ring[j].hash < h);
        }
        lemma_first_reaching_is(rest, h as int, rest.len() as int);
    }
}

/// The places of a ring in the order of their hash values.
pub struct Ring {
    slots: Vec<Slot>,
}

impl View for Ring {
    type V = Seq<SlotView>;

    closed spec fn view(&self) -> Seq<SlotView> {
        self.slots@.map_values(|s: Slot| s@)
    }
}

impl Ring {
    /// The invariant: the places stand in the order of their hash values.
    pub open spec fn wf(&self) -> bool {
        sorted(self@)
    }

    /// A ring without places.
    pub fn new() -> (ring: Ring)
        ensures
            ring@ == Seq::<SlotView>::empty(),
            ring.wf(),
    {
        let ring = Ring { slots: Vec::new() };
        assert(ring@ =~= Seq::<SlotView>::empty());
        ring
    }

    /// The number of places.
    pub fn len(&self) -> (n: usize)
        ensures
            n == self@.len(),
    {
        self.slots.len()
    }

    /// The first place whose hash value is at least `bound`, found by halving.
    fn search(&self, bound: u64) -> (p: usize)
        requires
            self.wf(),
        ensures
            p == first_reaching(self@, bound as int, 0),
            p <= self@.len(),
    {
        let mut lo: usize = 0;
        let mut hi: usize = self.slots.len();
        while lo < hi
            invariant
                lo <= hi <= self.slots.len(),
                self.slots.len() == self@.len(),
                sorted(self@),
                forall|i: int| 0 <= i < lo ==> (#[trigger] self@[i]).hash < bound,
                forall|i: int| hi <= i < self@.len() ==> (#[trigger] self@[i]).hash >= bound,
            decreases hi - lo,
        {
            let mid = lo + (hi - lo) / 2;
            assert(self@[mid as int] == self.slots@[mid as int]@);
            if self.slots[mid].hash < bound {
                lo = mid + 1;
            } else {
                hi = mid;
            }
        }
        proof {
            lemma_first_reaching_is(self@, bound as int, lo as int);
        }
        lo
    }

    /// Puts a place for `owner` at `hash` on the ring.
    pub fn insert(&mut self, hash: u64, owner: String)
        requires
            old(self).wf(),
        ensures
            final(self)@ == with_slot(old(self)@, SlotView { hash, owner: owner@ }),
            final(self).wf(),
    {
        let p = if hash == u64::MAX {
            proof {
                lemma_first_reaching(self@, hash + 1, 0);
                if first_reaching(self@, hash + 1, 0) < self@.len() {
                    assert(self@[first_reaching(self@, hash + 1, 0)].hash >= hash + 1);
                }
            }
            self.slots.len()
        } else {
            self.search(hash + 1)
        };
        proof {
            lemma_with_slot_sorted(self@, SlotView { hash, owner: owner@ });
        }
        self.slots.insert(p, Slot { hash, owner });
        assert(self@ =~= with_slot(old(self)@, SlotView { hash, owner: owner@ }));
    }

    /// Takes every place that `owner` owns off the ring.
    pub fn remove_owner(&mut self, owner: &String)
        requires
            old(self).wf(),
        ensures
            final(self)@ == without_owner(old(self)@, owner@),
            final(self).wf(),
    {
        let ghost before = self@;
        let ghost keep = |s: SlotView| s.owner != owner@;
        let mut taken: Vec<Slot> = Vec::new();
        std::mem::swap(&mut self.slots, &mut taken);
        assert(self@ =~= before.take(0).filter(keep)) by {
            reveal(Seq::filter);
        }
        for slot in it: taken.into_iter()
            invariant
                it.seq().map_values(|s: Slot| s@) == before,
                keep == |s: SlotView| s.owner != owner@,
                self@ == before.take(it.index() as int).filter(keep),
        {
            proof {
                let i = it.index() as int;
                assert(before.take(i + 1) =~= before.take(i).push(slot@));
                before.take(i).lemma_filter_push(slot@, keep);
            }
            if slot.owner != *owner {
                self.slots.push(slot);
                assert(self@ =~= before.take(it.index() as int).filter(keep).push(slot@));
            }
        }
        proof {
            assert(before.take(before.len() as int) =~= before);
            lemma_without_owner_sorted(before, owner@);
        }
    }

    /// The owner of the place that answers for the hash value `h`.
    pub fn lookup(&self, h: u64) -> (owner: Option<&String>)
        requires
            self.wf(),
        ensures
            match owner_for(self@, h) {
                Some(o) => owner matches Some(s) && s@ == o,
                None => owner is None,
            },
    {
        let len = self.slots.len();
        if len == 0 {
            return None;
        }
        let p = self.search(h);
        if p < len {
            Some(&self.slots[p].owner)
        } else {
            Some(&self.slots[0].owner)
        }
    }
}

} // verus!
