use vstd::prelude::*;
use crate::node::NodeView;
use crate::nodes::all_down;
use crate::weighted_round_robin::{
    after_selection, bumped_all, leads, lemma_leader_unique, lemma_selection_round,
    lemma_total_weight_nonnegative, round_fits, selected, total_weight,
};

verus! {

/// The sum of the current weights of `s`.
pub open spec fn sum_current<T>(s: Seq<NodeView<T>>) -> int
    decreases s.len(),
{
    if s.len() == 0 {
        0
    } else {
        sum_current(s.drop_last()) + s.last().current_weight
    }
}

/// Whether every node is up, ramped up to its full weight and of positive weight.
pub open spec fn in_full_service<T>(s: Seq<NodeView<T>>) -> bool {
    forall|i: int|
        0 <= i < s.len() ==> !(#[trigger] s[i]).down && s[i].effective_weight == s[i].weight && s[i].weight
            > 0
}

/// Whether every node is in full service with its counter at zero, as after
/// construction.
pub open spec fn at_rest<T>(s: Seq<NodeView<T>>) -> bool {
    &&& in_full_service(s)
    &&& forall|i: int| 0 <= i < s.len() ==> (#[trigger] s[i]).current_weight == 0
}

/// The registry after `rounds` selection rounds.
pub open spec fn after_rounds<T>(s: Seq<NodeView<T>>, rounds: nat) -> Seq<NodeView<T>>
    decreases rounds,
{
    if rounds == 0 {
        s
    } else {
        after_selection(after_rounds(s, (rounds - 1) as nat))
    }
}

/// How often the node at `i` is picked in the first `rounds` selection rounds.
pub open spec fn picks_of<T>(s: Seq<NodeView<T>>, i: int, rounds: nat) -> nat
    decreases rounds,
{
    if rounds == 0 {
        0
    } else {
        let earlier = picks_of(s, i, (rounds - 1) as nat);
        if selected(after_rounds(s, (rounds - 1) as nat)) == Some(i) {
            earlier + 1
        } else {
            earlier
        }
    }
}

/// What holds of `start` after any number of rounds: the same nodes in full
/// service, counters that cancel out, and none of them as low as minus the
/// total weight.
spec fn balanced<T>(start: Seq<NodeView<T>>, s: Seq<NodeView<T>>) -> bool {
    &&& s.len() == start.len()
    &&& in_full_service(s)
    &&& forall|i: int| 0 <= i < s.len() ==> (#[trigger] s[i]).id == start[i].id && s[i].weight == start[i].weight
    &&& sum_current(s) == 0
    &&& forall|i: int| 0 <= i < s.len() ==> (#[trigger] s[i]).current_weight > -total_weight(start)
}

/// Registries in full service with the same weights weigh the same, and at
/// least one where they hold a node.
proof fn lemma_total_of_full_service<T>(a: Seq<NodeView<T>>, b: Seq<NodeView<T>>)
    requires
        a.len() == b.len(),
        in_full_service(a),
        in_full_service(b),
        forall|i: int| 0 <= i < a.len() ==> (#[trigger] a[i]).weight == b[i].weight,
    ensures
        total_weight(a) == total_weight(b),
        a.len() > 0 ==> total_weight(a) >= 1,
    decreases a.len(),
{
    if a.len() > 0 {
        let n = a.len() - 1;
        assert(a.last() == a[n] && b.last() == b[n]);
        assert forall|i: int| 0 <= i < n implies (#[trigger] a.drop_last()[i]).weight == b.drop_last()[i].weight by {
            assert(a.drop_last()[i] == a[i]);
        }
        assert(in_full_service(a.drop_last())) by {
            assert forall|i: int| 0 <= i < n implies !(#[trigger] a.drop_last()[i]).down
                && a.drop_last()[i].effective_weight == a.drop_last()[i].weight && a.drop_last()[i].weight > 0 by {
                assert(a.drop_last()[i] == a[i]);
            }
        }
        assert(in_full_service(b.drop_last())) by {
            assert forall|i: int| 0 <= i < n implies !(#[trigger] b.drop_last()[i]).down
                && b.drop_last()[i].effective_weight == b.drop_last()[i].weight && b.drop_last()[i].weight > 0 by {
                assert(b.drop_last()[i] == b[i]);
            }
        }
        lemma_total_of_full_service(a.drop_last(), b.drop_last());
        lemma_total_weight_nonnegative(a.drop_last());
    }
}

/// The turns of a round raise the sum of the counters by the total weight.
proof fn lemma_sum_after_turns<T>(s: Seq<NodeView<T>>)
    requires
        forall|i: int| 0 <= i < s.len() ==> !(#[trigger] s[i]).down,
    ensures
        sum_current(bumped_all(s)) == sum_current(s) + total_weight(s),
    decreases s.len(),
{
    if s.len() > 0 {
        let n = s.len() - 1;
        assert(s.last() == s[n]);
        assert(bumped_all(s).drop_last() =~= bumped_all(s.drop_last()));
        assert forall|i: int| 0 <= i < n implies !(#[trigger] s.drop_last()[i]).down by {
            assert(s.drop_last()[i] == s[i]);
        }
        lemma_sum_after_turns(s.drop_last());
    }
}

/// Replacing one node changes the sum of the counters by the difference of
/// the two counters.
proof fn lemma_sum_after_update<T>(s: Seq<NodeView<T>>, w: int, x: NodeView<T>)
    requires
        0 <= w < s.len(),
    ensures
        sum_current(s.update(w, x)) == sum_current(s) - s[w].current_weight + x.current_weight,
    decreases s.len(),
{
    if w == s.len() - 1 {
        assert(s.update(w, x).drop_last() =~= s.drop_last());
    } else {
        assert(s.update(w, x).drop_last() =~= s.drop_last().update(w, x));
        lemma_sum_after_update(s.drop_last(), w, x);
    }
}

/// Counters with a positive sum are not all zero or less.
proof fn lemma_positive_sum_has_positive_term<T>(s: Seq<NodeView<T>>)
    requires
        sum_current(s) >= 1,
    ensures
        exists|i: int| 0 <= i < s.len() && (#[trigger] s[i]).current_weight >= 1,
    decreases s.len(),
{
    if s.len() > 0 {
        if s.last().current_weight >= 1 {
            assert(s[s.len() - 1].current_weight >= 1);
        } else {
            lemma_positive_sum_has_positive_term(s.drop_last());
            let i = choose|i: int| 0 <= i < s.drop_last().len() && (#[trigger] s.drop_last()[i]).current_weight >= 1;
            assert(s[i].current_weight >= 1);
        }
    }
}

/// Counters of which none is negative have no negative sum, and the sum
/// zero only where all of them are zero.
proof fn lemma_zero_sum_of_nonnegative_terms<T>(s: Seq<NodeView<T>>)
    requires
        forall|i: int| 0 <= i < s.len() ==> (#[trigger] s[i]).current_weight >= 0,
    ensures
        sum_current(s) >= 0,
        sum_current(s) == 0 ==> forall|i: int| 0 <= i < s.len() ==> (#[trigger] s[i]).current_weight == 0,
    decreases s.len(),
{
    if s.len() > 0 {
        let head = s.drop_last();
        assert forall|i: int| 0 <= i < head.len() implies (#[trigger] head[i]).current_weight >= 0 by {
            assert(head[i] == s[i]);
        }
        lemma_zero_sum_of_nonnegative_terms(head);
        assert(s.last() == s[s.len() - 1]);
        if sum_current(s) == 0 {
            assert forall|i: int| 0 <= i < s.len() implies (#[trigger] s[i]).current_weight == 0 by {
                if i < head.len() {
                    assert(head[i] == s[i]);
                }
            }
        }
    }
}

/// One round on a balanced registry: some node is picked, the registry stays
/// balanced, and each counter rises by the node's weight, the picked node's
/// less the total weight.
proof fn lemma_balanced_round<T>(start: Seq<NodeView<T>>, s: Seq<NodeView<T>>)
    requires
        start.len() > 0,
        in_full_service(start),
        balanced(start, s),
    ensures
        selected(s) is Some,
        0 <= selected(s).unwrap() < s.len(),
        balanced(start, after_selection(s)),
        forall|i: int|
            0 <= i < s.len() ==> (#[trigger] after_selection(s)[i]).current_weight == s[i].current_weight
                + s[i].weight - if selected(s) == Some(i) {
                total_weight(start)
            } else {
                0
            },
{
    let total = total_weight(start);
    lemma_total_of_full_service(s, start);
    lemma_total_of_full_service(start, start);
    assert(!all_down(s)) by {
        assert(!s[0].down);
    }
    lemma_selection_round(s);
    let m = selected(s).unwrap();
    let turned = bumped_all(s);
    let next = after_selection(s);
    lemma_sum_after_turns(s);
    lemma_positive_sum_has_positive_term(turned);
    let j = choose|j: int| 0 <= j < turned.len() && (#[trigger] turned[j]).current_weight >= 1;
    assert(!turned[j].down);
    assert(turned[m].current_weight >= turned[j].current_weight);
    lemma_sum_after_update(turned, m, turned[m].settled(total));
    assert forall|i: int| 0 <= i < s.len() implies (#[trigger] next[i]).current_weight == s[i].current_weight
        + s[i].weight - if selected(s) == Some(i) {
        total
    } else {
        0
    } by {
        assert(turned[i] == s[i].bumped());
    }
    assert forall|i: int| 0 <= i < next.len() implies !(#[trigger] next[i]).down && next[i].effective_weight
        == next[i].weight && next[i].weight > 0 && next[i].id == start[i].id && next[i].weight
        == start[i].weight && next[i].current_weight > -total by {
        assert(turned[i] == s[i].bumped());
    }
}

/// After `rounds` rounds from rest the registry is balanced, and the counter
/// of each node is its weight times the rounds less the total weight times
/// its picks.
proof fn lemma_counters_after_rounds<T>(start: Seq<NodeView<T>>, rounds: nat)
    requires
        start.len() > 0,
        at_rest(start),
    ensures
        balanced(start, after_rounds(start, rounds)),
        forall|i: int|
            0 <= i < start.len() ==> (#[trigger] after_rounds(start, rounds)[i]).current_weight == rounds
                * start[i].weight - total_weight(start) * picks_of(start, i, rounds),
    decreases rounds,
{
    let total = total_weight(start);
    lemma_total_of_full_service(start, start);
    if rounds == 0 {
        lemma_zero_sum_of_nonnegative_terms(start);
        lemma_sum_of_rest(start);
        assert forall|i: int| 0 <= i < start.len() implies (#[trigger] after_rounds(start, rounds)[i]).current_weight
            == rounds * start[i].weight - total * picks_of(start, i, rounds) by {
            assert(total * 0 == 0) by (nonlinear_arith);
            assert(0 * start[i].weight == 0) by (nonlinear_arith);
        }
    } else {
        let before = (rounds - 1) as nat;
        lemma_counters_after_rounds(start, before);
        let s = after_rounds(start, before);
        lemma_balanced_round(start, s);
        let next = after_rounds(start, rounds);
        assert forall|i: int| 0 <= i < start.len() implies (#[trigger] next[i]).current_weight == rounds
            * start[i].weight - total * picks_of(start, i, rounds) by {
            let w = start[i].weight as int;
            let p = picks_of(start, i, before) as int;
            assert(s[i].current_weight == before * w - total * p);
            assert(s[i].weight == w);
            assert((before + 1) * w == before * w + w) by (nonlinear_arith);
            assert(total * (p + 1) == total * p + total) by (nonlinear_arith);
        }
    }
}

/// Counters at zero sum up to zero.
proof fn lemma_sum_of_rest<T>(s: Seq<NodeView<T>>)
    requires
        forall|i: int| 0 <= i < s.len() ==> (#[trigger] s[i]).current_weight == 0,
    ensures
        sum_current(s) == 0,
    decreases s.len(),
{
    if s.len() > 0 {
        assert(s.last() == s[s.len() - 1]);
        assert forall|i: int| 0 <= i < s.drop_last().len() implies (#[trigger] s.drop_last()[i]).current_weight
            == 0 by {
            assert(s.drop_last()[i] == s[i]);
        }
        lemma_sum_of_rest(s.drop_last());
    }
}

/// Counters that are all above `low` sum up to more than their number times
/// `low`, unless there is none.
proof fn lemma_sum_above<T>(s: Seq<NodeView<T>>, low: int)
    requires
        forall|i: int| 0 <= i < s.len() ==> (#[trigger] s[i]).current_weight >= low,
    ensures
        sum_current(s) >= s.len() * low,
    decreases s.len(),
{
    if s.len() > 0 {
        let head = s.drop_last();
        assert(s.last() == s[s.len() - 1]);
        assert forall|i: int| 0 <= i < head.len() implies (#[trigger] head[i]).current_weight >= low by {
            assert(head[i] == s[i]);
        }
        lemma_sum_above(head, low);
        assert(s.len() * low == head.len() * low + low) by (nonlinear_arith)
            requires
                s.len() == head.len() + 1,
        ;
    } else {
        assert(0 * low == 0) by (nonlinear_arith);
    }
}

/// No up node weighs more than the registry.
proof fn lemma_weight_within_total<T>(s: Seq<NodeView<T>>, i: int)
    requires
        0 <= i < s.len(),
        !s[i].down,
    ensures
        s[i].effective_weight <= total_weight(s),
    decreases s.len(),
{
    lemma_total_weight_nonnegative(s.drop_last());
    if i < s.len() - 1 {
        assert(s.drop_last()[i] == s[i]);
        lemma_weight_within_total(s.drop_last(), i);
    }
}

/// A registry that started at rest and was left alone has room for the next
/// selection round after any number of rounds, provided that the total
/// weight times the number of nodes fits the counters.
pub proof fn lemma_rounds_from_rest_fit<T>(start: Seq<NodeView<T>>, rounds: nat)
    requires
        at_rest(start),
        start.len() * total_weight(start) <= i128::MAX,
    ensures
        round_fits(after_rounds(start, rounds)),
{
    let s = after_rounds(start, rounds);
    if start.len() == 0 {
        lemma_rounds_keep_empty(start, rounds);
        assert(total_weight(s) == 0);
    } else {
        let n = start.len() as int;
        let total = total_weight(start);
        lemma_total_of_full_service(start, start);
        lemma_counters_after_rounds(start, rounds);
        lemma_total_of_full_service(s, start);
        assert(total <= n * total) by (nonlinear_arith)
            requires
                n >= 1,
                total >= 1,
        ;
        assert forall|i: int| 0 <= i < s.len() && !(#[trigger] s[i]).down implies s[i].current_weight
            + s[i].effective_weight <= i128::MAX by {
            let low = 1 - total;
            let floor = NodeView { current_weight: low, ..s[i] };
            let others = s.update(i, floor);
            lemma_sum_after_update(s, i, floor);
            assert forall|j: int| 0 <= j < others.len() implies (#[trigger] others[j]).current_weight >= low by {
                if j != i {
                    assert(others[j] == s[j]);
                }
            }
            lemma_sum_above(others, low);
            lemma_weight_within_total(s, i);
            assert(s[i].current_weight + total <= n * total) by (nonlinear_arith)
                requires
                    n >= 1,
                    total >= 1,
                    low == 1 - total,
                    -s[i].current_weight + low >= n * low,
            ;
        }
        lemma_balanced_round(start, s);
        let m = selected(s).unwrap();
        lemma_selection_round(s);
        assert forall|w: int| leads(bumped_all(s), w, s.len() as int) implies bumped_all(s)[w].current_weight
            - total_weight(s) >= i128::MIN by {
            lemma_leader_unique(bumped_all(s), w, m, s.len() as int);
            assert(after_selection(s)[m].current_weight == bumped_all(s)[m].current_weight - total);
        }
    }
}

/// Rounds on an empty registry leave it empty.
proof fn lemma_rounds_keep_empty<T>(start: Seq<NodeView<T>>, rounds: nat)
    requires
        start.len() == 0,
    ensures
        after_rounds(start, rounds) == start,
    decreases rounds,
{
    if rounds > 0 {
        lemma_rounds_keep_empty(start, (rounds - 1) as nat);
    }
}

/// Over a window of as many rounds as the weights sum up to, each node is
/// picked as often as its weight says, and the registry ends where it began,
/// so that the next window repeats the first. This holds from rest, that is
/// with every node up and its counter at zero, and while the registry is
/// left alone.
pub proof fn lemma_window_is_proportional<T>(start: Seq<NodeView<T>>, i: int)
    requires
        at_rest(start),
        0 <= i < start.len(),
    ensures
        total_weight(start) >= 1,
        picks_of(start, i, total_weight(start) as nat) == start[i].weight,
        after_rounds(start, total_weight(start) as nat) == start,
{
    let total = total_weight(start);
    lemma_total_of_full_service(start, start);
    let rounds = total as nat;
    lemma_counters_after_rounds(start, rounds);
    let end = after_rounds(start, rounds);
    assert forall|j: int| 0 <= j < end.len() implies (#[trigger] end[j]).current_weight >= 0
        && end[j].current_weight == total * (start[j].weight - picks_of(start, j, rounds)) by {
        let w = start[j].weight as int;
        let p = picks_of(start, j, rounds) as int;
        assert(end[j].current_weight == total * w - total * p);
        assert(total * w - total * p == total * (w - p)) by (nonlinear_arith);
        assert(total * (w - p) > -total);
        assert(w - p >= 0) by (nonlinear_arith)
            requires
                total >= 1,
                total * (w - p) > -total,
        ;
        assert(total * (w - p) >= 0) by (nonlinear_arith)
            requires
                total >= 1,
                w - p >= 0,
        ;
    }
    lemma_zero_sum_of_nonnegative_terms(end);
    assert forall|j: int| 0 <= j < end.len() implies picks_of(start, j, rounds) == (#[trigger] start[j]).weight by {
        let w = start[j].weight as int;
        let p = picks_of(start, j, rounds) as int;
        assert(end[j].current_weight == 0);
        assert(w - p == 0) by (nonlinear_arith)
            requires
                total >= 1,
                total * (w - p) == 0,
        ;
    }
    assert forall|j: int| 0 <= j < end.len() implies end[j] == start[j] by {
        assert(end[j].current_weight == 0);
        assert(end[j].id == start[j].id);
    }
    assert(end =~= start);
}

} // verus!
