//! Sorting cards by rank.

use vstd::multiset::Multiset;
use vstd::prelude::*;

use crate::deck::{rank_idx, Card};

verus! {

/// A sequence of cards stands in ascending rank order.
pub open spec fn sorted_by_rank(s: Seq<Card>) -> bool {
    forall|i: int, j: int|
        0 <= i <= j < s.len() ==> rank_idx(#[trigger] s[i].rank) <= rank_idx(#[trigger] s[j].rank)
}

/// An empty front segment adds nothing to a split sequence's multiset.
proof fn lemma_empty_front(s: Seq<Card>)
    ensures
        Seq::<Card>::empty().to_multiset().add(s.to_multiset()) == s.to_multiset(),
{
    broadcast use vstd::seq_lib::group_to_multiset_ensures;

    assert(Seq::<Card>::empty().to_multiset() =~= Multiset::empty());
    assert(Multiset::empty().add(s.to_multiset()) =~= s.to_multiset());
}

/// An empty back segment adds nothing to a split sequence's multiset.
proof fn lemma_empty_back(s: Seq<Card>)
    ensures
        s.to_multiset().add(Seq::<Card>::empty().to_multiset()) == s.to_multiset(),
{
    broadcast use vstd::seq_lib::group_to_multiset_ensures;

    assert(Seq::<Card>::empty().to_multiset() =~= Multiset::empty());
    assert(s.to_multiset().add(Multiset::empty()) =~= s.to_multiset());
}

/// Moving one element from the unsorted part to the end of the sorted
/// part leaves the combined multiset unchanged.
proof fn lemma_move_one(done: Seq<Card>, rest: Seq<Card>, m: int, total: Multiset<Card>)
    requires
        0 <= m < rest.len(),
        done.to_multiset().add(rest.to_multiset()) == total,
    ensures
        done.push(rest[m]).to_multiset().add(rest.remove(m).to_multiset()) == total,
{
    broadcast use vstd::seq_lib::group_to_multiset_ensures;

    let c = rest[m];
    assert(rest.to_multiset().count(c) > 0) by {
        assert(rest.contains(c));
    }
    assert(done.push(c).to_multiset() =~= done.to_multiset().insert(c));
    assert(rest.remove(m).to_multiset() =~= rest.to_multiset().remove(c));
    assert(done.to_multiset().insert(c).add(rest.to_multiset().remove(c)) =~= total);
}


/// Build a hand from five cards, sorting them into ascending rank
/// order. The same five cards come out that went in. Duplicate cards
/// are accepted: the hand does not check uniqueness.
/// Sort five cards into ascending rank order by repeatedly moving the
/// lowest-ranked remaining card across; the multiset of cards is kept.
pub(crate) fn sort_five(cards: [Card; 5]) -> (out: Vec<Card>)
    ensures
        out@.to_multiset() == cards@.to_multiset(),
        sorted_by_rank(out@),
        out@.len() == 5,
{
    let mut rest: Vec<Card> = Vec::new();
    let mut i: usize = 0;
    while i < 5
        invariant
            i <= 5,
            rest@ =~= cards@.take(i as int),
        decreases 5 - i,
    {
        rest.push(cards[i]);
        proof {
            assert(cards@.take(i + 1) =~= cards@.take(i as int).push(cards@[i as int]));
        }
        i += 1;
    }
    proof {
        assert(cards@.take(5) =~= cards@);
        assert(rest@ == cards@);
        lemma_empty_front(rest@);
    }
    let mut out: Vec<Card> = Vec::new();
    while rest.len() > 0
        invariant
            out@.len() + rest@.len() == 5,
            sorted_by_rank(out@),
            out@.to_multiset().add(rest@.to_multiset()) == cards@.to_multiset(),
            out@.len() > 0 ==> forall|b: int|
                0 <= b < rest@.len() ==> rank_idx(out@.last().rank) <= rank_idx(
                    #[trigger] rest@[b].rank,
                ),
        decreases rest@.len(),
    {
        let mut m: usize = 0;
        let mut k: usize = 1;
        while k < rest.len()
            invariant
                m < k <= rest@.len(),
                forall|j: int|
                    0 <= j < k ==> rank_idx(rest@[m as int].rank) <= rank_idx(
                        #[trigger] rest@[j].rank,
                    ),
            decreases rest@.len() - k,
        {
            if rest[k].rank().index() < rest[m].rank().index() {
                m = k;
            }
            k += 1;
        }
        let ghost r0 = rest@;
        let ghost out0 = out@;
        let c = rest.remove(m);
        out.push(c);
        proof {
            lemma_move_one(out0, r0, m as int, cards@.to_multiset());
            assert(forall|a: int| 0 <= a < out0.len() ==> out@[a] == out0[a]);
            assert(out@.last() == c);
            if out0.len() > 0 {
                assert(rank_idx(out0.last().rank) <= rank_idx(c.rank)) by {
                    assert(r0[m as int] == c);
                }
            }
            assert(sorted_by_rank(out@));
            assert forall|b: int| 0 <= b < rest@.len() implies rank_idx(out@.last().rank)
                <= rank_idx(#[trigger] rest@[b].rank) by {
                assert(rest@[b] == if b < m { r0[b] } else { r0[b + 1] });
            }
        }
    }
    proof {
        assert(rest@ =~= Seq::<Card>::empty());
        lemma_empty_back(out@);
    }
    out
}

} // verus!
