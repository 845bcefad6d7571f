//! The five-card hand and its classification into poker combinations.

use vstd::prelude::*;

use crate::deck::{card_symbol, rank_idx, Card, Rank};
use crate::order::{sort_five, sorted_by_rank};

verus! {

/// How many cards of `s` have rank `r`.
pub open spec fn count_rank(s: Seq<Card>, r: Rank) -> nat
    decreases s.len(),
{
    if s.len() == 0 {
        0
    } else {
        count_rank(s.drop_last(), r) + (if s.last().rank == r {
            1nat
        } else {
            0nat
        })
    }
}

/// Some card of `s` has rank `r`.
pub open spec fn has_rank(s: Seq<Card>, r: Rank) -> bool {
    exists|i: int| 0 <= i < s.len() && #[trigger] s[i].rank == r
}

/// `r` is the highest rank among the cards of `s`.
pub open spec fn is_top_rank(s: Seq<Card>, r: Rank) -> bool {
    has_rank(s, r) && forall|i: int|
        0 <= i < s.len() ==> rank_idx(#[trigger] s[i].rank) <= rank_idx(r)
}

/// All cards of `s` share one suit.
pub open spec fn all_one_suit(s: Seq<Card>) -> bool {
    forall|i: int| 0 <= i < s.len() ==> #[trigger] s[i].suit == s[0].suit
}

/// The wheel: the low straight Two-Three-Four-Five-Ace, in which Ace
/// plays low. `s` must already stand in ascending rank order.
pub open spec fn is_wheel(s: Seq<Card>) -> bool {
    s.len() == 5 && s[0].rank == Rank::Two && s[1].rank == Rank::Three && s[2].rank == Rank::Four
        && s[3].rank == Rank::Five && s[4].rank == Rank::Ace
}

/// Five consecutive ranks, ascending: each card's rank sits one position
/// above its left neighbour's.
pub open spec fn is_run(s: Seq<Card>) -> bool {
    s.len() == 5 && forall|i: int|
        0 <= i < 4 ==> rank_idx(s[i + 1].rank) == #[trigger] rank_idx(s[i].rank) + 1
}

/// The deciding rank of a straight, if the (rank-sorted) cards form one:
/// Five for the wheel, otherwise the highest card of the run.
pub open spec fn straight_rank_of(s: Seq<Card>) -> Option<Rank> {
    if is_wheel(s) {
        Some(Rank::Five)
    } else if is_run(s) {
        Some(s[4].rank)
    } else {
        None
    }
}

/// Some rank occurs exactly `n` times in `s`.
pub open spec fn has_group(s: Seq<Card>, n: nat) -> bool {
    exists|r: Rank| count_rank(s, r) == n
}

/// Two distinct ranks each occur exactly twice in `s`.
pub open spec fn two_pairs_present(s: Seq<Card>) -> bool {
    exists|p1: Rank, p2: Rank|
        p1 != p2 && count_rank(s, p1) == 2 && count_rank(s, p2) == 2
}

/// Exactly one rank occurs exactly twice in `s`.
pub open spec fn exactly_one_pair(s: Seq<Card>) -> bool {
    exists|p: Rank|
        count_rank(s, p) == 2 && (forall|q: Rank| q != p ==> count_rank(s, q) != 2)
}

/// The rendering of a hand: its cards' display tokens, space-separated,
/// in the order the cards stand in the hand.
pub open spec fn hand_text(s: Seq<Card>) -> Seq<char>
    decreases s.len(),
{
    if s.len() == 0 {
        Seq::empty()
    } else if s.len() == 1 {
        card_symbol(s[0])
    } else {
        hand_text(s.drop_last()) + seq![' '] + card_symbol(s.last())
    }
}

/// The classified poker category of a five-card hand, each variant
/// carrying its deciding rank (the two pair ranks for a two-pair hand).
/// No order across variants is defined.
#[derive(Clone, Copy, Debug, PartialEq, Eq)]
pub enum PokerCombo {
    Top(Rank),
    Pair(Rank),
    TwoPairs([Rank; 2]),
    ThreeOfAKind(Rank),
    Straight(Rank),
    Flush(Rank),
    FullHouse(Rank),
    FourOfAKind(Rank),
    StraightFlush(Rank),
}

/// `c` is the combination of the rank-sorted five-card sequence `s`,
/// checked in the evaluator's strict precedence order: straight (flush)
/// first, then flush, then the groupings from four of a kind down to a
/// single pair, and a bare top card last. The two ranks of a two-pair
/// hand may stand in either order.
pub open spec fn combo_ok(s: Seq<Card>, c: PokerCombo) -> bool {
    match straight_rank_of(s) {
        Some(r) => if all_one_suit(s) {
            c == PokerCombo::StraightFlush(r)
        } else {
            c == PokerCombo::Straight(r)
        },
        None => if all_one_suit(s) {
            c matches PokerCombo::Flush(t) && is_top_rank(s, t)
        } else if has_group(s, 4) {
            c matches PokerCombo::FourOfAKind(q) && count_rank(s, q) == 4
        } else if has_group(s, 3) && has_group(s, 2) {
            c matches PokerCombo::FullHouse(t) && count_rank(s, t) == 3
        } else if has_group(s, 3) {
            c matches PokerCombo::ThreeOfAKind(t) && count_rank(s, t) == 3
        } else if two_pairs_present(s) {
            c matches PokerCombo::TwoPairs(pp) && pp[0] != pp[1] && count_rank(s, pp[0]) == 2
                && count_rank(s, pp[1]) == 2
        } else if has_group(s, 2) {
            c matches PokerCombo::Pair(p) && count_rank(s, p) == 2
        } else {
            c matches PokerCombo::Top(t) && is_top_rank(s, t)
        },
    }
}

/// A rank occurs in `s` exactly when its count is positive.
proof fn lemma_count_pos_iff_has_rank(s: Seq<Card>, r: Rank)
    ensures
        count_rank(s, r) > 0 <==> has_rank(s, r),
    decreases s.len(),
{
    if s.len() > 0 {
        lemma_count_pos_iff_has_rank(s.drop_last(), r);
        if s.last().rank == r {
            assert(s[s.len() - 1].rank == r);
        } else {
            if count_rank(s, r) > 0 {
                let i = choose|i: int| 0 <= i < s.drop_last().len() && #[trigger] s.drop_last()[i].rank == r;
                assert(s[i].rank == r);
            }
            if has_rank(s, r) {
                let i = choose|i: int| 0 <= i < s.len() && #[trigger] s[i].rank == r;
                assert(i < s.len() - 1);
                assert(s.drop_last()[i].rank == r);
            }
        }
    }
}

/// Two distinct ranks cannot together occur more often than there are cards.
proof fn lemma_count_two(s: Seq<Card>, r1: Rank, r2: Rank)
    requires
        r1 != r2,
    ensures
        count_rank(s, r1) + count_rank(s, r2) <= s.len(),
    decreases s.len(),
{
    if s.len() > 0 {
        lemma_count_two(s.drop_last(), r1, r2);
    }
}

/// Three distinct ranks cannot together occur more often than there are cards.
proof fn lemma_count_three(s: Seq<Card>, r1: Rank, r2: Rank, r3: Rank)
    requires
        r1 != r2,
        r1 != r3,
        r2 != r3,
    ensures
        count_rank(s, r1) + count_rank(s, r2) + count_rank(s, r3) <= s.len(),
    decreases s.len(),
{
    if s.len() > 0 {
        lemma_count_three(s.drop_last(), r1, r2, r3);
    }
}

/// A hand of exactly five cards, held in ascending rank order from the
/// moment it is built.
pub struct Hand([Card; 5]);

impl View for Hand {
    type V = Seq<Card>;

    closed spec fn view(&self) -> Seq<Card> {
        self.0@
    }
}

impl Hand {
    #[verifier::type_invariant]
    spec fn wf(self) -> bool {
        sorted_by_rank(self.0@)
    }
}

/// Whether `v` holds the rank `r`.
fn vec_contains_rank(v: &Vec<Rank>, r: Rank) -> (b: bool)
    ensures
        b == v@.contains(r),
{
    let mut i: usize = 0;
    while i < v.len()
        invariant
            i <= v@.len(),
            forall|k: int| 0 <= k < i ==> v@[k] != r,
        decreases v@.len() - i,
    {
        if v[i] == r {
            return true;
        }
        i += 1;
    }
    false
}

/// How many of the five cards have rank `r`.
fn rank_count(cards: &[Card; 5], r: Rank) -> (n: u8)
    ensures
        n as nat == count_rank(cards@, r),
{
    let mut n: u8 = 0;
    let mut i: usize = 0;
    while i < 5
        invariant
            i <= 5,
            n <= i,
            n as nat == count_rank(cards@.take(i as int), r),
        decreases 5 - i,
    {
        proof {
            assert(cards@.take(i + 1).drop_last() =~= cards@.take(i as int));
            assert(cards@.take(i + 1).last() == cards@[i as int]);
        }
        if cards[i].rank() == r {
            n += 1;
        }
        i += 1;
    }
    proof {
        assert(cards@.take(5) =~= cards@);
    }
    n
}

impl Hand {
    /// Build a hand from five cards, sorting them into ascending rank
    /// order. The same five cards come out that went in. Duplicate cards
    /// are accepted: the hand does not check uniqueness.
    pub fn new(cards: [Card; 5]) -> (h: Hand)
        ensures
            h@.to_multiset() == cards@.to_multiset(),
            sorted_by_rank(h@),
            h@.len() == 5,
    {
        let out = sort_five(cards);
        let h = Hand([out[0], out[1], out[2], out[3], out[4]]);
        proof {
            assert(h.0@ =~= out@);
        }
        h
    }

    /// The hand's five cards. They always stand in ascending rank order:
    /// sorting at construction is an invariant kept for the hand's lifetime.
    pub fn cards(&self) -> (c: &[Card; 5])
        ensures
            c@ == self@,
            self@.len() == 5,
            sorted_by_rank(self@),
    {
        proof {
            use_type_invariant(self);
        }
        &self.0
    }

    /// Render the hand: its five cards' display tokens, space-separated,
    /// in the hand's sorted order.
    pub fn to_text(&self) -> (t: String)
        ensures
            t@ == hand_text(self@),
    {
        let mut t = String::new();
        let mut i: usize = 0;
        while i < 5
            invariant
                i <= 5,
                t@ == hand_text(self@.take(i as int)),
            decreases 5 - i,
        {
            if i > 0 {
                t.append(" ");
            }
            let cs = self.0[i].get_symbol();
            t.append(cs.as_str());
            proof {
                reveal_strlit(" ");
                let pre = self@.take(i as int);
                let now = self@.take(i + 1);
                assert(now.drop_last() =~= pre);
                assert(now.last() == self@[i as int]);
                if i == 0 {
                    assert(t@ =~= hand_text(now));
                } else {
                    assert(t@ =~= hand_text(pre) + seq![' '] + card_symbol(self@[i as int]));
                    assert(t@ =~= hand_text(now));
                }
            }
            i += 1;
        }
        proof {
            assert(self@.take(5) =~= self@);
        }
        t
    }

    /// The distinct ranks that occur exactly `cards_count_in_group` times
    /// in the hand: all of them, each listed once.
    #[verifier::spinoff_prover]
    fn get_card_groups(&self, cards_count_in_group: u8) -> (v: Vec<Rank>)
        requires
            cards_count_in_group >= 1,
        ensures
            v@.no_duplicates(),
            forall|k: int|
                0 <= k < v@.len() ==> count_rank(self@, #[trigger] v@[k])
                    == cards_count_in_group as nat,
            forall|r: Rank|
                count_rank(self@, r) == cards_count_in_group as nat ==> v@.contains(r),
    {
        let mut v: Vec<Rank> = Vec::new();
        let mut i: usize = 0;
        while i < 5
            invariant
                i <= 5,
                cards_count_in_group >= 1,
                v@.no_duplicates(),
                forall|k: int|
                    0 <= k < v@.len() ==> count_rank(self.0@, #[trigger] v@[k])
                        == cards_count_in_group as nat,
                forall|r: Rank|
                    (count_rank(self.0@, r) == cards_count_in_group as nat && has_rank(
                        self.0@.take(i as int),
                        r,
                    )) ==> v@.contains(r),
            decreases 5 - i,
        {
            let r = self.0[i].rank();
            let n = rank_count(&self.0, r);
            let ghost v0 = v@;
            if n == cards_count_in_group && !vec_contains_rank(&v, r) {
                v.push(r);
                proof {
                    assert(v@.drop_last() =~= v0);
                    assert(forall|q: Rank| v0.contains(q) ==> v@.contains(q)) by {
                        assert(forall|k: int| 0 <= k < v0.len() ==> v@[k] == v0[k]);
                    }
                    assert(v@.contains(r)) by {
                        assert(v@[v@.len() - 1] == r);
                    }
                }
            }
            proof {
                assert forall|q: Rank|
                    (count_rank(self.0@, q) == cards_count_in_group as nat && has_rank(
                        self.0@.take(i + 1),
                        q,
                    )) implies v@.contains(q) by {
                    let j = choose|j: int|
                        0 <= j < self.0@.take(i + 1).len() && #[trigger] self.0@.take(i + 1)[j].rank
                            == q;
                    if j < i {
                        assert(self.0@.take(i as int)[j].rank == q);
                        assert(has_rank(self.0@.take(i as int), q));
                        assert(v0.contains(q));
                        if v@ != v0 {
                            assert(forall|k: int| 0 <= k < v0.len() ==> v@[k] == v0[k]);
                            let k = choose|k: int| 0 <= k < v0.len() && v0[k] == q;
                            assert(v@[k] == q);
                        }
                    } else {
                        assert(self.0@[i as int].rank == q);
                        assert(q == r);
                        assert(v@.contains(r));
                    }
                }
            }
            i += 1;
        }
        proof {
            assert(self.0@.take(5) =~= self.0@);
            assert forall|r: Rank|
                count_rank(self@, r) == cards_count_in_group as nat implies v@.contains(r) by {
                lemma_count_pos_iff_has_rank(self.0@, r);
            }
        }
        v
    }

    /// The highest rank among the hand's cards.
    fn top_rank(&self) -> (r: Rank)
        ensures
            is_top_rank(self@, r),
    {
        proof {
            use_type_invariant(self);
        }
        let r = self.0[4].rank();
        proof {
            assert(self.0@[4].rank == r);
        }
        r
    }

    /// The deciding rank of a straight, if the hand is one: Five for the
    /// wheel (Ace playing low), otherwise the highest card of the run.
    fn straight_rank(&self) -> (r: Option<Rank>)
        ensures
            r == straight_rank_of(self@),
    {
        let i0 = self.0[0].rank().index();
        let i1 = self.0[1].rank().index();
        let i2 = self.0[2].rank().index();
        let i3 = self.0[3].rank().index();
        let i4 = self.0[4].rank().index();
        if i0 == 0 && i1 == 1 && i2 == 2 && i3 == 3 && i4 == 12 {
            proof {
                assert(self.0@[0].rank == Rank::Two);
                assert(self.0@[1].rank == Rank::Three);
                assert(self.0@[2].rank == Rank::Four);
                assert(self.0@[3].rank == Rank::Five);
                assert(self.0@[4].rank == Rank::Ace);
                assert(is_wheel(self@));
            }
            Some(Rank::Five)
        } else if i1 == i0 + 1 && i2 == i1 + 1 && i3 == i2 + 1 && i4 == i3 + 1 {
            proof {
                assert(!is_wheel(self@));
                assert(is_run(self@)) by {
                    assert forall|i: int| 0 <= i < 4 implies rank_idx(self@[i + 1].rank)
                        == #[trigger] rank_idx(self@[i].rank) + 1 by {
                        if i == 0 {
                        } else if i == 1 {
                        } else if i == 2 {
                        } else {
                        }
                    }
                }
            }
            Some(self.0[4].rank())
        } else {
            proof {
                assert(!is_wheel(self@));
                assert(!is_run(self@)) by {
                    if is_run(self@) {
                        assert(rank_idx(self@[1].rank) == rank_idx(self@[0].rank) + 1);
                        assert(rank_idx(self@[2].rank) == rank_idx(self@[1].rank) + 1);
                        assert(rank_idx(self@[3].rank) == rank_idx(self@[2].rank) + 1);
                        assert(rank_idx(self@[4].rank) == rank_idx(self@[3].rank) + 1);
                    }
                }
            }
            None
        }
    }

    /// The deciding rank of a flush — the hand's top rank — if all five
    /// cards share one suit.
    fn flush_rank(&self) -> (r: Option<Rank>)
        ensures
            match r {
                Some(t) => all_one_suit(self@) && is_top_rank(self@, t),
                None => !all_one_suit(self@),
            },
    {
        let su = self.0[0].suit();
        if self.0[1].suit() == su && self.0[2].suit() == su && self.0[3].suit() == su
            && self.0[4].suit() == su {
            proof {
                assert forall|i: int| 0 <= i < self@.len() implies #[trigger] self@[i].suit
                    == self@[0].suit by {
                    if i == 0 {
                    } else if i == 1 {
                    } else if i == 2 {
                    } else if i == 3 {
                    } else {
                    }
                }
            }
            Some(self.top_rank())
        } else {
            None
        }
    }

    /// Whether all five cards share one suit.
    pub fn is_flush(&self) -> (b: bool)
        ensures
            b == all_one_suit(self@),
    {
        self.flush_rank().is_some()
    }

    /// The rank that occurs four times, if any.
    fn four_of_a_kind_rank(&self) -> (r: Option<Rank>)
        ensures
            match r {
                Some(q) => count_rank(self@, q) == 4,
                None => forall|q: Rank| count_rank(self@, q) != 4,
            },
    {
        let v = self.get_card_groups(4);
        if v.len() == 1 {
            Some(v[0])
        } else {
            proof {
                if v@.len() >= 2 {
                    assert(v@[0] != v@[1]);
                    lemma_count_two(self@, v@[0], v@[1]);
                    assert(false);
                }
                assert forall|q: Rank| count_rank(self@, q) != 4 by {
                    if count_rank(self@, q) == 4 {
                        assert(v@.contains(q));
                    }
                }
            }
            None
        }
    }

    /// The rank that occurs three times, if any.
    fn three_of_a_kind_rank(&self) -> (r: Option<Rank>)
        ensures
            match r {
                Some(t) => count_rank(self@, t) == 3,
                None => forall|t: Rank| count_rank(self@, t) != 3,
            },
    {
        let v = self.get_card_groups(3);
        if v.len() == 1 {
            Some(v[0])
        } else {
            proof {
                if v@.len() >= 2 {
                    assert(v@[0] != v@[1]);
                    lemma_count_two(self@, v@[0], v@[1]);
                    assert(false);
                }
                assert forall|t: Rank| count_rank(self@, t) != 3 by {
                    if count_rank(self@, t) == 3 {
                        assert(v@.contains(t));
                    }
                }
            }
            None
        }
    }

    /// The distinct ranks that occur exactly twice, each listed once.
    fn get_pairs(&self) -> (v: Vec<Rank>)
        ensures
            v@.no_duplicates(),
            forall|k: int| 0 <= k < v@.len() ==> count_rank(self@, #[trigger] v@[k]) == 2,
            forall|r: Rank| count_rank(self@, r) == 2 ==> v@.contains(r),
    {
        self.get_card_groups(2)
    }

    /// The rank of the single pair, if exactly one rank occurs twice.
    #[verifier::rlimit(50)]
    fn pair_rank(&self) -> (r: Option<Rank>)
        ensures
            match r {
                Some(p) => count_rank(self@, p) == 2 && (forall|q: Rank|
                    q != p ==> count_rank(self@, q) != 2),
                None => !exactly_one_pair(self@),
            },
    {
        let v = self.get_pairs();
        if v.len() == 1 {
            proof {
                assert forall|q: Rank| q != v@[0] implies count_rank(self@, q) != 2 by {
                    if count_rank(self@, q) == 2 {
                        assert(v@.contains(q));
                        let k = choose|k: int| 0 <= k < v@.len() && v@[k] == q;
                        assert(k == 0);
                    }
                }
            }
            Some(v[0])
        } else {
            proof {
                if v@.len() >= 3 {
                    assert(v@[0] != v@[1] && v@[0] != v@[2] && v@[1] != v@[2]);
                    lemma_count_three(self@, v@[0], v@[1], v@[2]);
                    assert(false);
                }
                if exactly_one_pair(self@) {
                    let p = choose|p: Rank|
                        count_rank(self@, p) == 2 && (forall|q: Rank|
                            q != p ==> count_rank(self@, q) != 2);
                    assert(v@.contains(p));
                    assert(v@.len() >= 1);
                    if v@.len() == 2 {
                        assert(count_rank(self@, v@[0]) == 2);
                        assert(count_rank(self@, v@[1]) == 2);
                        assert(v@[0] == p && v@[1] == p);
                        assert(v@[0] != v@[1]);
                        assert(false);
                    }
                }
            }
            None
        }
    }

    /// The two pair ranks, if two distinct ranks each occur twice. The
    /// two ranks are distinct; their order carries no meaning.
    fn two_pairs_ranks(&self) -> (r: Option<[Rank; 2]>)
        ensures
            match r {
                Some(pp) => pp[0] != pp[1] && count_rank(self@, pp[0]) == 2 && count_rank(
                    self@,
                    pp[1],
                ) == 2,
                None => !two_pairs_present(self@),
            },
    {
        let v = self.get_pairs();
        if v.len() == 2 {
            let pp = [v[0], v[1]];
            proof {
                assert(pp[0] == v@[0] && pp[1] == v@[1]);
                assert(v@[0] != v@[1]);
            }
            Some(pp)
        } else {
            proof {
                if v@.len() >= 3 {
                    assert(v@[0] != v@[1] && v@[0] != v@[2] && v@[1] != v@[2]);
                    lemma_count_three(self@, v@[0], v@[1], v@[2]);
                    assert(false);
                }
                if two_pairs_present(self@) {
                    let (p1, p2) = choose|p1: Rank, p2: Rank|
                        p1 != p2 && count_rank(self@, p1) == 2 && count_rank(self@, p2) == 2;
                    assert(v@.contains(p1));
                    assert(v@.contains(p2));
                    let k1 = choose|k: int| 0 <= k < v@.len() && v@[k] == p1;
                    let k2 = choose|k: int| 0 <= k < v@.len() && v@[k] == p2;
                    assert(k1 != k2);
                    assert(v@.len() >= 2);
                    assert(false);
                }
            }
            None
        }
    }

    /// The rank of the triplet, if the hand holds both a triplet and a pair.
    fn full_house_rank(&self) -> (r: Option<Rank>)
        ensures
            match r {
                Some(t) => count_rank(self@, t) == 3 && has_group(self@, 2),
                None => !(has_group(self@, 3) && has_group(self@, 2)),
            },
    {
        match self.three_of_a_kind_rank() {
            None => None,
            Some(t) => {
                match self.pair_rank() {
                    Some(_p) => Some(t),
                    None => {
                        proof {
                            if has_group(self@, 2) {
                                let p = choose|p: Rank| count_rank(self@, p) == 2;
                                assert(exactly_one_pair(self@)) by {
                                    assert forall|q: Rank| q != p implies count_rank(self@, q)
                                        != 2 by {
                                        if count_rank(self@, q) == 2 {
                                            assert(t != p && t != q);
                                            lemma_count_three(self@, t, p, q);
                                            assert(self@.len() == 5);
                                            assert(false);
                                        }
                                    }
                                }
                            }
                        }
                        None
                    },
                }
            },
        }
    }

    /// Classify the hand: the single best-fitting poker combination,
    /// evaluated in strict precedence order. Total: every five-card hand,
    /// duplicates included, yields exactly one combination.
    #[verifier::spinoff_prover]
    pub fn get_combo(&self) -> (c: PokerCombo)
        ensures
            combo_ok(self@, c),
    {
        proof {
            use_type_invariant(self);
        }
        if let Some(straight_rank) = self.straight_rank() {
            if self.is_flush() {
                PokerCombo::StraightFlush(straight_rank)
            } else {
                PokerCombo::Straight(straight_rank)
            }
        } else if let Some(flush_rank) = self.flush_rank() {
            PokerCombo::Flush(flush_rank)
        } else if let Some(four_of_a_kind_rank) = self.four_of_a_kind_rank() {
            PokerCombo::FourOfAKind(four_of_a_kind_rank)
        } else if let Some(full_house_rank) = self.full_house_rank() {
            PokerCombo::FullHouse(full_house_rank)
        } else if let Some(three_of_a_kind_rank) = self.three_of_a_kind_rank() {
            PokerCombo::ThreeOfAKind(three_of_a_kind_rank)
        } else if let Some(two_pairs_ranks) = self.two_pairs_ranks() {
            PokerCombo::TwoPairs(two_pairs_ranks)
        } else if let Some(pair_rank) = self.pair_rank() {
            proof {
                assert(!two_pairs_present(self@)) by {
                    if two_pairs_present(self@) {
                    }
                }
            }
            PokerCombo::Pair(pair_rank)
        } else {
            proof {
                assert(!has_group(self@, 2)) by {
                    if has_group(self@, 2) {
                        let p = choose|p: Rank| count_rank(self@, p) == 2;
                        assert(exactly_one_pair(self@)) by {
                            assert forall|q: Rank| q != p implies count_rank(self@, q) != 2 by {
                                if count_rank(self@, q) == 2 {
                                    assert(two_pairs_present(self@));
                                }
                            }
                        }
                    }
                }
            }
            PokerCombo::Top(self.top_rank())
        }
    }
}

/// A five-card hand matches exactly one combination: any two results that
/// both satisfy `combo_ok` agree, except that the two ranks of a two-pair
/// hand may come in either order.
pub proof fn lemma_combo_unique(s: Seq<Card>, c1: PokerCombo, c2: PokerCombo)
    requires
        s.len() == 5,
        combo_ok(s, c1),
        combo_ok(s, c2),
    ensures
        match (c1, c2) {
            (PokerCombo::TwoPairs(pp1), PokerCombo::TwoPairs(pp2)) => (pp1[0] == pp2[0] && pp1[1]
                == pp2[1]) || (pp1[0] == pp2[1] && pp1[1] == pp2[0]),
            _ => c1 == c2,
        },
{
    match straight_rank_of(s) {
        Some(_r) => {
        },
        None => {
            if all_one_suit(s) {
                let t1 = c1->Flush_0;
                let t2 = c2->Flush_0;
                lemma_top_rank_unique(s, t1, t2);
            } else if has_group(s, 4) {
                if c1->FourOfAKind_0 != c2->FourOfAKind_0 {
                    lemma_count_two(s, c1->FourOfAKind_0, c2->FourOfAKind_0);
                    assert(false);
                }
            } else if has_group(s, 3) && has_group(s, 2) {
                if c1->FullHouse_0 != c2->FullHouse_0 {
                    lemma_count_two(s, c1->FullHouse_0, c2->FullHouse_0);
                    assert(false);
                }
            } else if has_group(s, 3) {
                if c1->ThreeOfAKind_0 != c2->ThreeOfAKind_0 {
                    lemma_count_two(s, c1->ThreeOfAKind_0, c2->ThreeOfAKind_0);
                    assert(false);
                }
            } else if two_pairs_present(s) {
                let pp1 = c1->TwoPairs_0;
                let pp2 = c2->TwoPairs_0;
                if pp2[0] != pp1[0] && pp2[0] != pp1[1] {
                    lemma_count_three(s, pp1[0], pp1[1], pp2[0]);
                    assert(false);
                }
                if pp2[1] != pp1[0] && pp2[1] != pp1[1] {
                    lemma_count_three(s, pp1[0], pp1[1], pp2[1]);
                    assert(false);
                }
            } else if has_group(s, 2) {
                if c1->Pair_0 != c2->Pair_0 {
                    lemma_count_two(s, c1->Pair_0, c2->Pair_0);
                    assert(false);
                }
            } else {
                lemma_top_rank_unique(s, c1->Top_0, c2->Top_0);
            }
        },
    }
}

/// A non-empty hand has one highest rank.
proof fn lemma_top_rank_unique(s: Seq<Card>, t1: Rank, t2: Rank)
    requires
        is_top_rank(s, t1),
        is_top_rank(s, t2),
    ensures
        t1 == t2,
{
    let i1 = choose|i: int| 0 <= i < s.len() && #[trigger] s[i].rank == t1;
    let i2 = choose|i: int| 0 <= i < s.len() && #[trigger] s[i].rank == t2;
    assert(rank_idx(s[i1].rank) <= rank_idx(t2));
    assert(rank_idx(s[i2].rank) <= rank_idx(t1));
    crate::deck::lemma_rank_idx_injective(t1, t2);
}

} // verus!
