//! The card model: ranks, suits, cards, and the 52-card deck.

use vstd::prelude::*;
use vstd::std_specs::cmp::PartialOrdSpec;

use rand::seq::SliceRandom;

verus! {

/// A card's face value, Two through Ace, totally ordered (Ace high).
#[derive(Clone, Copy, Debug, PartialEq, Eq, Hash, Structural)]
pub enum Rank {
    Two,
    Three,
    Four,
    Five,
    Six,
    Seven,
    Eight,
    Nine,
    Ten,
    Jack,
    Queen,
    King,
    Ace,
}

/// A card's suit; the four suits carry no order, only equality.
#[derive(Clone, Copy, Debug, PartialEq, Eq, Hash, Structural)]
pub enum Suit {
    Spades,
    Hearts,
    Diamonds,
    Clubs,
}

/// A playing card: an immutable (rank, suit) pair. Equality is structural
/// on both fields; the order (see `PartialOrd`) compares rank only.
#[derive(Clone, Copy, Debug, PartialEq, Eq, Hash, Structural)]
pub struct Card {
    pub rank: Rank,
    pub suit: Suit,
}

/// The position of a rank in the Two..Ace order: Two is 0, Ace is 12.
pub open spec fn rank_idx(r: Rank) -> int {
    match r {
        Rank::Two => 0,
        Rank::Three => 1,
        Rank::Four => 2,
        Rank::Five => 3,
        Rank::Six => 4,
        Rank::Seven => 5,
        Rank::Eight => 6,
        Rank::Nine => 7,
        Rank::Ten => 8,
        Rank::Jack => 9,
        Rank::Queen => 10,
        Rank::King => 11,
        Rank::Ace => 12,
    }
}

/// The position of a suit in the order used to lay out a fresh deck.
pub open spec fn suit_idx(s: Suit) -> int {
    match s {
        Suit::Spades => 0,
        Suit::Clubs => 1,
        Suit::Diamonds => 2,
        Suit::Hearts => 3,
    }
}

/// All thirteen ranks, ascending.
pub open spec fn rank_order() -> Seq<Rank> {
    seq![
        Rank::Two,
        Rank::Three,
        Rank::Four,
        Rank::Five,
        Rank::Six,
        Rank::Seven,
        Rank::Eight,
        Rank::Nine,
        Rank::Ten,
        Rank::Jack,
        Rank::Queen,
        Rank::King,
        Rank::Ace,
    ]
}

/// All four suits, in the order a fresh deck is laid out.
pub open spec fn suit_order() -> Seq<Suit> {
    seq![Suit::Spades, Suit::Clubs, Suit::Diamonds, Suit::Hearts]
}

/// The display token of a rank: `2`..`9`, `10`, `J`, `Q`, `K`, `A`.
pub open spec fn rank_symbol(r: Rank) -> Seq<char> {
    match r {
        Rank::Two => seq!['2'],
        Rank::Three => seq!['3'],
        Rank::Four => seq!['4'],
        Rank::Five => seq!['5'],
        Rank::Six => seq!['6'],
        Rank::Seven => seq!['7'],
        Rank::Eight => seq!['8'],
        Rank::Nine => seq!['9'],
        Rank::Ten => seq!['1', '0'],
        Rank::Jack => seq!['J'],
        Rank::Queen => seq!['Q'],
        Rank::King => seq!['K'],
        Rank::Ace => seq!['A'],
    }
}

/// The display glyph of a suit.
pub open spec fn suit_symbol(s: Suit) -> Seq<char> {
    match s {
        Suit::Spades => seq!['♠'],
        Suit::Hearts => seq!['♥'],
        Suit::Diamonds => seq!['♦'],
        Suit::Clubs => seq!['♣'],
    }
}

/// The display token of a card: its rank symbol immediately followed by
/// its suit glyph, with no separator.
pub open spec fn card_symbol(c: Card) -> Seq<char> {
    rank_symbol(c.rank) + suit_symbol(c.suit)
}

impl Rank {
    /// The rank's position in the Two..Ace order, as a machine integer.
    pub fn index(self) -> (i: u8)
        ensures
            i as int == rank_idx(self),
    {
        match self {
            Rank::Two => 0,
            Rank::Three => 1,
            Rank::Four => 2,
            Rank::Five => 3,
            Rank::Six => 4,
            Rank::Seven => 5,
            Rank::Eight => 6,
            Rank::Nine => 7,
            Rank::Ten => 8,
            Rank::Jack => 9,
            Rank::Queen => 10,
            Rank::King => 11,
            Rank::Ace => 12,
        }
    }

    /// Pair this rank with a suit to make a card. Total: every rank/suit
    /// pair is a valid card.
    pub fn of(self, suit: Suit) -> (c: Card)
        ensures
            c.rank == self,
            c.suit == suit,
    {
        Card { rank: self, suit }
    }

    /// The rank's display token.
    pub fn get_symbol(self) -> (s: &'static str)
        ensures
            s@ == rank_symbol(self),
    {
        proof {
            reveal_strlit("2");
            reveal_strlit("3");
            reveal_strlit("4");
            reveal_strlit("5");
            reveal_strlit("6");
            reveal_strlit("7");
            reveal_strlit("8");
            reveal_strlit("9");
            reveal_strlit("10");
            reveal_strlit("J");
            reveal_strlit("Q");
            reveal_strlit("K");
            reveal_strlit("A");
        }
        let s = match self {
            Rank::Two => "2",
            Rank::Three => "3",
            Rank::Four => "4",
            Rank::Five => "5",
            Rank::Six => "6",
            Rank::Seven => "7",
            Rank::Eight => "8",
            Rank::Nine => "9",
            Rank::Ten => "10",
            Rank::Jack => "J",
            Rank::Queen => "Q",
            Rank::King => "K",
            Rank::Ace => "A",
        };
        proof {
            assert(s@ =~= rank_symbol(self));
        }
        s
    }

    /// All thirteen ranks in ascending order.
    pub fn enumerate() -> (a: [Rank; 13])
        ensures
            a@ == rank_order(),
    {
        let a = [
            Rank::Two,
            Rank::Three,
            Rank::Four,
            Rank::Five,
            Rank::Six,
            Rank::Seven,
            Rank::Eight,
            Rank::Nine,
            Rank::Ten,
            Rank::Jack,
            Rank::Queen,
            Rank::King,
            Rank::Ace,
        ];
        proof {
            assert(a@ =~= rank_order());
        }
        a
    }
}

impl Suit {
    /// The suit's display glyph.
    pub fn get_symbol(self) -> (s: &'static str)
        ensures
            s@ == suit_symbol(self),
    {
        proof {
            reveal_strlit("♠");
            reveal_strlit("♥");
            reveal_strlit("♦");
            reveal_strlit("♣");
        }
        let s = match self {
            Suit::Spades => "♠",
            Suit::Hearts => "♥",
            Suit::Diamonds => "♦",
            Suit::Clubs => "♣",
        };
        proof {
            assert(s@ =~= suit_symbol(self));
        }
        s
    }

    /// All four suits, in the order a fresh deck is laid out.
    pub fn enumerate() -> (a: [Suit; 4])
        ensures
            a@ == suit_order(),
    {
        let a = [Suit::Spades, Suit::Clubs, Suit::Diamonds, Suit::Hearts];
        proof {
            assert(a@ =~= suit_order());
        }
        a
    }
}

impl Card {
    /// The card's rank.
    pub fn rank(self) -> (r: Rank)
        ensures
            r == self.rank,
    {
        self.rank
    }

    /// The card's suit.
    pub fn suit(self) -> (s: Suit)
        ensures
            s == self.suit,
    {
        self.suit
    }

    /// The card's display token: rank symbol followed by suit glyph.
    pub fn get_symbol(self) -> (s: String)
        ensures
            s@ == card_symbol(self),
    {
        let mut s = String::new();
        s.append(self.rank().get_symbol());
        s.append(self.suit().get_symbol());
        proof {
            assert(s@ =~= card_symbol(self));
        }
        s
    }
}

impl PartialOrd for Rank {
    /// Ranks compare by their position in the Two..Ace order.
    fn partial_cmp(&self, other: &Self) -> (r: Option<core::cmp::Ordering>) {
        let a = self.index();
        let b = other.index();
        if a < b {
            Some(core::cmp::Ordering::Less)
        } else if a == b {
            Some(core::cmp::Ordering::Equal)
        } else {
            Some(core::cmp::Ordering::Greater)
        }
    }
}

impl vstd::std_specs::cmp::PartialOrdSpecImpl for Rank {
    open spec fn obeys_partial_cmp_spec() -> bool {
        true
    }

    open spec fn partial_cmp_spec(&self, other: &Self) -> Option<core::cmp::Ordering> {
        if rank_idx(*self) < rank_idx(*other) {
            Some(core::cmp::Ordering::Less)
        } else if rank_idx(*self) == rank_idx(*other) {
            Some(core::cmp::Ordering::Equal)
        } else {
            Some(core::cmp::Ordering::Greater)
        }
    }
}

impl PartialOrd for Card {
    /// Cards compare by rank only: two cards of equal rank and different
    /// suit are order-equal even though they are not equal values.
    fn partial_cmp(&self, other: &Self) -> (r: Option<core::cmp::Ordering>) {
        let a = self.rank().index();
        let b = other.rank().index();
        if a < b {
            Some(core::cmp::Ordering::Less)
        } else if a == b {
            Some(core::cmp::Ordering::Equal)
        } else {
            Some(core::cmp::Ordering::Greater)
        }
    }
}

impl vstd::std_specs::cmp::PartialOrdSpecImpl for Card {
    open spec fn obeys_partial_cmp_spec() -> bool {
        true
    }

    open spec fn partial_cmp_spec(&self, other: &Self) -> Option<core::cmp::Ordering> {
        if rank_idx(self.rank) < rank_idx(other.rank) {
            Some(core::cmp::Ordering::Less)
        } else if rank_idx(self.rank) == rank_idx(other.rank) {
            Some(core::cmp::Ordering::Equal)
        } else {
            Some(core::cmp::Ordering::Greater)
        }
    }
}

/// Two ranks at the same position in the Two..Ace order are the same rank.
pub proof fn lemma_rank_idx_injective(r1: Rank, r2: Rank)
    ensures
        rank_idx(r1) == rank_idx(r2) ==> r1 == r2,
{
}

/// Two suits at the same position in the deck layout order are the same suit.
pub proof fn lemma_suit_idx_injective(s1: Suit, s2: Suit)
    ensures
        suit_idx(s1) == suit_idx(s2) ==> s1 == s2,
{
}

/// The rank at position `i` of the ascending rank list has index `i`:
/// the listed Two..Ace order and the order compared by `rank_idx` agree.
pub proof fn lemma_rank_order_positions()
    ensures
        forall|i: int| 0 <= i < 13 ==> #[trigger] rank_idx(rank_order()[i]) == i,
{
    assert forall|i: int| 0 <= i < 13 implies #[trigger] rank_idx(rank_order()[i]) == i by {
        if i == 0 {
            assert(rank_order()[0] == Rank::Two);
        } else if i == 1 {
            assert(rank_order()[1] == Rank::Three);
        } else if i == 2 {
            assert(rank_order()[2] == Rank::Four);
        } else if i == 3 {
            assert(rank_order()[3] == Rank::Five);
        } else if i == 4 {
            assert(rank_order()[4] == Rank::Six);
        } else if i == 5 {
            assert(rank_order()[5] == Rank::Seven);
        } else if i == 6 {
            assert(rank_order()[6] == Rank::Eight);
        } else if i == 7 {
            assert(rank_order()[7] == Rank::Nine);
        } else if i == 8 {
            assert(rank_order()[8] == Rank::Ten);
        } else if i == 9 {
            assert(rank_order()[9] == Rank::Jack);
        } else if i == 10 {
            assert(rank_order()[10] == Rank::Queen);
        } else if i == 11 {
            assert(rank_order()[11] == Rank::King);
        } else {
            assert(rank_order()[12] == Rank::Ace);
        }
    }
}

/// The suit at position `i` of the deck layout list has index `i`.
pub proof fn lemma_suit_order_positions()
    ensures
        forall|i: int| 0 <= i < 4 ==> #[trigger] suit_idx(suit_order()[i]) == i,
{
    assert forall|i: int| 0 <= i < 4 implies #[trigger] suit_idx(suit_order()[i]) == i by {
        if i == 0 {
            assert(suit_order()[0] == Suit::Spades);
        } else if i == 1 {
            assert(suit_order()[1] == Suit::Clubs);
        } else if i == 2 {
            assert(suit_order()[2] == Suit::Diamonds);
        } else {
            assert(suit_order()[3] == Suit::Hearts);
        }
    }
}

/// Ranks are totally ordered by their position in the Two..Ace order:
/// `r1 < r2` holds exactly when r1 comes earlier in that order, two ranks
/// compare equal exactly when they are the same rank, and Ace is the
/// unique maximum.
pub proof fn lemma_rank_order_total(r1: Rank, r2: Rank)
    ensures
        r1.partial_cmp_spec(&r2) == Some(core::cmp::Ordering::Less) <==> rank_idx(r1) < rank_idx(
            r2,
        ),
        r1.partial_cmp_spec(&r2) == Some(core::cmp::Ordering::Equal) <==> r1 == r2,
        r1 != Rank::Ace ==> rank_idx(r1) < rank_idx(Rank::Ace),
{
}

/// Card equality is structural on the (rank, suit) pair — reflexive,
/// symmetric and transitive — while the card order compares rank alone:
/// two cards of equal rank and different suit are order-equal but not
/// equal values.
pub proof fn lemma_card_eq_and_order(c1: Card, c2: Card)
    ensures
        c1 == c2 <==> (c1.rank == c2.rank && c1.suit == c2.suit),
        c1.partial_cmp_spec(&c2) == Some(core::cmp::Ordering::Equal) <==> c1.rank == c2.rank,
        c1.rank == c2.rank && c1.suit != c2.suit ==> c1 != c2 && c1.partial_cmp_spec(&c2)
            == Some(core::cmp::Ordering::Equal),
{
}

/// A full deck: 52 cards, one of every rank and suit combination.
pub struct Deck([Card; 52]);

impl View for Deck {
    type V = Seq<Card>;

    closed spec fn view(&self) -> Seq<Card> {
        self.0@
    }
}

/// Relies on rand's `SliceRandom::shuffle`: it permutes the elements of
/// the slice in place, so the multiset of elements is unchanged.
#[verifier::external_body]
fn shuffle_cards<R: rand::Rng>(cards: &mut Vec<Card>, rng: &mut R)
    ensures
        final(cards)@.to_multiset() == old(cards)@.to_multiset(),
{
    cards.as_mut_slice().shuffle(rng)
}

impl Deck {
    /// The deck's 52 cards.
    pub fn cards(&self) -> (c: &[Card; 52])
        ensures
            c@ == self@,
    {
        &self.0
    }

    /// Deal a full deck in a random order: exactly 52 cards, all distinct,
    /// one of every rank and suit combination.
    #[verifier::spinoff_prover]
    pub fn shuffle<R: rand::Rng>(rand: &mut R) -> (deck: Deck)
        ensures
            deck@.len() == 52,
            deck@.no_duplicates(),
            forall|c: Card| deck@.contains(c),
    {
        let ranks = Rank::enumerate();
        let suits = Suit::enumerate();
        proof {
            lemma_rank_order_positions();
            lemma_suit_order_positions();
        }
        let mut cards: Vec<Card> = Vec::new();
        let mut si: usize = 0;
        while si < 4
            invariant
                si <= 4,
                ranks@ == rank_order(),
                suits@ == suit_order(),
                forall|i: int| 0 <= i < 13 ==> #[trigger] rank_idx(rank_order()[i]) == i,
                forall|i: int| 0 <= i < 4 ==> #[trigger] suit_idx(suit_order()[i]) == i,
                cards@.len() == 13 * si,
                cards@.no_duplicates(),
                forall|k: int| 0 <= k < cards@.len() ==> suit_idx(#[trigger] cards@[k].suit) < si,
                forall|c: Card| suit_idx(c.suit) < si ==> cards@.contains(c),
            decreases 4 - si,
        {
            let su = suits[si];
            let mut ri: usize = 0;
            while ri < 13
                invariant
                    ri <= 13,
                    si < 4,
                    ranks@ == rank_order(),
                    su == suit_order()[si as int],
                    suit_idx(su) == si,
                    forall|i: int| 0 <= i < 13 ==> #[trigger] rank_idx(rank_order()[i]) == i,
                    cards@.len() == 13 * si + ri,
                    cards@.no_duplicates(),
                    forall|k: int|
                        0 <= k < cards@.len() ==> suit_idx(#[trigger] cards@[k].suit) < si || (
                        cards@[k].suit == su && rank_idx(cards@[k].rank) < ri),
                    forall|c: Card| suit_idx(c.suit) < si ==> cards@.contains(c),
                    forall|c: Card|
                        c.suit == su && rank_idx(c.rank) < ri ==> cards@.contains(c),
                decreases 13 - ri,
            {
                let card = ranks[ri].of(su);
                proof {
                    assert(rank_idx(card.rank) == ri);
                    assert(!cards@.contains(card)) by {
                        assert forall|k: int| 0 <= k < cards@.len() implies cards@[k] != card by {
                            if suit_idx(cards@[k].suit) < si {
                            } else {
                                assert(rank_idx(cards@[k].rank) < ri);
                            }
                        }
                    }
                    assert(cards@.push(card).no_duplicates());
                }
                let ghost pre = cards@;
                cards.push(card);
                proof {
                    assert(cards@.contains(card)) by {
                        assert(cards@[pre.len() as int] == card);
                    }
                    assert forall|c: Card| suit_idx(c.suit) < si implies cards@.contains(c) by {
                        assert(pre.contains(c));
                        let k = choose|k: int| 0 <= k < pre.len() && pre[k] == c;
                        assert(cards@[k] == c);
                    }
                    assert forall|c: Card|
                        c.suit == su && rank_idx(c.rank) < ri + 1 implies cards@.contains(c) by {
                        if rank_idx(c.rank) < ri {
                            assert(pre.contains(c));
                            let k = choose|k: int| 0 <= k < pre.len() && pre[k] == c;
                            assert(cards@[k] == c);
                        } else {
                            assert(rank_idx(c.rank) == ri);
                            lemma_rank_idx_injective(c.rank, card.rank);
                            assert(c == card);
                        }
                    }
                }
                ri += 1;
            }
            proof {
                assert forall|c: Card| suit_idx(c.suit) < si + 1 implies cards@.contains(c) by {
                    if suit_idx(c.suit) == si {
                        lemma_suit_idx_injective(c.suit, su);
                        assert(c.suit == su);
                        assert(rank_idx(c.rank) < 13);
                    }
                }
            }
            si += 1;
        }
        proof {
            assert forall|c: Card| cards@.contains(c) by {
                assert(suit_idx(c.suit) < 4);
            }
        }
        let ghost dealt = cards@;
        shuffle_cards(&mut cards, rand);
        proof {
            broadcast use vstd::seq_lib::group_to_multiset_ensures;

            dealt.lemma_multiset_has_no_duplicates();
            assert forall|c: Card| cards@.to_multiset().contains(c) implies cards@.to_multiset()
                .count(c) == 1 by {
                assert(dealt.to_multiset().count(c) == cards@.to_multiset().count(c));
                assert(dealt.to_multiset().contains(c));
            }
            cards@.lemma_multiset_has_no_duplicates_conv();
            assert(dealt.len() == dealt.to_multiset().len());
            assert(cards@.len() == cards@.to_multiset().len());
            assert forall|c: Card| cards@.contains(c) by {
                assert(dealt.contains(c));
                assert(dealt.to_multiset().count(c) > 0);
                assert(cards@.to_multiset().count(c) > 0);
            }
        }
        let mut arr: [Card; 52] = [Rank::Ace.of(Suit::Spades); 52];
        let mut i: usize = 0;
        while i < 52
            invariant
                i <= 52,
                cards@.len() == 52,
                cards@.no_duplicates(),
                forall|c: Card| cards@.contains(c),
                forall|k: int| 0 <= k < i ==> arr@[k] == cards@[k],
            decreases 52 - i,
        {
            arr[i] = cards[i];
            i += 1;
        }
        proof {
            assert(arr@ =~= cards@);
        }
        Deck(arr)
    }
}

} // verus!
