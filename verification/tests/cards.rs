use poker::deck::{Card, Deck, Rank, Suit};
use poker::poker::Hand;
use std::cmp::Ordering;
use std::collections::HashSet;

use Rank::{Ace, Eight, Five, Four, Jack, King, Nine, Queen, Seven, Six, Ten, Three, Two};
use Suit::{Clubs, Diamonds, Hearts, Spades};

#[test]
fn equality_of_cards() {
    assert!(Ace > King);
    assert!(Ace.of(Spades) > King.of(Spades));
    assert_eq!(Ace.of(Spades), Ace.of(Spades));
    assert_ne!(Ace.of(Spades), Ace.of(Hearts));
    assert_ne!(Ace.of(Spades), King.of(Spades));
}

#[test]
fn ok_shuffle() {
    let mut rand = rand::thread_rng();
    let deck = Deck::shuffle(&mut rand);
    let cards = deck.cards();
    let mut set: HashSet<_> = HashSet::default();
    for card in cards.iter() {
        set.insert(card);
    }
    assert!(set.len() == cards.len());
}

#[test]
fn deck_has_every_card_once() {
    let mut rand = rand::thread_rng();
    let deck = Deck::shuffle(&mut rand);
    let cards = deck.cards();
    assert_eq!(cards.len(), 52);
    for rank in Rank::enumerate() {
        for suit in Suit::enumerate() {
            let wanted = rank.of(suit);
            let copies = cards.iter().filter(|c| **c == wanted).count();
            assert_eq!(copies, 1);
        }
    }
}

#[test]
fn rank_order_is_two_through_ace() {
    let ranks = Rank::enumerate();
    assert_eq!(ranks.len(), 13);
    assert_eq!(ranks[0], Two);
    assert_eq!(ranks[12], Ace);
    for i in 0..13 {
        for j in 0..13 {
            assert_eq!(ranks[i] < ranks[j], i < j);
        }
    }
    for rank in ranks {
        if rank != Ace {
            assert!(rank < Ace);
        }
    }
}

#[test]
fn make_card_round_trips() {
    for rank in Rank::enumerate() {
        for suit in Suit::enumerate() {
            let card = rank.of(suit);
            assert_eq!(card.rank(), rank);
            assert_eq!(card.suit(), suit);
        }
    }
}

#[test]
fn card_order_ignores_suit() {
    let spade_ace = Ace.of(Spades);
    let heart_ace = Ace.of(Hearts);
    assert_eq!(spade_ace.partial_cmp(&heart_ace), Some(Ordering::Equal));
    assert_ne!(spade_ace, heart_ace);
    assert!(!(spade_ace < heart_ace) && !(spade_ace > heart_ace));
    assert_eq!(
        Two.of(Clubs).partial_cmp(&Three.of(Clubs)),
        Some(Ordering::Less)
    );
}

#[test]
fn card_equality_laws() {
    let a = Queen.of(Diamonds);
    let b = Queen.of(Diamonds);
    let c = Queen.of(Diamonds);
    assert_eq!(a, a);
    assert_eq!(a, b);
    assert_eq!(b, a);
    assert_eq!(b, c);
    assert_eq!(a, c);
}

#[test]
fn rank_symbols() {
    assert_eq!(Two.get_symbol(), "2");
    assert_eq!(Nine.get_symbol(), "9");
    assert_eq!(Ten.get_symbol(), "10");
    assert_eq!(Jack.get_symbol(), "J");
    assert_eq!(Queen.get_symbol(), "Q");
    assert_eq!(King.get_symbol(), "K");
    assert_eq!(Ace.get_symbol(), "A");
}

#[test]
fn suit_symbols() {
    assert_eq!(Spades.get_symbol(), "\u{2660}");
    assert_eq!(Hearts.get_symbol(), "\u{2665}");
    assert_eq!(Diamonds.get_symbol(), "\u{2666}");
    assert_eq!(Clubs.get_symbol(), "\u{2663}");
}

#[test]
fn card_symbol_concatenates() {
    assert_eq!(Ace.of(Spades).get_symbol(), "A\u{2660}");
    assert_eq!(Ten.of(Hearts).get_symbol(), "10\u{2665}");
}

#[test]
fn hand_sorts_and_renders() {
    let hand = Hand::new([
        Ace.of(Spades),
        Five.of(Hearts),
        Six.of(Clubs),
        King.of(Spades),
        Two.of(Diamonds),
    ]);
    let cards = hand.cards();
    assert_eq!(cards[0], Two.of(Diamonds));
    assert_eq!(cards[1], Five.of(Hearts));
    assert_eq!(cards[2], Six.of(Clubs));
    assert_eq!(cards[3], King.of(Spades));
    assert_eq!(cards[4], Ace.of(Spades));
    assert_eq!(
        hand.to_text(),
        "2\u{2666} 5\u{2665} 6\u{2663} K\u{2660} A\u{2660}"
    );
}

#[test]
fn hand_sort_keeps_duplicates() {
    let hand = Hand::new([
        Nine.of(Hearts),
        Seven.of(Clubs),
        Nine.of(Hearts),
        Four.of(Spades),
        Eight.of(Diamonds),
    ]);
    let cards = hand.cards();
    assert_eq!(cards[0], Four.of(Spades));
    assert_eq!(cards[1], Seven.of(Clubs));
    assert_eq!(cards[2], Eight.of(Diamonds));
    assert_eq!(cards[3], Nine.of(Hearts));
    assert_eq!(cards[4], Nine.of(Hearts));
}
