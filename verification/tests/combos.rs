use poker::deck::{Card, Rank, Suit};
use poker::poker::{Hand, PokerCombo};

use Rank::{Ace, Eight, Five, Four, Jack, King, Nine, Queen, Seven, Six, Ten, Three, Two};
use Suit::{Clubs, Diamonds, Hearts, Spades};

fn combo_of(cards: [Card; 5]) -> PokerCombo {
    Hand::new(cards).get_combo()
}

#[test]
fn wheel_suited_is_straight_flush_five() {
    let combo = combo_of([
        Two.of(Diamonds),
        Three.of(Diamonds),
        Four.of(Diamonds),
        Five.of(Diamonds),
        Ace.of(Diamonds),
    ]);
    assert_eq!(combo, PokerCombo::StraightFlush(Five));
}

#[test]
fn wheel_unsuited_is_straight_five() {
    let combo = combo_of([
        Two.of(Diamonds),
        Three.of(Hearts),
        Four.of(Diamonds),
        Five.of(Diamonds),
        Ace.of(Diamonds),
    ]);
    assert_eq!(combo, PokerCombo::Straight(Five));
}

#[test]
fn broadway_suited_is_straight_flush_ace() {
    let combo = combo_of([
        Ten.of(Spades),
        Jack.of(Spades),
        Queen.of(Spades),
        King.of(Spades),
        Ace.of(Spades),
    ]);
    assert_eq!(combo, PokerCombo::StraightFlush(Ace));
}

#[test]
fn middle_straight() {
    let combo = combo_of([
        Six.of(Clubs),
        Four.of(Hearts),
        Five.of(Diamonds),
        Three.of(Spades),
        Seven.of(Clubs),
    ]);
    assert_eq!(combo, PokerCombo::Straight(Seven));
}

#[test]
fn four_aces_is_four_of_a_kind() {
    let combo = combo_of([
        Ace.of(Spades),
        Ace.of(Hearts),
        Ace.of(Diamonds),
        Ace.of(Clubs),
        King.of(Spades),
    ]);
    assert_eq!(combo, PokerCombo::FourOfAKind(Ace));
}

#[test]
fn aces_over_kings_is_full_house_ace() {
    let combo = combo_of([
        Ace.of(Spades),
        Ace.of(Hearts),
        Ace.of(Diamonds),
        King.of(Clubs),
        King.of(Spades),
    ]);
    assert_eq!(combo, PokerCombo::FullHouse(Ace));
}

#[test]
fn no_combo_is_top_ace() {
    let combo = combo_of([
        Two.of(Spades),
        Five.of(Hearts),
        Six.of(Clubs),
        King.of(Spades),
        Ace.of(Diamonds),
    ]);
    assert_eq!(combo, PokerCombo::Top(Ace));
}

#[test]
fn flush_takes_top_rank() {
    let combo = combo_of([
        Two.of(Hearts),
        Five.of(Hearts),
        Seven.of(Hearts),
        Nine.of(Hearts),
        King.of(Hearts),
    ]);
    assert_eq!(combo, PokerCombo::Flush(King));
}

#[test]
fn three_of_a_kind() {
    let combo = combo_of([
        Eight.of(Spades),
        Eight.of(Hearts),
        Eight.of(Diamonds),
        Two.of(Clubs),
        King.of(Spades),
    ]);
    assert_eq!(combo, PokerCombo::ThreeOfAKind(Eight));
}

#[test]
fn two_pairs_are_an_unordered_set() {
    let combo = combo_of([
        King.of(Spades),
        Two.of(Hearts),
        King.of(Diamonds),
        Two.of(Clubs),
        Nine.of(Spades),
    ]);
    match combo {
        PokerCombo::TwoPairs(pair_ranks) => {
            assert!(pair_ranks == [Two, King] || pair_ranks == [King, Two]);
        }
        other => panic!("expected two pairs, got {:?}", other),
    }
}

#[test]
fn single_pair() {
    let combo = combo_of([
        Queen.of(Spades),
        Queen.of(Hearts),
        Two.of(Diamonds),
        Seven.of(Clubs),
        King.of(Spades),
    ]);
    assert_eq!(combo, PokerCombo::Pair(Queen));
}

#[test]
fn five_duplicates_of_one_card_are_a_flush() {
    let combo = combo_of([
        Ace.of(Spades),
        Ace.of(Spades),
        Ace.of(Spades),
        Ace.of(Spades),
        Ace.of(Spades),
    ]);
    assert_eq!(combo, PokerCombo::Flush(Ace));
}

#[test]
fn duplicate_cards_can_make_four_of_a_kind() {
    let combo = combo_of([
        Ace.of(Spades),
        Ace.of(Spades),
        Ace.of(Spades),
        Ace.of(Spades),
        King.of(Hearts),
    ]);
    assert_eq!(combo, PokerCombo::FourOfAKind(Ace));
}

#[test]
fn is_flush_checks_suits() {
    let flush = Hand::new([
        Two.of(Hearts),
        Five.of(Hearts),
        Seven.of(Hearts),
        Nine.of(Hearts),
        King.of(Hearts),
    ]);
    assert!(flush.is_flush());
    let mixed = Hand::new([
        Two.of(Hearts),
        Five.of(Spades),
        Seven.of(Hearts),
        Nine.of(Hearts),
        King.of(Hearts),
    ]);
    assert!(!mixed.is_flush());
}

#[test]
fn classify_is_total_over_a_deck_sample() {
    let mut rand = rand::thread_rng();
    for _ in 0..20 {
        let deck = poker::deck::Deck::shuffle(&mut rand);
        let cards = deck.cards();
        for chunk in 0..10 {
            let base = chunk * 5;
            let hand = Hand::new([
                cards[base],
                cards[base + 1],
                cards[base + 2],
                cards[base + 3],
                cards[base + 4],
            ]);
            // Every five-card draw classifies to some combination.
            let _combo = hand.get_combo();
        }
    }
}
