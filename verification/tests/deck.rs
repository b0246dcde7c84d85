use poker_hands::card::{Card, Rank, Suit};
use poker_hands::classify::classify;
use poker_hands::deck::{deck, draw_hand, draw_random_hand, ALL_RANKS, ALL_SUITS};
use poker_hands::hand::Hand;

fn assert_five_different_cards_of_the_deck(hand: &Hand) {
    let all = deck();
    let cards = hand.cards();
    assert_eq!(cards.len(), 5);
    for (i, card) in cards.iter().enumerate() {
        assert!(all.contains(card));
        for other in &cards[i + 1..] {
            assert_ne!(card, other);
        }
    }
}

#[test]
pub fn can_draw() {
    for _ in 0..1000 {
        draw_hand();
    }
}

#[test]
fn every_drawn_hand_holds_five_different_cards_of_the_deck() {
    for _ in 0..1000 {
        assert_five_different_cards_of_the_deck(&draw_hand());
    }
}

#[test]
fn a_hand_can_be_drawn_with_a_generator_of_the_caller() {
    let mut rng = rand::thread_rng();
    for _ in 0..1000 {
        let hand = draw_random_hand(&mut rng);
        assert_five_different_cards_of_the_deck(&hand);
        classify(&hand);
    }
}

#[test]
fn draws_differ() {
    let first = draw_hand();
    let mut differed = false;
    for _ in 0..100 {
        let next = draw_hand();
        if next.cards().iter().any(|card| !first.cards().contains(card)) {
            differed = true;
        }
    }
    assert!(differed);
}

#[test]
fn the_deck_holds_every_card_once() {
    let all = deck();
    assert_eq!(all.len(), 52);
    for suit in ALL_SUITS {
        for rank in ALL_RANKS {
            let card = Card::new(rank, suit);
            assert_eq!(all.iter().filter(|&&other| other == card).count(), 1);
        }
    }
}

#[test]
fn the_deck_runs_suit_after_suit_from_ace_to_king() {
    let all = deck();
    assert_eq!(all[0], Card::new(Rank::Ace, Suit::Clubs));
    assert_eq!(all[1], Card::new(Rank::Two, Suit::Clubs));
    assert_eq!(all[12], Card::new(Rank::King, Suit::Clubs));
    assert_eq!(all[13], Card::new(Rank::Ace, Suit::Diamonds));
    assert_eq!(all[26], Card::new(Rank::Ace, Suit::Hearts));
    assert_eq!(all[39], Card::new(Rank::Ace, Suit::Spades));
    assert_eq!(all[51], Card::new(Rank::King, Suit::Spades));
    for (k, card) in all.iter().enumerate() {
        assert_eq!(card.suit, ALL_SUITS[k / 13]);
        assert_eq!(card.rank, ALL_RANKS[k % 13]);
        assert_eq!(usize::from(card.rank.numeric()), k % 13 + 1);
    }
}

#[test]
fn there_are_four_suits_and_thirteen_ranks() {
    assert_eq!(
        ALL_SUITS,
        [Suit::Clubs, Suit::Diamonds, Suit::Hearts, Suit::Spades]
    );
    assert_eq!(ALL_RANKS.len(), 13);
    assert_eq!(ALL_RANKS[0], Rank::Ace);
    assert_eq!(ALL_RANKS[9], Rank::Ten);
    assert_eq!(ALL_RANKS[12], Rank::King);
}
