//! The deck of 52 cards, and the drawing of a hand from it.

use crate::card::{Card, Rank, Suit};
use crate::hand::Hand;
use itertools::Itertools;
use rand::rngs::ThreadRng;
use rand::seq::SliceRandom;
use vstd::prelude::*;

verus! {

/// The four suits, in the order in which the deck holds them.
pub const ALL_SUITS: [Suit; 4] = [Suit::Clubs, Suit::Diamonds, Suit::Hearts, Suit::Spades];

/// The thirteen ranks, from the ace up to the king.
pub const ALL_RANKS: [Rank; 13] = [
    Rank::Ace,
    Rank::Two,
    Rank::Three,
    Rank::Four,
    Rank::Five,
    Rank::Six,
    Rank::Seven,
    Rank::Eight,
    Rank::Nine,
    Rank::Ten,
    Rank::Jack,
    Rank::Queen,
    Rank::King,
];

/// The 52 cards in the order of the deck: suit after suit, and within a suit from the ace
/// up to the king.
pub open spec fn domain() -> Seq<Card> {
    Seq::new(52, |k: int| Card { rank: ALL_RANKS@[k % 13], suit: ALL_SUITS@[k / 13] })
}

/// `Itertools::cartesian_product` of suits and ranks, collected: every pair of a suit and a
/// rank, the suits in their order and, under each suit, the ranks in theirs. The pairs are
/// asked to be few enough for any machine to hold.
#[verifier::external_body]
fn cartesian_product(suits: &[Suit], ranks: &[Rank]) -> (pairs: Vec<(Suit, Rank)>)
    requires
        suits@.len() * ranks@.len() <= 0xffff,
    ensures
        pairs@.len() == suits@.len() * ranks@.len(),
        forall|k: int|
            0 <= k < pairs@.len() ==> #[trigger] pairs@[k] == (
                suits@[k / ranks@.len() as int],
                ranks@[k % ranks@.len() as int],
            ),
{
    suits.iter().copied().cartesian_product(ranks.iter().copied()).collect()
}

/// The deck: every card once.
pub fn deck() -> (deck: Vec<Card>)
    ensures
        deck@ == domain(),
{
    let suits = ALL_SUITS;
    let ranks = ALL_RANKS;
    assert(suits@.len() == 4 && ranks@.len() == 13);
    let pairs = cartesian_product(suits.as_slice(), ranks.as_slice());
    let mut deck: Vec<Card> = Vec::new();
    let mut k: usize = 0;
    while k < 52
        invariant
            k <= 52,
            pairs@.len() == 52,
            deck@.len() == k,
            forall|i: int|
                0 <= i < 52 ==> #[trigger] pairs@[i] == (ALL_SUITS@[i / 13], ALL_RANKS@[i % 13]),
            forall|i: int| 0 <= i < k ==> #[trigger] deck@[i] == domain()[i],
        decreases 52 - k,
    {
        let (suit, rank) = pairs[k];
        deck.push(Card::new(rank, suit));
        k += 1;
    }
    assert(deck@ =~= domain());
    deck
}

/// The place of a suit in the deck's order of suits.
pub open spec fn suit_place(suit: Suit) -> int {
    match suit {
        Suit::Clubs => 0,
        Suit::Diamonds => 1,
        Suit::Hearts => 2,
        Suit::Spades => 3,
    }
}

/// The place of a card in the deck.
pub open spec fn place(card: Card) -> int {
    13 * suit_place(card.suit) + card.rank.value() - 1
}

/// The deck holds 52 cards, no card twice, and every card there is: each stands at its
/// place.
pub proof fn lemma_domain()
    ensures
        domain().len() == 52,
        domain().no_duplicates(),
        forall|card: Card| 0 <= #[trigger] place(card) < 52 && domain()[place(card)] == card,
        forall|card: Card| #[trigger] domain().contains(card),
        forall|k: int| 0 <= k < 52 ==> place(#[trigger] domain()[k]) == k,
{
    assert(ALL_SUITS@.len() == 4 && ALL_RANKS@.len() == 13);
    assert(ALL_SUITS@[0] == Suit::Clubs && ALL_SUITS@[1] == Suit::Diamonds && ALL_SUITS@[2]
        == Suit::Hearts && ALL_SUITS@[3] == Suit::Spades);
    assert(ALL_RANKS@[0] == Rank::Ace && ALL_RANKS@[1] == Rank::Two && ALL_RANKS@[2] == Rank::Three
        && ALL_RANKS@[3] == Rank::Four && ALL_RANKS@[4] == Rank::Five && ALL_RANKS@[5] == Rank::Six
        && ALL_RANKS@[6] == Rank::Seven && ALL_RANKS@[7] == Rank::Eight && ALL_RANKS@[8]
        == Rank::Nine && ALL_RANKS@[9] == Rank::Ten && ALL_RANKS@[10] == Rank::Jack
        && ALL_RANKS@[11] == Rank::Queen && ALL_RANKS@[12] == Rank::King);
    assert forall|card: Card| 0 <= #[trigger] place(card) < 52 && domain()[place(card)]
        == card by {
        let k = place(card);
        assert(k / 13 == suit_place(card.suit) && k % 13 == card.rank.value() - 1);
    }
    assert forall|card: Card| #[trigger] domain().contains(card) by {
        assert(domain()[place(card)] == card);
    }
    assert forall|k: int| 0 <= k < 52 implies place(#[trigger] domain()[k]) == k by {
        let i = k / 13;
        let j = k % 13;
        assert(0 <= i < 4 && 0 <= j < 13 && k == 13 * i + j);
        assert(suit_place(ALL_SUITS@[i]) == i);
        assert(ALL_RANKS@[j].value() == j + 1);
    }
    assert forall|a: int, b: int| 0 <= a < 52 && 0 <= b < 52 && a != b implies domain()[a]
        != domain()[b] by {
        assert(place(domain()[a]) == a && place(domain()[b]) == b);
    }
}

/// `chosen` are cards of `deck`, each taken from a place of its own.
pub open spec fn drawn_from(chosen: Seq<Card>, deck: Seq<Card>) -> bool {
    exists|places: Seq<int>|
        {
            &&& #[trigger] places.len() == chosen.len()
            &&& places.no_duplicates()
            &&& forall|i: int|
                0 <= i < places.len() ==> 0 <= #[trigger] places[i] < deck.len() && chosen[i]
                    == deck[places[i]]
        }
}

/// The generator that `rand` keeps for each thread.
#[verifier::external_type_specification]
#[verifier::external_body]
pub struct ExThreadRng(ThreadRng);

/// `rand::thread_rng`: a handle to the calling thread's generator. Nothing is claimed of it.
/// The function panics where the operating system gives the thread's generator no seed.
pub assume_specification[ rand::thread_rng ]() -> ThreadRng;

/// `SliceRandom::choose_multiple`, with what it chose copied out: `amount` cards of `deck`,
/// or all of them where `deck` has fewer, each from another place of `deck`. Which places,
/// and in which order, is left to `rng`.
#[verifier::external_body]
fn choose_multiple(deck: &[Card], rng: &mut ThreadRng, amount: usize) -> (chosen: Vec<Card>)
    ensures
        chosen@.len() == if amount <= deck@.len() {
            amount as int
        } else {
            deck@.len() as int
        },
        drawn_from(chosen@, deck@),
{
    deck.choose_multiple(rng, amount).copied().collect()
}

/// Cards taken from different places of a deck without duplicates are all different.
pub proof fn lemma_drawn_differ(chosen: Seq<Card>, deck: Seq<Card>)
    requires
        drawn_from(chosen, deck),
        deck.no_duplicates(),
    ensures
        chosen.no_duplicates(),
        forall|i: int| 0 <= i < chosen.len() ==> deck.contains(#[trigger] chosen[i]),
{
    let places = choose|places: Seq<int>|
        {
            &&& #[trigger] places.len() == chosen.len()
            &&& places.no_duplicates()
            &&& forall|i: int|
                0 <= i < places.len() ==> 0 <= #[trigger] places[i] < deck.len() && chosen[i]
                    == deck[places[i]]
        };
    assert forall|i: int, j: int| 0 <= i < chosen.len() && 0 <= j < chosen.len() && i
        != j implies chosen[i] != chosen[j] by {
        assert(places[i] != places[j]);
        assert(chosen[i] == deck[places[i]] && chosen[j] == deck[places[j]]);
    }
    assert forall|i: int| 0 <= i < chosen.len() implies deck.contains(#[trigger] chosen[i]) by {
        assert(chosen[i] == deck[places[i]]);
    }
}

/// Draw a [`Hand`] of five different [`Card`]s from the deck, as `rng` picks them.
///
/// Whatever `rng` picks, the five cards come from five places of a deck that holds no card
/// twice, so they always make a hand.
pub fn draw_random_hand(rng: &mut ThreadRng) -> (hand: Hand)
    ensures
        hand@.finite(),
        hand@.len() == 5,
        hand@.subset_of(domain().to_set()),
{
    let deck = deck();
    let chosen = choose_multiple(deck.as_slice(), rng, 5);
    proof {
        lemma_domain();
        lemma_drawn_differ(chosen@, deck@);
    }
    Hand::try_from(chosen.as_slice()).expect("we gave five unique cards")
}

/// Draw a [`Hand`] of five different [`Card`]s with the calling thread's generator.
pub fn draw_hand() -> (hand: Hand)
    ensures
        hand@.finite(),
        hand@.len() == 5,
        hand@.subset_of(domain().to_set()),
{
    let mut rng = rand::thread_rng();
    draw_random_hand(&mut rng)
}

} // verus!
