//! A [`Hand`] of five different [`Card`]s, and how often each rank and suit occurs in it.

use crate::card::Card;
use vstd::prelude::*;
use vstd::seq_lib::seq_to_set_is_finite;
use vstd::std_specs::convert::TryFromSpecImpl;

verus! {

/// The categories of a five-card hand, from the weakest to the strongest.
#[derive(Eq, PartialEq, Hash, Debug, Copy, Clone, Ord, PartialOrd, Structural)]
pub enum HandCategory {
    HighCard,
    OnePair,
    TwoPair,
    ThreeOfAKind,
    Straight,
    Flush,
    FullHouse,
    FourOfAKind,
    StraightFlush,
}

impl HandCategory {
    /// The place of a category in the order of strength, 0 for the weakest.
    pub open spec fn strength(self) -> nat {
        match self {
            HandCategory::HighCard => 0,
            HandCategory::OnePair => 1,
            HandCategory::TwoPair => 2,
            HandCategory::ThreeOfAKind => 3,
            HandCategory::Straight => 4,
            HandCategory::Flush => 5,
            HandCategory::FullHouse => 6,
            HandCategory::FourOfAKind => 7,
            HandCategory::StraightFlush => 8,
        }
    }
}

/// Why a sequence of cards is not a hand.
#[derive(Copy, Clone, Eq, PartialEq, Debug, Structural)]
pub enum HandConstructionError {
    /// The sequence does not hold five cards; holds the number it has.
    Length(usize),
    /// Some card occurs more than once; holds the number of different cards.
    Uniqueness(usize),
}

/// A hand of five different [`Card`]s.
///
/// The only way to make one checks that the cards are five and all different, so every
/// `Hand` is.
#[derive(Debug)]
pub struct Hand {
    cards: Vec<Card>,
}

impl View for Hand {
    type V = Set<Card>;

    /// The cards of the hand; their order plays no part.
    closed spec fn view(&self) -> Set<Card> {
        self.cards@.to_set()
    }
}

impl Clone for Hand {
    fn clone(&self) -> (copy: Self)
        ensures
            copy@ == self@,
    {
        proof {
            use_type_invariant(self);
        }
        let cards = self.cards.clone();
        assert(cards@ =~= self.cards@);
        Hand { cards }
    }
}

impl Hand {
    #[verifier::type_invariant]
    spec fn five_different_cards(&self) -> bool {
        self.cards@.len() == 5 && self.cards@.no_duplicates()
    }

    /// What is wrong with a sequence of cards offered as a hand, if anything: first its
    /// length, then a card that occurs twice.
    pub open spec fn fault(cards: Seq<Card>) -> Option<HandConstructionError> {
        if cards.len() != 5 {
            Some(HandConstructionError::Length(cards.len() as usize))
        } else if cards.to_set().len() != 5 {
            Some(HandConstructionError::Uniqueness(cards.to_set().len() as usize))
        } else {
            None
        }
    }

    /// The five cards, in no particular order.
    pub fn cards(&self) -> (cards: &[Card])
        ensures
            cards@.len() == 5,
            cards@.no_duplicates(),
            cards@.to_set() == self@,
            self@.finite(),
            self@.len() == 5,
    {
        proof {
            use_type_invariant(self);
            lemma_five_different(self.cards@);
        }
        self.cards.as_slice()
    }
}

/// Whether `card` is among `cards`.
fn holds(cards: &Vec<Card>, card: Card) -> (found: bool)
    ensures
        found == cards@.contains(card),
{
    let mut i: usize = 0;
    while i < cards.len()
        invariant
            i <= cards.len(),
            forall|j: int| 0 <= j < i ==> cards@[j] != card,
        decreases cards.len() - i,
    {
        if cards[i] == card {
            return true;
        }
        i += 1;
    }
    false
}

/// Five cards are all different exactly when they are five as a set.
pub proof fn lemma_five_different(cards: Seq<Card>)
    requires
        cards.len() == 5,
    ensures
        cards.no_duplicates() <==> cards.to_set().len() == 5,
        cards.to_set().finite(),
        cards.to_set().len() <= 5,
{
    seq_to_set_is_finite(cards);
    cards.lemma_cardinality_of_set();
    if cards.no_duplicates() {
        cards.unique_seq_to_set();
    }
    if cards.to_set().len() == 5 {
        cards.lemma_no_dup_set_cardinality();
    }
}

/// A hand keeps its cards in an order that plays no part in what the hand is, so no spec
/// function names the hand that a conversion gives: `try_from` itself says what it returns.
impl<'a> TryFromSpecImpl<&'a [Card]> for Hand {
    open spec fn obeys_try_from_spec() -> bool {
        false
    }

    open spec fn try_from_spec(value: &'a [Card]) -> Result<Self, Self::Error> {
        arbitrary()
    }
}

impl<'a> TryFrom<&'a [Card]> for Hand {
    type Error = HandConstructionError;

    /// Makes a hand of the given cards, if they are exactly five and all different.
    ///
    /// Any other number of cards is refused with that number; five cards of which some are
    /// equal are refused with the number of different cards among them.
    fn try_from(value: &'a [Card]) -> (hand: Result<Self, Self::Error>)
        ensures
            hand is Ok <==> value@.len() == 5 && value@.no_duplicates(),
            match hand {
                Ok(hand) => Hand::fault(value@) is None && hand@ == value@.to_set()
                    && hand@.finite() && hand@.len() == 5,
                Err(refused) => Hand::fault(value@) == Some(refused),
            },
    {
        let length = value.len();
        if length != 5 {
            return Err(HandConstructionError::Length(length));
        }
        let mut different: Vec<Card> = Vec::new();
        let mut i: usize = 0;
        while i < 5
            invariant
                i <= 5,
                value@.len() == 5,
                different@.len() <= i,
                different@.no_duplicates(),
                different@.to_set() =~= value@.take(i as int).to_set(),
            decreases 5 - i,
        {
            let card = value[i];
            proof {
                assert(value@.take(i + 1) =~= value@.take(i as int).push(card));
                value@.take(i as int).lemma_push_to_set_commute(card);
            }
            if !holds(&different, card) {
                proof {
                    different@.lemma_push_to_set_commute(card);
                }
                different.push(card);
            }
            i += 1;
        }
        proof {
            assert(value@.take(5) =~= value@);
            different@.unique_seq_to_set();
            lemma_five_different(value@);
        }
        if different.len() != 5 {
            return Err(HandConstructionError::Uniqueness(different.len()));
        }
        Ok(Hand { cards: different })
    }
}

} // verus!
