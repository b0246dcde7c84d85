//! The classification of a [`Hand`]: [`classify`] and the tests it is made of.
//!
//! The single tests say no more than their names: [`is_one_pair`] is true of a full house
//! too. It is the order in which [`classify`] asks them that names the strongest category
//! of a hand.

use crate::card::{Card, Rank, Suit};
use crate::count::{
    frequency, keyed, lemma_frequency_positive, lemma_lists_len, lemma_rank_counts_bounds,
    lemma_suit_counts_bounds, lists, rank_counts, rank_of, suit_counts, suit_of, RankCount,
    SuitCount,
};
use crate::hand::{Hand, HandCategory};
use itertools::Itertools;
use vstd::prelude::*;

verus! {

/// Some rank occurs exactly `n` times.
pub open spec fn some_count(ranks: Map<Rank, nat>, n: nat) -> bool {
    exists|rank: Rank| #[trigger] ranks.contains_pair(rank, n)
}

/// The ranks that occur exactly twice.
pub open spec fn pairs(ranks: Map<Rank, nat>) -> Set<Rank> {
    ranks.dom().filter(|rank: Rank| ranks[rank] == 2)
}

/// The ranks reach from a lowest to a highest that is four above it, the ace counting as 1.
pub open spec fn run_of_five(ranks: Set<Rank>) -> bool {
    exists|low: Rank, high: Rank|
        #![trigger ranks.contains(low), ranks.contains(high)]
        {
            &&& ranks.contains(low)
            &&& ranks.contains(high)
            &&& high.value() - low.value() == 4
            &&& forall|rank: Rank| #[trigger]
                ranks.contains(rank) ==> low.value() <= rank.value() <= high.value()
        }
}

/// Ten, jack, queen, king and ace: the one straight in which the ace stands above the king.
pub open spec fn ten_to_ace() -> Set<Rank> {
    set![Rank::Ten, Rank::Jack, Rank::Queen, Rank::King, Rank::Ace]
}

/// All cards share one suit.
pub open spec fn flush(suits: Map<Suit, nat>) -> bool {
    suits.dom().len() == 1
}

/// Five different ranks in a row, or ten to ace. No other set of ranks goes round the ace.
pub open spec fn straight(ranks: Map<Rank, nat>) -> bool {
    ranks.dom().len() == 5 && (run_of_five(ranks.dom()) || ranks.dom() == ten_to_ace())
}

/// Some rank occurs four times.
pub open spec fn four_of_a_kind(ranks: Map<Rank, nat>) -> bool {
    some_count(ranks, 4)
}

/// Two different ranks, one of which occurs twice or three times.
pub open spec fn full_house(ranks: Map<Rank, nat>) -> bool {
    ranks.dom().len() == 2 && (some_count(ranks, 2) || some_count(ranks, 3))
}

/// Some rank occurs three times.
pub open spec fn three_of_a_kind(ranks: Map<Rank, nat>) -> bool {
    some_count(ranks, 3)
}

/// Exactly two ranks occur twice.
pub open spec fn two_pair(ranks: Map<Rank, nat>) -> bool {
    pairs(ranks).len() == 2
}

/// Some rank occurs twice.
pub open spec fn one_pair(ranks: Map<Rank, nat>) -> bool {
    some_count(ranks, 2)
}

/// Whether the condition of `category` holds of `cards`. The conditions overlap: those of
/// several categories may hold of one hand, and that of the high card holds of all.
pub open spec fn meets(cards: Set<Card>, category: HandCategory) -> bool {
    match category {
        HandCategory::StraightFlush => straight(rank_counts(cards)) && flush(suit_counts(cards)),
        HandCategory::FourOfAKind => four_of_a_kind(rank_counts(cards)),
        HandCategory::FullHouse => full_house(rank_counts(cards)),
        HandCategory::Flush => flush(suit_counts(cards)),
        HandCategory::Straight => straight(rank_counts(cards)),
        HandCategory::ThreeOfAKind => three_of_a_kind(rank_counts(cards)),
        HandCategory::TwoPair => two_pair(rank_counts(cards)),
        HandCategory::OnePair => one_pair(rank_counts(cards)),
        HandCategory::HighCard => true,
    }
}

/// The category of `cards`: the first whose condition holds, asked from the strongest down.
pub open spec fn category_of(cards: Set<Card>) -> HandCategory {
    if meets(cards, HandCategory::StraightFlush) {
        HandCategory::StraightFlush
    } else if meets(cards, HandCategory::FourOfAKind) {
        HandCategory::FourOfAKind
    } else if meets(cards, HandCategory::FullHouse) {
        HandCategory::FullHouse
    } else if meets(cards, HandCategory::Flush) {
        HandCategory::Flush
    } else if meets(cards, HandCategory::Straight) {
        HandCategory::Straight
    } else if meets(cards, HandCategory::ThreeOfAKind) {
        HandCategory::ThreeOfAKind
    } else if meets(cards, HandCategory::TwoPair) {
        HandCategory::TwoPair
    } else if meets(cards, HandCategory::OnePair) {
        HandCategory::OnePair
    } else {
        HandCategory::HighCard
    }
}

/// A hand gets a category whose condition it meets, and meets the condition of no stronger
/// one: a hand with four of a kind is never called a full house or three of a kind.
pub proof fn lemma_strongest_category(cards: Set<Card>, category: HandCategory)
    ensures
        meets(cards, category_of(cards)),
        meets(cards, category) ==> category.strength() <= category_of(cards).strength(),
        category.strength() > category_of(cards).strength() ==> !meets(cards, category),
{
}

/// The category of a hand rests on its cards alone: hands of the same cards have the same
/// category, in whatever order the cards were given and however often one asks.
pub proof fn lemma_same_cards_same_category(one: Hand, other: Hand)
    requires
        one@ == other@,
    ensures
        category_of(one@) == category_of(other@),
{
}

/// A flush is what its name says: one suit alone has a count exactly where all cards share
/// their suit.
pub proof fn lemma_flush_one_suit(cards: Set<Card>)
    requires
        cards.finite(),
        cards.len() > 0,
    ensures
        flush(suit_counts(cards)) <==> forall|a: Card, b: Card|
            cards.contains(a) && cards.contains(b) ==> a.suit == b.suit,
{
    let suits = suit_counts(cards).dom();
    lemma_suit_counts_bounds(cards, Suit::Clubs);
    assert forall|card: Card| cards.contains(card) implies suits.contains(card.suit) by {
        lemma_frequency_positive(cards, suit_of(), card.suit);
    }
    assert forall|suit: Suit| suits.contains(suit) implies exists|card: Card|
        #[trigger] cards.contains(card) && card.suit == suit by {
        lemma_frequency_positive(cards, suit_of(), suit);
    }
    let first = cards.choose();
    assert(cards.contains(first));
    if suits.len() == 1 {
        Set::lemma_is_singleton(suits);
        assert forall|a: Card, b: Card| cards.contains(a) && cards.contains(b) implies a.suit
            == b.suit by {
            assert(suits.contains(a.suit) && suits.contains(b.suit));
        }
    }
    if forall|a: Card, b: Card| cards.contains(a) && cards.contains(b) ==> a.suit == b.suit {
        assert forall|suit: Suit| suits.contains(suit) implies suit == first.suit by {
            let card = choose|card: Card| #[trigger] cards.contains(card) && card.suit == suit;
        }
        assert(suits =~= set![first.suit]);
    }
}

/// A full house is what its name says: among five cards, two ranks of which one occurs
/// twice or three times are a rank that occurs three times and another that occurs twice.
pub proof fn lemma_full_house_three_and_two(cards: Set<Card>)
    requires
        cards.finite(),
        cards.len() == 5,
    ensures
        full_house(rank_counts(cards)) <==> exists|three: Rank, two: Rank|
            #![trigger frequency(cards, rank_of(), three), frequency(cards, rank_of(), two)]
            three != two && frequency(cards, rank_of(), three) == 3 && frequency(
                cards,
                rank_of(),
                two,
            ) == 2,
{
    let counts = rank_counts(cards);
    let ranks = counts.dom();
    lemma_rank_counts_bounds(cards, Rank::Ace);
    assert forall|card: Card| cards.contains(card) implies ranks.contains(card.rank) by {
        lemma_frequency_positive(cards, rank_of(), card.rank);
    }
    if full_house(counts) {
        let a = if some_count(counts, 2) {
            choose|rank: Rank| #[trigger] counts.contains_pair(rank, 2)
        } else {
            choose|rank: Rank| #[trigger] counts.contains_pair(rank, 3)
        };
        assert(ranks.contains(a));
        let rest = ranks.remove(a);
        Set::lemma_is_singleton(rest);
        let b = rest.choose();
        assert(rest.contains(b));
        lemma_split_in_two(cards, a, b);
        assert(frequency(cards, rank_of(), a) + frequency(cards, rank_of(), b) == 5) by {
            assert forall|card: Card| cards.contains(card) implies card.rank == a || card.rank
                == b by {
                assert(ranks.contains(card.rank));
                if card.rank != a {
                    assert(rest.contains(card.rank));
                }
            }
            assert(cards.filter(keyed(rank_of(), a)) + cards.filter(keyed(rank_of(), b))
                =~= cards);
        }
        if frequency(cards, rank_of(), a) == 3 {
            assert(frequency(cards, rank_of(), b) == 2);
        } else {
            assert(frequency(cards, rank_of(), b) == 3);
        }
    }
    if exists|three: Rank, two: Rank|
        #![trigger frequency(cards, rank_of(), three), frequency(cards, rank_of(), two)]
        three != two && frequency(cards, rank_of(), three) == 3 && frequency(
            cards,
            rank_of(),
            two,
        ) == 2 {
        let (three, two) = choose|three: Rank, two: Rank|
            #![trigger frequency(cards, rank_of(), three), frequency(cards, rank_of(), two)]
            three != two && frequency(cards, rank_of(), three) == 3 && frequency(
                cards,
                rank_of(),
                two,
            ) == 2;
        lemma_split_in_two(cards, three, two);
        let both = cards.filter(keyed(rank_of(), three)) + cards.filter(keyed(rank_of(), two));
        assert(both.subset_of(cards));
        vstd::set_lib::lemma_subset_equality(both, cards);
        assert forall|rank: Rank| ranks.contains(rank) implies rank == three || rank == two by {
            lemma_frequency_positive(cards, rank_of(), rank);
            let card = choose|card: Card|
                #[trigger] cards.contains(card) && rank_of()(card) == rank;
            assert(both.contains(card));
        }
        assert(ranks =~= set![three, two]);
        assert(counts.contains_pair(two, 2));
    }
}

/// The cards of two different ranks are two sets apart, and together as many as both.
proof fn lemma_split_in_two(cards: Set<Card>, a: Rank, b: Rank)
    requires
        cards.finite(),
        a != b,
    ensures
        cards.filter(keyed(rank_of(), a)).finite(),
        cards.filter(keyed(rank_of(), b)).finite(),
        (cards.filter(keyed(rank_of(), a)) + cards.filter(keyed(rank_of(), b))).finite(),
        (cards.filter(keyed(rank_of(), a)) + cards.filter(keyed(rank_of(), b))).len() == frequency(
            cards,
            rank_of(),
            a,
        ) + frequency(cards, rank_of(), b),
{
    let with_a = cards.filter(keyed(rank_of(), a));
    let with_b = cards.filter(keyed(rank_of(), b));
    cards.lemma_len_filter(keyed(rank_of(), a));
    cards.lemma_len_filter(keyed(rank_of(), b));
    assert(with_a.disjoint(with_b));
    vstd::set_lib::lemma_set_disjoint_lens(with_a, with_b);
}

/// Analyze the five-card [`Hand`] and return the strongest category that it meets.
pub fn classify(hand: &Hand) -> (category: HandCategory)
    ensures
        category == category_of(hand@),
{
    let rank_count = hand.count_ranks();
    let suit_count = hand.count_suits();

    let straight = is_straight(&rank_count);
    let flush = is_flush(&suit_count);

    if straight && flush {
        return HandCategory::StraightFlush;
    }
    if is_four_of_a_kind(&rank_count) {
        return HandCategory::FourOfAKind;
    }
    if is_full_house(&rank_count) {
        return HandCategory::FullHouse;
    }
    if flush {
        return HandCategory::Flush;
    }
    if straight {
        return HandCategory::Straight;
    }
    if is_three_of_a_kind(&rank_count) {
        return HandCategory::ThreeOfAKind;
    }
    if is_two_pair(&rank_count) {
        return HandCategory::TwoPair;
    }
    if is_one_pair(&rank_count) {
        return HandCategory::OnePair;
    }
    HandCategory::HighCard
}

/// Whether some rank has exactly the count `n`.
fn has_count(rank_count: &RankCount, n: u8) -> (found: bool)
    ensures
        found == some_count(rank_count@, n as nat),
{
    let entries = rank_count.entries();
    let mut i: usize = 0;
    while i < entries.len()
        invariant
            i <= entries.len(),
            lists(entries@, rank_count@),
            forall|j: int| 0 <= j < i ==> (#[trigger] entries@[j]).1 != n,
        decreases entries.len() - i,
    {
        if entries[i].1 == n {
            proof {
                assert(rank_count@.contains_pair(entries@[i as int].0, n as nat));
            }
            return true;
        }
        i += 1;
    }
    proof {
        if some_count(rank_count@, n as nat) {
            let rank = choose|rank: Rank| #[trigger] rank_count@.contains_pair(rank, n as nat);
            assert(rank_count@.dom().contains(rank));
            let j = choose|j: int| 0 <= j < entries@.len() && (#[trigger] entries@[j]).0 == rank;
            assert(rank_count@.contains_pair(entries@[j].0, entries@[j].1 as nat));
        }
    }
    false
}

pub fn is_flush(suit_count: &SuitCount) -> (flush: bool)
    ensures
        flush == self::flush(suit_count@),
{
    suit_count.len() == 1
}

pub fn is_four_of_a_kind(rank_count: &RankCount) -> (four: bool)
    ensures
        four == four_of_a_kind(rank_count@),
{
    has_count(rank_count, 4)
}

pub fn is_full_house(rank_count: &RankCount) -> (full: bool)
    ensures
        full == full_house(rank_count@),
{
    rank_count.len() == 2 && (has_count(rank_count, 2) || has_count(rank_count, 3))
}

pub fn is_three_of_a_kind(rank_count: &RankCount) -> (three: bool)
    ensures
        three == three_of_a_kind(rank_count@),
{
    has_count(rank_count, 3)
}

pub fn is_one_pair(rank_count: &RankCount) -> (pair: bool)
    ensures
        pair == one_pair(rank_count@),
{
    has_count(rank_count, 2)
}

pub fn is_two_pair(rank_count: &RankCount) -> (two: bool)
    ensures
        two == two_pair(rank_count@),
{
    let entries = rank_count.entries();
    let mut twice: usize = 0;
    let ghost mut seen: Set<Rank> = Set::empty();
    let mut i: usize = 0;
    while i < entries.len()
        invariant
            i <= entries.len(),
            lists(entries@, rank_count@),
            seen.finite(),
            seen.len() == twice,
            twice <= i,
            forall|rank: Rank| #[trigger]
                seen.contains(rank) <==> exists|j: int|
                    0 <= j < i && (#[trigger] entries@[j]).0 == rank && entries@[j].1 == 2,
        decreases entries.len() - i,
    {
        if entries[i].1 == 2 {
            proof {
                let rank = entries@[i as int].0;
                if seen.contains(rank) {
                    let j = choose|j: int|
                        0 <= j < i && (#[trigger] entries@[j]).0 == rank && entries@[j].1 == 2;
                    assert(entries@[j].0 != entries@[i as int].0);
                }
                seen = seen.insert(rank);
            }
            twice += 1;
        }
        i += 1;
    }
    proof {
        assert forall|rank: Rank| seen.contains(rank) == pairs(rank_count@).contains(rank) by {
            if seen.contains(rank) {
                let j = choose|j: int|
                    0 <= j < i && (#[trigger] entries@[j]).0 == rank && entries@[j].1 == 2;
                assert(rank_count@.contains_pair(entries@[j].0, entries@[j].1 as nat));
            }
            if pairs(rank_count@).contains(rank) {
                assert(rank_count@.dom().contains(rank));
                let j = choose|j: int|
                    0 <= j < entries@.len() && (#[trigger] entries@[j]).0 == rank;
                assert(rank_count@.contains_pair(entries@[j].0, entries@[j].1 as nat));
            }
        }
        assert(seen =~= pairs(rank_count@));
    }
    twice == 2
}

/// `Itertools::sorted` on a vector of numbers: the same numbers, each as often as before, in
/// ascending order.
#[verifier::external_body]
fn sorted(numbers: Vec<u8>) -> (sorted: Vec<u8>)
    ensures
        sorted@.to_multiset() == numbers@.to_multiset(),
        forall|i: int, j: int| 0 <= i <= j < sorted@.len() ==> sorted@[i] <= sorted@[j],
{
    numbers.into_iter().sorted().collect()
}

/// The numbers of the ranks that occur, in the order of the entries.
fn numbers_of(entries: &[(Rank, u8)]) -> (numbers: Vec<u8>)
    ensures
        numbers@.len() == entries@.len(),
        forall|i: int|
            0 <= i < entries@.len() ==> numbers@[i] == (#[trigger] entries@[i]).0.value(),
{
    let mut numbers: Vec<u8> = Vec::new();
    let mut i: usize = 0;
    while i < entries.len()
        invariant
            i <= entries.len(),
            numbers@.len() == i,
            forall|j: int| 0 <= j < i ==> numbers@[j] == (#[trigger] entries@[j]).0.value(),
        decreases entries.len() - i,
    {
        numbers.push(entries[i].0.numeric());
        i += 1;
    }
    numbers
}

/// Some rank among `entries` has the number `n`.
spec fn numbered(entries: Seq<(Rank, u8)>, n: u8) -> bool {
    exists|i: int| 0 <= i < 5 && (#[trigger] entries[i]).0.value() == n
}

/// Reads a straight off the sorted numbers of five different ranks: the lowest and the
/// highest are four apart, or the two lowest are the ace and the ten.
proof fn lemma_straight_sorted(
    entries: Seq<(Rank, u8)>,
    ranks: Map<Rank, nat>,
    numbers: Seq<u8>,
    sorted: Seq<u8>,
)
    requires
        lists(entries, ranks),
        entries.len() == 5,
        numbers.len() == 5,
        forall|i: int| 0 <= i < 5 ==> numbers[i] == (#[trigger] entries[i]).0.value(),
        sorted.to_multiset() == numbers.to_multiset(),
        forall|i: int, j: int| 0 <= i <= j < sorted.len() ==> sorted[i] <= sorted[j],
    ensures
        sorted.len() == 5,
        sorted[0] <= sorted[4],
        straight(ranks) == ((sorted[0] == 1 && sorted[1] == 10) || sorted[4] - sorted[0] == 4),
{
    broadcast use vstd::seq_lib::to_multiset_len, vstd::seq_lib::to_multiset_contains;

    lemma_lists_len(entries, ranks);
    assert(sorted.len() == sorted.to_multiset().len());
    assert(numbers.len() == numbers.to_multiset().len());
    assert(numbers.no_duplicates()) by {
        assert forall|i: int, j: int| 0 <= i < 5 && 0 <= j < 5 && i != j implies numbers[i]
            != numbers[j] by {
            if i < j {
                assert(entries[i].0 != entries[j].0);
            } else {
                assert(entries[j].0 != entries[i].0);
            }
        }
    }
    numbers.lemma_multiset_has_no_duplicates();
    sorted.lemma_multiset_has_no_duplicates_conv();
    assert(sorted[0] < sorted[1] < sorted[2] < sorted[3] < sorted[4]);
    // every sorted number is the number of a rank that occurs, and the other way round
    assert forall|k: int| 0 <= k < 5 implies numbered(entries, #[trigger] sorted[k]) by {
        assert(sorted.contains(sorted[k]));
        assert(numbers.to_multiset().count(sorted[k]) > 0);
        assert(numbers.contains(sorted[k]));
        let i = choose|i: int| 0 <= i < numbers.len() && numbers[i] == sorted[k];
        assert(entries[i].0.value() == sorted[k]);
    }
    assert forall|i: int| 0 <= i < 5 implies sorted.contains(#[trigger] numbers[i]) by {
        assert(numbers.contains(numbers[i]));
        assert(sorted.to_multiset().count(numbers[i]) > 0);
    }
    let set = ranks.dom();
    assert forall|rank: Rank| set.contains(rank) implies sorted[0] <= rank.value() <= sorted[4]
        && sorted.contains(rank.value() as u8) by {
        let i = choose|i: int| 0 <= i < entries.len() && (#[trigger] entries[i]).0 == rank;
        assert(sorted.contains(numbers[i]));
        let k = choose|k: int| 0 <= k < 5 && sorted[k] == numbers[i];
    }
    assert(numbered(entries, sorted[0]) && numbered(entries, sorted[1]) && numbered(
        entries,
        sorted[2],
    ) && numbered(entries, sorted[3]) && numbered(entries, sorted[4]));
    let i0 = choose|i: int| 0 <= i < 5 && (#[trigger] entries[i]).0.value() == sorted[0];
    let i1 = choose|i: int| 0 <= i < 5 && (#[trigger] entries[i]).0.value() == sorted[1];
    let i2 = choose|i: int| 0 <= i < 5 && (#[trigger] entries[i]).0.value() == sorted[2];
    let i3 = choose|i: int| 0 <= i < 5 && (#[trigger] entries[i]).0.value() == sorted[3];
    let i4 = choose|i: int| 0 <= i < 5 && (#[trigger] entries[i]).0.value() == sorted[4];
    let low = entries[i0].0;
    let high = entries[i4].0;
    assert(ranks.contains_pair(entries[i0].0, entries[i0].1 as nat));
    assert(ranks.contains_pair(entries[i1].0, entries[i1].1 as nat));
    assert(ranks.contains_pair(entries[i2].0, entries[i2].1 as nat));
    assert(ranks.contains_pair(entries[i3].0, entries[i3].1 as nat));
    assert(ranks.contains_pair(entries[i4].0, entries[i4].1 as nat));
    assert(set.contains(low) && set.contains(high));

    // the lowest and the highest four apart: a run of five
    if sorted[4] - sorted[0] == 4 {
        assert(run_of_five(set));
    }
    if run_of_five(set) {
        let (a, b) = choose|a: Rank, b: Rank|
            #![trigger set.contains(a), set.contains(b)]
            {
                &&& set.contains(a)
                &&& set.contains(b)
                &&& b.value() - a.value() == 4
                &&& forall|rank: Rank| #[trigger]
                    set.contains(rank) ==> a.value() <= rank.value() <= b.value()
            };
        assert(a.value() <= low.value() && high.value() <= b.value());
        assert(sorted[0] <= a.value() && b.value() <= sorted[4]);
    }
    // ace and ten lowest: the other three are jack, queen and king
    if sorted[0] == 1 && sorted[1] == 10 {
        assert(entries[i2].0.value() <= 13 && entries[i3].0.value() <= 13 && entries[i4].0.value()
            <= 13);
        assert(sorted[2] == 11 && sorted[3] == 12 && sorted[4] == 13);
        assert(entries[i0].0 == Rank::Ace);
        assert(entries[i1].0 == Rank::Ten);
        assert(entries[i2].0 == Rank::Jack);
        assert(entries[i3].0 == Rank::Queen);
        assert(entries[i4].0 == Rank::King);
        assert forall|rank: Rank| set.contains(rank) implies ten_to_ace().contains(rank) by {
            let k = choose|k: int| 0 <= k < 5 && sorted[k] == rank.value();
        }
        assert(set =~= ten_to_ace());
    }
    if set == ten_to_ace() {
        assert(set.contains(Rank::Ace) && set.contains(Rank::Ten));
        let ka = choose|k: int| 0 <= k < 5 && sorted[k] == Rank::Ace.value();
        let kt = choose|k: int| 0 <= k < 5 && sorted[k] == Rank::Ten.value();
        assert(sorted[ka] == 1 && sorted[kt] == 10);
        assert(ten_to_ace().contains(entries[i0].0) && ten_to_ace().contains(entries[i1].0));
        assert(sorted[0] == 1);
        assert(sorted[1] == 10);
    }
}

pub fn is_straight(rank_count: &RankCount) -> (straight: bool)
    ensures
        straight == self::straight(rank_count@),
{
    // Exit early if we don't have five different ranks.
    if rank_count.len() != 5 {
        return false;
    }
    let entries = rank_count.entries();
    proof {
        lemma_lists_len(entries@, rank_count@);
    }
    let numbers = numbers_of(entries);
    let ghost unsorted = numbers@;
    let ranks = sorted(numbers);
    proof {
        lemma_straight_sorted(entries@, rank_count@, unsorted, ranks@);
    }
    // Ten through ace: with five different ranks, the ace lowest and the ten next leave
    // only jack, queen and king for the rest.
    if ranks[0] == 1 && ranks[1] == 10 {
        return true;
    }
    // Check the distance between the lowest and the highest rank.
    ranks[4] - ranks[0] == 4
}

} // verus!
