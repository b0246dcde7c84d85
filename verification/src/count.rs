//! How often each rank and each suit occurs among the cards of a hand.

use crate::card::{Card, Rank, Suit};
use crate::hand::Hand;
use vstd::prelude::*;
use vstd::seq_lib::seq_to_set_is_finite;

verus! {

/// The rank of a card, as a function.
pub open spec fn rank_of() -> spec_fn(Card) -> Rank {
    |card: Card| card.rank
}

/// The suit of a card, as a function.
pub open spec fn suit_of() -> spec_fn(Card) -> Suit {
    |card: Card| card.suit
}

/// The cards that `key` sends to `k`.
pub open spec fn keyed<K>(key: spec_fn(Card) -> K, k: K) -> spec_fn(Card) -> bool {
    |card: Card| key(card) == k
}

/// How many of `cards` the function `key` sends to `k`.
pub open spec fn frequency<K>(cards: Set<Card>, key: spec_fn(Card) -> K, k: K) -> nat {
    cards.filter(keyed(key, k)).len()
}

/// The frequencies of all keys that occur among `cards`: a key that no card has is no key
/// of the map.
pub open spec fn counts_by<K>(cards: Set<Card>, key: spec_fn(Card) -> K) -> Map<K, nat> {
    Map::new(|k: K| frequency(cards, key, k) > 0, |k: K| frequency(cards, key, k))
}

/// How often each rank occurs among `cards`.
pub open spec fn rank_counts(cards: Set<Card>) -> Map<Rank, nat> {
    counts_by(cards, rank_of())
}

/// How often each suit occurs among `cards`.
pub open spec fn suit_counts(cards: Set<Card>) -> Map<Suit, nat> {
    counts_by(cards, suit_of())
}

/// Whether `entries` lists the map `counts`: every key of the map once, beside its count,
/// and nothing else.
pub open spec fn lists<K>(entries: Seq<(K, u8)>, counts: Map<K, nat>) -> bool {
    &&& distinct_keys(entries)
    &&& forall|i: int|
        0 <= i < entries.len() ==> counts.contains_pair(
            (#[trigger] entries[i]).0,
            entries[i].1 as nat,
        )
    &&& forall|k: K| #[trigger]
        counts.dom().contains(k) ==> exists|i: int|
            0 <= i < entries.len() && (#[trigger] entries[i]).0 == k
}

/// The keys of `entries` are all different.
pub open spec fn distinct_keys<K>(entries: Seq<(K, u8)>) -> bool {
    forall|i: int, j: int|
        0 <= i < j < entries.len() ==> (#[trigger] entries[i]).0 != (#[trigger] entries[j]).0
}

/// The map that `entries` spell out.
pub open spec fn counts_of<K>(entries: Seq<(K, u8)>) -> Map<K, nat> {
    Map::new(
        |k: K| exists|i: int| 0 <= i < entries.len() && (#[trigger] entries[i]).0 == k,
        |k: K|
            {
                let i = choose|i: int| 0 <= i < entries.len() && (#[trigger] entries[i]).0 == k;
                entries[i].1 as nat
            },
    )
}

/// Entries with different keys list the map they spell out.
pub proof fn lemma_counts_of_lists<K>(entries: Seq<(K, u8)>)
    requires
        distinct_keys(entries),
    ensures
        lists(entries, counts_of(entries)),
{
    let counts = counts_of(entries);
    assert forall|i: int| 0 <= i < entries.len() implies counts.contains_pair(
        (#[trigger] entries[i]).0,
        entries[i].1 as nat,
    ) by {
        let k = entries[i].0;
        let j = choose|j: int| 0 <= j < entries.len() && (#[trigger] entries[j]).0 == k;
        assert(j == i);
    }
}

/// Two maps that the same entries list are one map.
pub proof fn lemma_lists_one_map<K>(entries: Seq<(K, u8)>, a: Map<K, nat>, b: Map<K, nat>)
    requires
        lists(entries, a),
        lists(entries, b),
    ensures
        a == b,
{
    assert forall|k: K| a.dom().contains(k) == b.dom().contains(k) by {
        if a.dom().contains(k) {
            let i = choose|i: int| 0 <= i < entries.len() && (#[trigger] entries[i]).0 == k;
            assert(b.contains_pair(entries[i].0, entries[i].1 as nat));
        }
        if b.dom().contains(k) {
            let i = choose|i: int| 0 <= i < entries.len() && (#[trigger] entries[i]).0 == k;
            assert(a.contains_pair(entries[i].0, entries[i].1 as nat));
        }
    }
    assert forall|k: K| a.dom().contains(k) implies a[k] == b[k] by {
        let i = choose|i: int| 0 <= i < entries.len() && (#[trigger] entries[i]).0 == k;
        assert(a.contains_pair(entries[i].0, entries[i].1 as nat));
        assert(b.contains_pair(entries[i].0, entries[i].1 as nat));
    }
    assert(a =~= b);
}

/// A map has as many keys as the entries that list it, and so finitely many.
pub proof fn lemma_lists_len<K>(entries: Seq<(K, u8)>, counts: Map<K, nat>)
    requires
        lists(entries, counts),
    ensures
        counts.dom().finite(),
        counts.dom().len() == entries.len(),
{
    let keys = entries.map_values(|entry: (K, u8)| entry.0);
    assert(keys.no_duplicates()) by {
        assert forall|i: int, j: int|
            0 <= i < keys.len() && 0 <= j < keys.len() && i != j implies keys[i] != keys[j] by {
            if i < j {
                assert(entries[i].0 != entries[j].0);
            } else {
                assert(entries[j].0 != entries[i].0);
            }
        }
    }
    assert(keys.to_set() =~= counts.dom()) by {
        assert forall|k: K| keys.to_set().contains(k) == counts.dom().contains(k) by {
            if keys.to_set().contains(k) {
                let i = choose|i: int| 0 <= i < keys.len() && keys[i] == k;
                assert(counts.contains_pair(entries[i].0, entries[i].1 as nat));
            }
            if counts.dom().contains(k) {
                let i = choose|i: int| 0 <= i < entries.len() && (#[trigger] entries[i]).0 == k;
                assert(keys[i] == k);
            }
        }
    }
    seq_to_set_is_finite(keys);
    keys.unique_seq_to_set();
}

/// One more card raises the frequency of its own key by one and leaves the others.
pub proof fn lemma_frequency_insert<K>(cards: Set<Card>, key: spec_fn(Card) -> K, card: Card)
    requires
        cards.finite(),
        !cards.contains(card),
    ensures
        forall|k: K| #[trigger]
            frequency(cards.insert(card), key, k) == frequency(cards, key, k) + if key(card) == k {
                1nat
            } else {
                0nat
            },
        forall|k: K| #[trigger] frequency(cards, key, k) <= cards.len(),
{
    assert forall|k: K| #[trigger]
        frequency(cards.insert(card), key, k) == frequency(cards, key, k) + if key(card) == k {
            1nat
        } else {
            0nat
        } by {
        cards.lemma_len_filter(keyed(key, k));
        if key(card) == k {
            assert(cards.insert(card).filter(keyed(key, k)) =~= cards.filter(keyed(key, k)).insert(
                card,
            ));
        } else {
            assert(cards.insert(card).filter(keyed(key, k)) =~= cards.filter(keyed(key, k)));
        }
    }
    assert forall|k: K| #[trigger] frequency(cards, key, k) <= cards.len() by {
        cards.lemma_len_filter(keyed(key, k));
    }
}

/// No key occurs among no cards.
pub proof fn lemma_frequency_empty<K>(key: spec_fn(Card) -> K)
    ensures
        forall|k: K| #[trigger] frequency(Set::<Card>::empty(), key, k) == 0,
{
    assert forall|k: K| #[trigger] frequency(Set::<Card>::empty(), key, k) == 0 by {
        assert(Set::<Card>::empty().filter(keyed(key, k)) =~= Set::<Card>::empty());
    }
}

/// A key has a frequency above 0 exactly where some card has that key.
pub proof fn lemma_frequency_positive<K>(cards: Set<Card>, key: spec_fn(Card) -> K, k: K)
    requires
        cards.finite(),
    ensures
        frequency(cards, key, k) <= cards.len(),
        frequency(cards, key, k) > 0 <==> exists|card: Card|
            #[trigger] cards.contains(card) && key(card) == k,
{
    let with_k = cards.filter(keyed(key, k));
    cards.lemma_len_filter(keyed(key, k));
    if frequency(cards, key, k) > 0 {
        let card = with_k.choose();
        assert(with_k.contains(card)) by {
            if !with_k.contains(card) {
                assert(with_k =~= Set::<Card>::empty());
            }
        }
        assert(cards.contains(card) && key(card) == k);
    }
    if exists|card: Card| #[trigger] cards.contains(card) && key(card) == k {
        let card = choose|card: Card| #[trigger] cards.contains(card) && key(card) == k;
        assert(with_k.contains(card));
    }
}

/// The counts of ranks lie between 1 and 4: a rank has a count only where it occurs, and
/// it occurs on no more cards than there are suits.
pub proof fn lemma_rank_counts_bounds(cards: Set<Card>, rank: Rank)
    requires
        cards.finite(),
    ensures
        frequency(cards, rank_of(), rank) <= 4,
        rank_counts(cards).dom().contains(rank) ==> 1 <= rank_counts(cards)[rank] <= 4,
        rank_counts(cards).dom().finite(),
        rank_counts(cards).dom().len() <= 13,
{
    let ranks = set![
        Rank::Ace,
        Rank::Two,
        Rank::Three,
        Rank::Four,
        Rank::Five,
        Rank::Six,
        Rank::Seven,
        Rank::Eight,
        Rank::Nine,
        Rank::Ten,
        Rank::Jack,
        Rank::Queen,
        Rank::King,
    ];
    assert forall|r: Rank| rank_counts(cards).dom().contains(r) implies ranks.contains(r) by {
        match r {
            Rank::Ace => {},
            Rank::Two => {},
            Rank::Three => {},
            Rank::Four => {},
            Rank::Five => {},
            Rank::Six => {},
            Rank::Seven => {},
            Rank::Eight => {},
            Rank::Nine => {},
            Rank::Ten => {},
            Rank::Jack => {},
            Rank::Queen => {},
            Rank::King => {},
        }
    }
    assert(rank_counts(cards).dom().subset_of(ranks));
    vstd::set_lib::lemma_len_subset(rank_counts(cards).dom(), ranks);
    let of_rank = set![
        Card { rank, suit: Suit::Clubs },
        Card { rank, suit: Suit::Diamonds },
        Card { rank, suit: Suit::Hearts },
        Card { rank, suit: Suit::Spades },
    ];
    let with_rank = cards.filter(keyed(rank_of(), rank));
    assert forall|card: Card| with_rank.contains(card) implies of_rank.contains(card) by {
        assert(card == Card { rank, suit: card.suit });
    }
    assert(with_rank.subset_of(of_rank));
    vstd::set_lib::lemma_len_subset(with_rank, of_rank);
}

/// The counts of suits lie between 1 and the number of cards, and no more than four suits
/// have one.
pub proof fn lemma_suit_counts_bounds(cards: Set<Card>, suit: Suit)
    requires
        cards.finite(),
    ensures
        suit_counts(cards).dom().contains(suit) ==> 1 <= suit_counts(cards)[suit] <= cards.len(),
        suit_counts(cards).dom().finite(),
        suit_counts(cards).dom().len() <= 4,
{
    let suits = set![Suit::Clubs, Suit::Diamonds, Suit::Hearts, Suit::Spades];
    lemma_frequency_positive(cards, suit_of(), suit);
    assert forall|s: Suit| suit_counts(cards).dom().contains(s) implies suits.contains(s) by {
        match s {
            Suit::Clubs => {},
            Suit::Diamonds => {},
            Suit::Hearts => {},
            Suit::Spades => {},
        }
    }
    assert(suit_counts(cards).dom().subset_of(suits));
    vstd::set_lib::lemma_len_subset(suit_counts(cards).dom(), suits);
}

/// What one more card does to the set of the cards before it, where all cards differ.
pub proof fn lemma_next_card(cards: Seq<Card>, i: int)
    requires
        cards.no_duplicates(),
        0 <= i < cards.len(),
    ensures
        cards.take(i).to_set().finite(),
        cards.take(i).to_set().len() == i,
        !cards.take(i).to_set().contains(cards[i]),
        cards.take(i + 1).to_set() == cards.take(i).to_set().insert(cards[i]),
{
    let before = cards.take(i);
    seq_to_set_is_finite(before);
    before.unique_seq_to_set();
    assert(cards.take(i + 1) =~= before.push(cards[i]));
    before.lemma_push_to_set_commute(cards[i]);
    if before.to_set().contains(cards[i]) {
        let j = choose|j: int| 0 <= j < before.len() && before[j] == cards[i];
        assert(cards[j] == cards[i]);
    }
}

/// How often each rank occurs in a hand: a count for every rank that occurs, none for the
/// others.
#[derive(Debug)]
pub struct RankCount {
    entries: Vec<(Rank, u8)>,
}

/// How often each suit occurs in a hand: a count for every suit that occurs, none for the
/// others.
#[derive(Debug)]
pub struct SuitCount {
    entries: Vec<(Suit, u8)>,
}

impl View for RankCount {
    type V = Map<Rank, nat>;

    closed spec fn view(&self) -> Map<Rank, nat> {
        counts_of(self.entries@)
    }
}

impl View for SuitCount {
    type V = Map<Suit, nat>;

    closed spec fn view(&self) -> Map<Suit, nat> {
        counts_of(self.entries@)
    }
}

impl RankCount {
    #[verifier::type_invariant]
    spec fn each_rank_once(&self) -> bool {
        distinct_keys(self.entries@)
    }

    /// The number of different ranks.
    pub fn len(&self) -> (n: usize)
        ensures
            self@.dom().finite(),
            n == self@.dom().len(),
    {
        proof {
            use_type_invariant(self);
            lemma_counts_of_lists(self.entries@);
            lemma_lists_len(self.entries@, self@);
        }
        self.entries.len()
    }

    /// The ranks that occur, each once and beside its count, in no particular order.
    pub fn entries(&self) -> (entries: &[(Rank, u8)])
        ensures
            lists(entries@, self@),
    {
        proof {
            use_type_invariant(self);
            lemma_counts_of_lists(self.entries@);
        }
        self.entries.as_slice()
    }
}

impl SuitCount {
    #[verifier::type_invariant]
    spec fn each_suit_once(&self) -> bool {
        distinct_keys(self.entries@)
    }

    /// The number of different suits.
    pub fn len(&self) -> (n: usize)
        ensures
            self@.dom().finite(),
            n == self@.dom().len(),
    {
        proof {
            use_type_invariant(self);
            lemma_counts_of_lists(self.entries@);
            lemma_lists_len(self.entries@, self@);
        }
        self.entries.len()
    }

    /// The suits that occur, each once and beside its count, in no particular order.
    pub fn entries(&self) -> (entries: &[(Suit, u8)])
        ensures
            lists(entries@, self@),
    {
        proof {
            use_type_invariant(self);
            lemma_counts_of_lists(self.entries@);
        }
        self.entries.as_slice()
    }
}

/// Where among `entries` the count of `rank` stands, if it has one.
fn place_of_rank(entries: &Vec<(Rank, u8)>, rank: Rank) -> (place: Option<usize>)
    ensures
        match place {
            Some(i) => i < entries@.len() && entries@[i as int].0 == rank,
            None => forall|i: int| 0 <= i < entries@.len() ==> (#[trigger] entries@[i]).0 != rank,
        },
{
    let mut i: usize = 0;
    while i < entries.len()
        invariant
            i <= entries.len(),
            forall|j: int| 0 <= j < i ==> (#[trigger] entries@[j]).0 != rank,
        decreases entries.len() - i,
    {
        if entries[i].0 == rank {
            return Some(i);
        }
        i += 1;
    }
    None
}

/// Where among `entries` the count of `suit` stands, if it has one.
fn place_of_suit(entries: &Vec<(Suit, u8)>, suit: Suit) -> (place: Option<usize>)
    ensures
        match place {
            Some(i) => i < entries@.len() && entries@[i as int].0 == suit,
            None => forall|i: int| 0 <= i < entries@.len() ==> (#[trigger] entries@[i]).0 != suit,
        },
{
    let mut i: usize = 0;
    while i < entries.len()
        invariant
            i <= entries.len(),
            forall|j: int| 0 <= j < i ==> (#[trigger] entries@[j]).0 != suit,
        decreases entries.len() - i,
    {
        if entries[i].0 == suit {
            return Some(i);
        }
        i += 1;
    }
    None
}

/// `after` is `before` with one more card of the key `k` counted: the entry of `k` stands
/// one higher, or `k` had none and has a new one with the count 1.
spec fn counted<K>(before: Seq<(K, u8)>, after: Seq<(K, u8)>, k: K) -> bool {
    ||| raised(before, after, k)
    ||| {
        &&& forall|j: int| 0 <= j < before.len() ==> (#[trigger] before[j]).0 != k
        &&& after == before.push((k, 1u8))
    }
}

/// `after` is `before` with the entry of the key `k` one higher.
spec fn raised<K>(before: Seq<(K, u8)>, after: Seq<(K, u8)>, k: K) -> bool {
    exists|j: int|
        {
            &&& 0 <= j < before.len()
            &&& (#[trigger] before[j]).0 == k
            &&& after == before.update(j, (k, (before[j].1 + 1) as u8))
        }
}

/// Counting one more card keeps the list in step with the frequencies.
proof fn lemma_count_step<K>(
    before: Seq<(K, u8)>,
    after: Seq<(K, u8)>,
    cards: Set<Card>,
    key: spec_fn(Card) -> K,
    card: Card,
)
    requires
        cards.finite(),
        !cards.contains(card),
        cards.len() < 255,
        lists(before, counts_by(cards, key)),
        counted(before, after, key(card)),
    ensures
        lists(after, counts_by(cards.insert(card), key)),
{
    lemma_frequency_insert(cards, key, card);
    let old_counts = counts_by(cards, key);
    let new_counts = counts_by(cards.insert(card), key);
    let k0 = key(card);
    if raised(before, after, k0) {
        let j = choose|j: int|
            {
                &&& 0 <= j < before.len()
                &&& (#[trigger] before[j]).0 == k0
                &&& after == before.update(j, (k0, (before[j].1 + 1) as u8))
            };
        assert(old_counts.contains_pair(before[j].0, before[j].1 as nat));
        assert(frequency(cards, key, k0) <= cards.len());
        assert forall|a: int, b: int| 0 <= a < b < after.len() implies (#[trigger] after[a]).0
            != (#[trigger] after[b]).0 by {
            assert(before[a].0 != before[b].0);
        }
        assert forall|i: int| 0 <= i < after.len() implies new_counts.contains_pair(
            (#[trigger] after[i]).0,
            after[i].1 as nat,
        ) by {
            assert(old_counts.contains_pair(before[i].0, before[i].1 as nat));
            if i != j {
                if i < j {
                    assert(before[i].0 != before[j].0);
                } else {
                    assert(before[j].0 != before[i].0);
                }
            }
        }
        assert forall|k: K| #[trigger] new_counts.dom().contains(k) implies exists|i: int|
            0 <= i < after.len() && (#[trigger] after[i]).0 == k by {
            if k == k0 {
                assert(after[j].0 == k);
            } else {
                assert(old_counts.dom().contains(k));
                let i = choose|i: int| 0 <= i < before.len() && (#[trigger] before[i]).0 == k;
                assert(after[i].0 == k);
            }
        }
    } else {
        assert(!old_counts.dom().contains(k0));
        assert(frequency(cards, key, k0) == 0);
        assert forall|a: int, b: int| 0 <= a < b < after.len() implies (#[trigger] after[a]).0
            != (#[trigger] after[b]).0 by {
            if b < before.len() {
                assert(before[a].0 != before[b].0);
            } else {
                assert(before[a].0 != k0);
            }
        }
        assert forall|i: int| 0 <= i < after.len() implies new_counts.contains_pair(
            (#[trigger] after[i]).0,
            after[i].1 as nat,
        ) by {
            if i < before.len() {
                assert(old_counts.contains_pair(before[i].0, before[i].1 as nat));
                assert(before[i].0 != k0);
            }
        }
        assert forall|k: K| #[trigger] new_counts.dom().contains(k) implies exists|i: int|
            0 <= i < after.len() && (#[trigger] after[i]).0 == k by {
            if k == k0 {
                assert(after[before.len() as int].0 == k);
            } else {
                assert(old_counts.dom().contains(k));
                let i = choose|i: int| 0 <= i < before.len() && (#[trigger] before[i]).0 == k;
                assert(after[i].0 == k);
            }
        }
    }
}

impl Hand {
    /// Gives a count of each of the ranks on hand.
    pub fn count_ranks(&self) -> (counts: RankCount)
        ensures
            counts@ == rank_counts(self@),
    {
        let cards = self.cards();
        let mut entries: Vec<(Rank, u8)> = Vec::new();
        proof {
            lemma_frequency_empty(rank_of());
            assert(cards@.take(0).to_set() =~= Set::<Card>::empty());
        }
        let mut i: usize = 0;
        while i < 5
            invariant
                i <= 5,
                cards@.len() == 5,
                cards@.no_duplicates(),
                lists(entries@, rank_counts(cards@.take(i as int).to_set())),
            decreases 5 - i,
        {
            let card = cards[i];
            let ghost before = entries@;
            proof {
                lemma_next_card(cards@, i as int);
                lemma_frequency_insert(cards@.take(i as int).to_set(), rank_of(), card);
            }
            match place_of_rank(&entries, card.rank) {
                Some(j) => {
                    let (rank, count) = entries[j];
                    proof {
                        assert(rank_counts(cards@.take(i as int).to_set()).contains_pair(
                            before[j as int].0,
                            before[j as int].1 as nat,
                        ));
                    }
                    entries.set(j, (rank, count + 1));
                },
                None => {
                    entries.push((card.rank, 1));
                },
            }
            proof {
                lemma_count_step(before, entries@, cards@.take(i as int).to_set(), rank_of(), card);
            }
            i += 1;
        }
        proof {
            assert(cards@.take(5) =~= cards@);
            lemma_counts_of_lists(entries@);
            lemma_lists_one_map(entries@, counts_of(entries@), rank_counts(self@));
        }
        RankCount { entries }
    }

    /// Gives a count of each of the suits on hand.
    pub fn count_suits(&self) -> (counts: SuitCount)
        ensures
            counts@ == suit_counts(self@),
    {
        let cards = self.cards();
        let mut entries: Vec<(Suit, u8)> = Vec::new();
        proof {
            lemma_frequency_empty(suit_of());
            assert(cards@.take(0).to_set() =~= Set::<Card>::empty());
        }
        let mut i: usize = 0;
        while i < 5
            invariant
                i <= 5,
                cards@.len() == 5,
                cards@.no_duplicates(),
                lists(entries@, suit_counts(cards@.take(i as int).to_set())),
            decreases 5 - i,
        {
            let card = cards[i];
            let ghost before = entries@;
            proof {
                lemma_next_card(cards@, i as int);
                lemma_frequency_insert(cards@.take(i as int).to_set(), suit_of(), card);
            }
            match place_of_suit(&entries, card.suit) {
                Some(j) => {
                    let (suit, count) = entries[j];
                    proof {
                        assert(suit_counts(cards@.take(i as int).to_set()).contains_pair(
                            before[j as int].0,
                            before[j as int].1 as nat,
                        ));
                    }
                    entries.set(j, (suit, count + 1));
                },
                None => {
                    entries.push((card.suit, 1));
                },
            }
            proof {
                lemma_count_step(before, entries@, cards@.take(i as int).to_set(), suit_of(), card);
            }
            i += 1;
        }
        proof {
            assert(cards@.take(5) =~= cards@);
            lemma_counts_of_lists(entries@);
            lemma_lists_one_map(entries@, counts_of(entries@), suit_counts(self@));
        }
        SuitCount { entries }
    }
}

} // verus!
