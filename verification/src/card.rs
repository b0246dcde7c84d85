//! A playing [`Card`] with a [`Rank`] and a [`Suit`], and the two-character text form of a card.

use std::str::FromStr;
use vstd::prelude::*;
use vstd::std_specs::convert::TryFromSpecImpl;

verus! {

#[derive(Copy, Clone, Hash, Eq, PartialEq, Debug, Structural)]
pub enum Suit {
    Clubs,
    Diamonds,
    Hearts,
    Spades,
}

#[derive(Copy, Clone, Hash, Eq, PartialEq, Debug, Ord, PartialOrd, Structural)]
pub enum Rank {
    Ace,
    Two,
    Three,
    Four,
    Five,
    Six,
    Seven,
    Eight,
    Nine,
    Ten,
    Jack,
    Queen,
    King,
}

#[derive(Copy, Clone, Hash, Eq, PartialEq, Debug, Structural)]
pub struct Card {
    pub rank: Rank,
    pub suit: Suit,
}

/// Why a piece of text is not a card.
#[derive(Copy, Clone, Eq, PartialEq, Debug, Structural)]
pub enum InvalidConversion {
    /// The text does not have exactly two characters; holds the number it has.
    Length(usize),
    /// The first character names no rank.
    Rank(char),
    /// The second character names no suit.
    Suit(char),
}

impl Suit {
    /// The character that stands for this suit in text.
    pub open spec fn code(self) -> char {
        match self {
            Suit::Diamonds => 'r',
            Suit::Spades => 's',
            Suit::Clubs => 'k',
            Suit::Hearts => 'h',
        }
    }

    /// The suit that a character stands for, if any.
    pub open spec fn of_char(c: char) -> Option<Suit> {
        if c == 'r' {
            Some(Suit::Diamonds)
        } else if c == 's' {
            Some(Suit::Spades)
        } else if c == 'k' {
            Some(Suit::Clubs)
        } else if c == 'h' {
            Some(Suit::Hearts)
        } else {
            None
        }
    }
}

impl Rank {
    /// The number of a rank, counting from the ace as 1 up to the king as 13.
    pub open spec fn value(self) -> int {
        match self {
            Rank::Ace => 1,
            Rank::Two => 2,
            Rank::Three => 3,
            Rank::Four => 4,
            Rank::Five => 5,
            Rank::Six => 6,
            Rank::Seven => 7,
            Rank::Eight => 8,
            Rank::Nine => 9,
            Rank::Ten => 10,
            Rank::Jack => 11,
            Rank::Queen => 12,
            Rank::King => 13,
        }
    }

    /// The character that stands for this rank in text.
    pub open spec fn code(self) -> char {
        match self {
            Rank::Ace => '1',
            Rank::Two => '2',
            Rank::Three => '3',
            Rank::Four => '4',
            Rank::Five => '5',
            Rank::Six => '6',
            Rank::Seven => '7',
            Rank::Eight => '8',
            Rank::Nine => '9',
            Rank::Ten => 't',
            Rank::Jack => 'j',
            Rank::Queen => 'q',
            Rank::King => 'k',
        }
    }

    /// The rank that a character stands for, if any.
    pub open spec fn of_char(c: char) -> Option<Rank> {
        if c == '1' {
            Some(Rank::Ace)
        } else if c == '2' {
            Some(Rank::Two)
        } else if c == '3' {
            Some(Rank::Three)
        } else if c == '4' {
            Some(Rank::Four)
        } else if c == '5' {
            Some(Rank::Five)
        } else if c == '6' {
            Some(Rank::Six)
        } else if c == '7' {
            Some(Rank::Seven)
        } else if c == '8' {
            Some(Rank::Eight)
        } else if c == '9' {
            Some(Rank::Nine)
        } else if c == 't' {
            Some(Rank::Ten)
        } else if c == 'j' {
            Some(Rank::Jack)
        } else if c == 'q' {
            Some(Rank::Queen)
        } else if c == 'k' {
            Some(Rank::King)
        } else {
            None
        }
    }

    /// The number of this rank: 1 for the ace, 2 to 10 for the pip cards, then 11, 12 and 13
    /// for jack, queen and king.
    pub fn numeric(self) -> (n: u8)
        ensures
            n == self.value(),
    {
        match self {
            Rank::Ace => 1,
            Rank::Two => 2,
            Rank::Three => 3,
            Rank::Four => 4,
            Rank::Five => 5,
            Rank::Six => 6,
            Rank::Seven => 7,
            Rank::Eight => 8,
            Rank::Nine => 9,
            Rank::Ten => 10,
            Rank::Jack => 11,
            Rank::Queen => 12,
            Rank::King => 13,
        }
    }
}

impl Card {
    pub fn new(rank: Rank, suit: Suit) -> (card: Self)
        ensures
            card == (Card { rank, suit }),
    {
        Self { rank, suit }
    }

    /// The text of a card: the character of its rank, then that of its suit.
    pub open spec fn code(self) -> Seq<char> {
        seq![self.rank.code(), self.suit.code()]
    }

    /// What a text means as a card: the two characters in their fixed order, rank first, or
    /// the first thing that is wrong with the text.
    pub open spec fn of_text(text: Seq<char>) -> Result<Card, InvalidConversion> {
        if text.len() != 2 {
            Err(InvalidConversion::Length(text.len() as usize))
        } else if Rank::of_char(text[0]) is None {
            Err(InvalidConversion::Rank(text[0]))
        } else if Suit::of_char(text[1]) is None {
            Err(InvalidConversion::Suit(text[1]))
        } else {
            Ok(Card { rank: Rank::of_char(text[0])->0, suit: Suit::of_char(text[1])->0 })
        }
    }
}

impl TryFromSpecImpl<char> for Suit {
    open spec fn obeys_try_from_spec() -> bool {
        true
    }

    open spec fn try_from_spec(value: char) -> Result<Self, Self::Error> {
        match Suit::of_char(value) {
            Some(suit) => Ok(suit),
            None => Err(InvalidConversion::Suit(value)),
        }
    }
}

impl TryFrom<char> for Suit {
    type Error = InvalidConversion;

    /// Reads a suit from its character: `r`, `s`, `k` and `h` are diamonds, spades, clubs and
    /// hearts. Any other character is refused and handed back.
    fn try_from(value: char) -> (suit: Result<Self, Self::Error>) {
        match value {
            'r' => Ok(Suit::Diamonds),
            's' => Ok(Suit::Spades),
            'k' => Ok(Suit::Clubs),
            'h' => Ok(Suit::Hearts),
            _ => Err(InvalidConversion::Suit(value)),
        }
    }
}

impl TryFromSpecImpl<char> for Rank {
    open spec fn obeys_try_from_spec() -> bool {
        true
    }

    open spec fn try_from_spec(value: char) -> Result<Self, Self::Error> {
        match Rank::of_char(value) {
            Some(rank) => Ok(rank),
            None => Err(InvalidConversion::Rank(value)),
        }
    }
}

impl TryFrom<char> for Rank {
    type Error = InvalidConversion;

    /// Reads a rank from its character: `1` to `9` are ace to nine, `t` is ten, and `j`, `q`
    /// and `k` are jack, queen and king. Any other character is refused and handed back.
    fn try_from(value: char) -> (rank: Result<Self, Self::Error>) {
        match value {
            '1' => Ok(Rank::Ace),
            '2' => Ok(Rank::Two),
            '3' => Ok(Rank::Three),
            '4' => Ok(Rank::Four),
            '5' => Ok(Rank::Five),
            '6' => Ok(Rank::Six),
            '7' => Ok(Rank::Seven),
            '8' => Ok(Rank::Eight),
            '9' => Ok(Rank::Nine),
            't' => Ok(Rank::Ten),
            'j' => Ok(Rank::Jack),
            'q' => Ok(Rank::Queen),
            'k' => Ok(Rank::King),
            _ => Err(InvalidConversion::Rank(value)),
        }
    }
}

impl<'a> TryFromSpecImpl<&'a str> for Card {
    open spec fn obeys_try_from_spec() -> bool {
        true
    }

    open spec fn try_from_spec(value: &'a str) -> Result<Self, Self::Error> {
        Card::of_text(value@)
    }
}

impl<'a> TryFrom<&'a str> for Card {
    type Error = InvalidConversion;

    /// Reads a card from text of exactly two characters, the rank's and then the suit's.
    /// Nothing is trimmed and no case is folded.
    fn try_from(value: &'a str) -> (card: Result<Self, Self::Error>) {
        let length = value.unicode_len();
        if length != 2 {
            return Err(InvalidConversion::Length(length));
        }
        let rank = match Rank::try_from(value.get_char(0)) {
            Ok(rank) => rank,
            Err(refused) => {
                return Err(refused);
            },
        };
        let suit = match Suit::try_from(value.get_char(1)) {
            Ok(suit) => suit,
            Err(refused) => {
                return Err(refused);
            },
        };
        Ok(Self::new(rank, suit))
    }
}

impl FromStr for Card {
    type Err = InvalidConversion;

    /// Reads a card as [`Card::try_from`] does.
    fn from_str(s: &str) -> (card: Result<Self, Self::Err>)
        ensures
            card == Card::of_text(s@),
    {
        Card::try_from(s)
    }
}

/// Writing a card down and reading the text gives the card back, whichever of the 52 it is.
pub proof fn lemma_code_round_trip(card: Card)
    ensures
        Card::of_text(card.code()) == Ok::<Card, InvalidConversion>(card),
        Rank::of_char(card.rank.code()) == Some(card.rank),
        Suit::of_char(card.suit.code()) == Some(card.suit),
{
}

/// Only a card's own text reads as that card.
pub proof fn lemma_text_of_card(text: Seq<char>, card: Card)
    requires
        Card::of_text(text) == Ok::<Card, InvalidConversion>(card),
    ensures
        text == card.code(),
{
    assert(text =~= card.code());
}

} // verus!
