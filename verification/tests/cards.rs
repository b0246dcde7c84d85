use poker_hands::card::{Card, InvalidConversion, Rank, Suit};

const RANKS: [(char, Rank, u8); 13] = [
    ('1', Rank::Ace, 1),
    ('2', Rank::Two, 2),
    ('3', Rank::Three, 3),
    ('4', Rank::Four, 4),
    ('5', Rank::Five, 5),
    ('6', Rank::Six, 6),
    ('7', Rank::Seven, 7),
    ('8', Rank::Eight, 8),
    ('9', Rank::Nine, 9),
    ('t', Rank::Ten, 10),
    ('j', Rank::Jack, 11),
    ('q', Rank::Queen, 12),
    ('k', Rank::King, 13),
];

const SUITS: [(char, Suit); 4] = [
    ('r', Suit::Diamonds),
    ('s', Suit::Spades),
    ('k', Suit::Clubs),
    ('h', Suit::Hearts),
];

#[test]
fn selected_card_conversions_work() {
    assert_eq!(
        Card::try_from("4r").unwrap(),
        Card::new(Rank::Four, Suit::Diamonds,)
    );
    assert_eq!(
        Card::try_from("js").unwrap(),
        Card::new(Rank::Jack, Suit::Spades,)
    );
    assert_eq!(
        Card::try_from("tk").unwrap(),
        Card::new(Rank::Ten, Suit::Clubs,)
    );
}

#[test]
fn cards_selected_card_conversions_work() {
    assert_eq!(Card::new(Rank::Four, Suit::Diamonds), "4r".parse().unwrap());
    assert_eq!(Card::new(Rank::Jack, Suit::Spades), "js".parse().unwrap());
    assert_eq!(Card::new(Rank::Ten, Suit::Clubs), "tk".parse().unwrap());
}

#[test]
fn invalid_length_yields_error() {
    assert!(Card::try_from("").is_err());
    assert!(Card::try_from("tkk").is_err());
    assert!(Card::try_from("jjs").is_err());
}

#[test]
fn cards_invalid_length_yields_error() {
    assert!("".parse::<Card>().is_err());
    assert!("tkk".parse::<Card>().is_err());
    assert!("jjs".parse::<Card>().is_err());
}

#[test]
fn invalid_rank_yields_error() {
    assert!(Card::try_from("0k").is_err());
}

#[test]
fn cards_invalid_rank_yields_error() {
    assert!("0k".parse::<Card>().is_err());
}

#[test]
fn invalid_suit_yields_error() {
    assert!(Card::try_from("1p").is_err());
}

#[test]
fn cards_invalid_suit_yields_error() {
    assert!("1p".parse::<Card>().is_err());
}

#[test]
fn new_card_holds_its_rank_and_suit() {
    let card = Card::new(Rank::Queen, Suit::Hearts);
    assert_eq!(card.rank, Rank::Queen);
    assert_eq!(card.suit, Suit::Hearts);
    assert_eq!(card, Card { rank: Rank::Queen, suit: Suit::Hearts });
    assert_ne!(card, Card::new(Rank::Queen, Suit::Spades));
    assert_ne!(card, Card::new(Rank::King, Suit::Hearts));
}

#[test]
fn numeric_counts_from_the_ace() {
    for (_, rank, number) in RANKS {
        assert_eq!(rank.numeric(), number);
    }
    assert_eq!(Rank::Ace.numeric(), 1);
    assert_eq!(Rank::Ten.numeric(), 10);
    assert_eq!(Rank::King.numeric(), 13);
}

#[test]
fn ranks_are_ordered_from_ace_to_king() {
    for pair in RANKS.windows(2) {
        assert!(pair[0].1 < pair[1].1);
    }
}

#[test]
fn every_rank_character_is_read() {
    for (c, rank, _) in RANKS {
        assert_eq!(Rank::try_from(c), Ok(rank));
    }
}

#[test]
fn every_suit_character_is_read() {
    for (c, suit) in SUITS {
        assert_eq!(Suit::try_from(c), Ok(suit));
    }
}

#[test]
fn other_characters_are_no_rank() {
    for c in ['0', 'a', 'T', 'J', 'Q', 'K', 'r', 's', 'h', ' ', 'é'] {
        assert_eq!(Rank::try_from(c), Err(InvalidConversion::Rank(c)));
    }
}

#[test]
fn other_characters_are_no_suit() {
    for c in ['1', 'p', 'R', 'S', 'K', 'H', 'c', 'd', 't', ' ', 'é'] {
        assert_eq!(Suit::try_from(c), Err(InvalidConversion::Suit(c)));
    }
}

#[test]
fn k_is_king_first_and_clubs_second() {
    assert_eq!(Card::try_from("kk"), Ok(Card::new(Rank::King, Suit::Clubs)));
    assert_eq!(Rank::try_from('k'), Ok(Rank::King));
    assert_eq!(Suit::try_from('k'), Ok(Suit::Clubs));
}

#[test]
fn all_cards_round_trip_through_text() {
    let mut count = 0;
    for (rank_char, rank, _) in RANKS {
        for (suit_char, suit) in SUITS {
            let text = format!("{rank_char}{suit_char}");
            assert_eq!(Card::try_from(text.as_str()), Ok(Card::new(rank, suit)));
            assert_eq!(text.parse::<Card>(), Ok(Card::new(rank, suit)));
            count += 1;
        }
    }
    assert_eq!(count, 52);
}

#[test]
fn wrong_length_is_reported_with_the_length() {
    assert_eq!(Card::try_from(""), Err(InvalidConversion::Length(0)));
    assert_eq!(Card::try_from("t"), Err(InvalidConversion::Length(1)));
    assert_eq!(Card::try_from("tkk"), Err(InvalidConversion::Length(3)));
    assert_eq!(Card::try_from("jjs"), Err(InvalidConversion::Length(3)));
    assert_eq!("10k".parse::<Card>(), Err(InvalidConversion::Length(3)));
}

#[test]
fn length_is_counted_in_characters() {
    assert_eq!(Card::try_from("é"), Err(InvalidConversion::Length(1)));
    assert_eq!(Card::try_from("1é"), Err(InvalidConversion::Suit('é')));
    assert_eq!(Card::try_from("ék"), Err(InvalidConversion::Rank('é')));
}

#[test]
fn wrong_rank_is_reported_with_the_character() {
    assert_eq!(Card::try_from("0k"), Err(InvalidConversion::Rank('0')));
    assert_eq!("0k".parse::<Card>(), Err(InvalidConversion::Rank('0')));
}

#[test]
fn wrong_suit_is_reported_with_the_character() {
    assert_eq!(Card::try_from("1p"), Err(InvalidConversion::Suit('p')));
    assert_eq!("1p".parse::<Card>(), Err(InvalidConversion::Suit('p')));
}

#[test]
fn rank_is_read_before_suit() {
    assert_eq!(Card::try_from("xy"), Err(InvalidConversion::Rank('x')));
    assert_eq!(Card::try_from("r1"), Err(InvalidConversion::Rank('r')));
}

#[test]
fn nothing_is_trimmed_and_no_case_is_folded() {
    assert_eq!(Card::try_from(" 4r"), Err(InvalidConversion::Length(3)));
    assert_eq!(Card::try_from("4r "), Err(InvalidConversion::Length(3)));
    assert_eq!(Card::try_from("Tk"), Err(InvalidConversion::Rank('T')));
    assert_eq!(Card::try_from("tK"), Err(InvalidConversion::Suit('K')));
    assert_eq!(Card::try_from("4 "), Err(InvalidConversion::Suit(' ')));
}
