use poker_hands::analysis::{analyze, parse_cards, AnalysisError};
use poker_hands::card::{Card, InvalidConversion, Rank, Suit};
use poker_hands::hand::{HandCategory, HandConstructionError};

#[test]
fn ten_to_ace_of_clubs_in_text_is_a_straight_flush() {
    assert_eq!(analyze("tk,jk,qk,kk,1k"), Ok(HandCategory::StraightFlush));
    assert_eq!(analyze("tr,jr,qr,kr,1r"), Ok(HandCategory::StraightFlush));
}

#[test]
fn the_categories_are_read_off_text() {
    assert_eq!(analyze("1s,1h,1r,1k,7h"), Ok(HandCategory::FourOfAKind));
    assert_eq!(analyze("1s,1h,7r,7k,7h"), Ok(HandCategory::FullHouse));
    assert_eq!(analyze("1s,3s,5s,7s,9s"), Ok(HandCategory::Flush));
    assert_eq!(analyze("5s,6k,7h,8r,9h"), Ok(HandCategory::Straight));
    assert_eq!(analyze("1s,1h,1r,qk,kh"), Ok(HandCategory::ThreeOfAKind));
    assert_eq!(analyze("1s,1h,qr,qk,kh"), Ok(HandCategory::TwoPair));
    assert_eq!(analyze("2s,2h,6r,8k,th"), Ok(HandCategory::OnePair));
    assert_eq!(analyze("2s,4h,6r,8k,th"), Ok(HandCategory::HighCard));
    assert_eq!(analyze("kk,1h,2r,3k,4h"), Ok(HandCategory::HighCard));
}

#[test]
fn a_duplicate_card_in_text_is_refused_with_the_number_of_different_cards() {
    assert_eq!(
        analyze("1s,1s,3h,4r,5k"),
        Err(AnalysisError::Hand(HandConstructionError::Uniqueness(4)))
    );
}

#[test]
fn too_few_or_too_many_cards_in_text_are_refused_with_their_number() {
    assert_eq!(
        analyze("1s"),
        Err(AnalysisError::Hand(HandConstructionError::Length(1)))
    );
    assert_eq!(
        analyze("1s,2s,3s,4s"),
        Err(AnalysisError::Hand(HandConstructionError::Length(4)))
    );
    assert_eq!(
        analyze("1s,2s,3s,4s,5s,6s"),
        Err(AnalysisError::Hand(HandConstructionError::Length(6)))
    );
}

#[test]
fn the_first_piece_that_is_no_card_is_reported() {
    assert_eq!(
        analyze("1s,0k,3h,4p,5k"),
        Err(AnalysisError::Card(InvalidConversion::Rank('0')))
    );
    assert_eq!(
        analyze("1s,2k,3h,4p,0k"),
        Err(AnalysisError::Card(InvalidConversion::Suit('p')))
    );
    assert_eq!(
        analyze("1s,2k,3h,4r,tkk"),
        Err(AnalysisError::Card(InvalidConversion::Length(3)))
    );
}

#[test]
fn a_piece_that_is_no_card_is_reported_before_the_number_of_cards() {
    assert_eq!(
        analyze("1s,xx"),
        Err(AnalysisError::Card(InvalidConversion::Rank('x')))
    );
    assert_eq!(
        analyze("1s,1s,1s,1s,1s,1s,1p"),
        Err(AnalysisError::Card(InvalidConversion::Suit('p')))
    );
}

#[test]
fn empty_pieces_are_no_cards() {
    assert_eq!(
        analyze(""),
        Err(AnalysisError::Card(InvalidConversion::Length(0)))
    );
    assert_eq!(
        analyze(","),
        Err(AnalysisError::Card(InvalidConversion::Length(0)))
    );
    assert_eq!(
        analyze("1s,2s,3s,4s,5s,"),
        Err(AnalysisError::Card(InvalidConversion::Length(0)))
    );
    assert_eq!(
        analyze("1s,,3s,4s,5s"),
        Err(AnalysisError::Card(InvalidConversion::Length(0)))
    );
}

#[test]
fn nothing_round_a_comma_is_trimmed() {
    assert_eq!(
        analyze("1s, 2s,3s,4s,5s"),
        Err(AnalysisError::Card(InvalidConversion::Length(3)))
    );
}

#[test]
fn cards_are_read_in_their_order() {
    assert_eq!(
        parse_cards("4r,js,tk"),
        Ok(vec![
            Card::new(Rank::Four, Suit::Diamonds),
            Card::new(Rank::Jack, Suit::Spades),
            Card::new(Rank::Ten, Suit::Clubs),
        ])
    );
    assert_eq!(
        parse_cards("kk"),
        Ok(vec![Card::new(Rank::King, Suit::Clubs)])
    );
    assert_eq!(
        parse_cards("1h,1h"),
        Ok(vec![
            Card::new(Rank::Ace, Suit::Hearts),
            Card::new(Rank::Ace, Suit::Hearts),
        ])
    );
}

#[test]
fn reading_cards_stops_at_the_first_that_is_none() {
    assert_eq!(parse_cards(""), Err(InvalidConversion::Length(0)));
    assert_eq!(parse_cards("4r,"), Err(InvalidConversion::Length(0)));
    assert_eq!(parse_cards(",4r"), Err(InvalidConversion::Length(0)));
    assert_eq!(parse_cards("4r,1p,0k"), Err(InvalidConversion::Suit('p')));
    assert_eq!(parse_cards("4r;js"), Err(InvalidConversion::Length(5)));
    assert_eq!(parse_cards("4r,é,js"), Err(InvalidConversion::Length(1)));
}
