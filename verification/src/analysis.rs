//! The analysis of a hand given as text: card codes with commas between them.

use crate::card::{Card, InvalidConversion};
use crate::classify::{category_of, classify};
use crate::hand::{Hand, HandCategory, HandConstructionError};
use vstd::prelude::*;

verus! {

/// Why a text names no hand.
#[derive(Copy, Clone, Eq, PartialEq, Debug, Structural)]
pub enum AnalysisError {
    /// A piece of the text is not a card.
    Card(InvalidConversion),
    /// The cards do not make a hand.
    Hand(HandConstructionError),
}

/// The pieces of `text` between its commas, in their order. A text without a comma is one
/// piece, and an empty text one empty piece.
pub open spec fn segments(text: Seq<char>) -> Seq<Seq<char>>
    decreases text.len(),
{
    if text.len() == 0 {
        seq![Seq::empty()]
    } else {
        let before = segments(text.drop_last());
        if text.last() == ',' {
            before.push(Seq::empty())
        } else {
            before.drop_last().push(before.last().push(text.last()))
        }
    }
}

/// The pieces written one after the other with a comma in between.
pub open spec fn joined(pieces: Seq<Seq<char>>) -> Seq<char>
    decreases pieces.len(),
{
    if pieces.len() == 0 {
        Seq::empty()
    } else if pieces.len() == 1 {
        pieces[0]
    } else {
        joined(pieces.drop_last()).push(',') + pieces.last()
    }
}

/// A text has at least one piece, no piece holds a comma, and the pieces joined by commas
/// are the text again.
pub proof fn lemma_segments(text: Seq<char>)
    ensures
        segments(text).len() >= 1,
        forall|i: int, j: int|
            0 <= i < segments(text).len() && 0 <= j < segments(text)[i].len() ==> segments(
                text,
            )[i][j] != ',',
        joined(segments(text)) == text,
    decreases text.len(),
{
    if text.len() == 0 {
        assert(joined(segments(text)) =~= text);
    } else {
        lemma_segments(text.drop_last());
        let before = segments(text.drop_last());
        let pieces = segments(text);
        assert(text =~= text.drop_last().push(text.last()));
        if text.last() == ',' {
            assert(pieces.drop_last() =~= before);
            assert(joined(pieces) =~= text);
        } else {
            let grown = before.last().push(text.last());
            assert(pieces.last() == grown);
            if before.len() == 1 {
                assert(joined(pieces) =~= text);
            } else {
                assert(pieces.drop_last() =~= before.drop_last());
                assert(joined(pieces) =~= joined(before).push(text.last()));
            }
        }
    }
}

/// Text without a comma, written after another text, only lengthens the last piece.
proof fn lemma_segments_lengthened(text: Seq<char>, more: Seq<char>)
    requires
        forall|j: int| 0 <= j < more.len() ==> more[j] != ',',
    ensures
        segments(text + more) == segments(text).drop_last().push(segments(text).last() + more),
    decreases more.len(),
{
    lemma_segments(text);
    let pieces = segments(text);
    if more.len() == 0 {
        assert(text + more =~= text);
        assert(pieces.last() + more =~= pieces.last());
        assert(pieces.drop_last().push(pieces.last()) =~= pieces);
    } else {
        let shorter = more.drop_last();
        lemma_segments_lengthened(text, shorter);
        assert((text + more).drop_last() =~= text + shorter);
        assert((text + more).last() == more.last());
        let before = segments(text + shorter);
        assert(before.drop_last() =~= pieces.drop_last());
        assert((pieces.last() + shorter).push(more.last()) =~= pieces.last() + more);
    }
}

/// Cutting undoes joining: pieces without commas, joined by commas and cut at the commas,
/// are the same pieces.
pub proof fn lemma_segments_of_joined(pieces: Seq<Seq<char>>)
    requires
        pieces.len() >= 1,
        forall|i: int, j: int|
            0 <= i < pieces.len() && 0 <= j < pieces[i].len() ==> pieces[i][j] != ',',
    ensures
        segments(joined(pieces)) == pieces,
    decreases pieces.len(),
{
    let last = pieces.last();
    assert forall|j: int| 0 <= j < last.len() implies last[j] != ',' by {
        assert(pieces[pieces.len() - 1][j] != ',');
    }
    if pieces.len() == 1 {
        let nothing = Seq::<char>::empty();
        lemma_segments_lengthened(nothing, last);
        assert(nothing + last =~= last);
        assert(segments(nothing) =~= seq![nothing]);
        assert(segments(last) =~= pieces);
    } else {
        let init = pieces.drop_last();
        assert forall|i: int, j: int|
            0 <= i < init.len() && 0 <= j < init[i].len() implies init[i][j] != ',' by {
            assert(pieces[i][j] != ',');
        }
        lemma_segments_of_joined(init);
        let head = joined(init).push(',');
        assert(head.drop_last() =~= joined(init));
        assert(segments(head) =~= init.push(Seq::<char>::empty()));
        lemma_segments_lengthened(head, last);
        assert(Seq::<char>::empty() + last =~= last);
        assert(segments(head + last) =~= pieces);
    }
}

/// The cards that the pieces spell, or what is wrong with the first piece that is no card.
pub open spec fn cards_of(pieces: Seq<Seq<char>>) -> Result<Seq<Card>, InvalidConversion> {
    if forall|i: int| 0 <= i < pieces.len() ==> Card::of_text(#[trigger] pieces[i]) is Ok {
        Ok(Seq::new(pieces.len(), |i: int| Card::of_text(pieces[i])->Ok_0))
    } else {
        let first = choose|i: int|
            0 <= i < pieces.len() && Card::of_text(#[trigger] pieces[i]) is Err && forall|j: int|
                0 <= j < i ==> Card::of_text(#[trigger] pieces[j]) is Ok;
        Err(Card::of_text(pieces[first])->Err_0)
    }
}

/// What a text says of a hand: the category of the hand that its cards make, or the first
/// thing that is wrong, a piece that is no card before cards that make no hand.
pub open spec fn analysis(text: Seq<char>) -> Result<HandCategory, AnalysisError> {
    match cards_of(segments(text)) {
        Err(refused) => Err(AnalysisError::Card(refused)),
        Ok(cards) => match Hand::fault(cards) {
            Some(refused) => Err(AnalysisError::Hand(refused)),
            None => Ok(category_of(cards.to_set())),
        },
    }
}

/// Cuts `text` at its commas.
fn split<'a>(text: &'a str) -> (pieces: Vec<&'a str>)
    ensures
        pieces@.len() == segments(text@).len(),
        forall|i: int| 0 <= i < pieces@.len() ==> (#[trigger] pieces@[i])@ == segments(text@)[i],
{
    let length = text.unicode_len();
    let mut pieces: Vec<&'a str> = Vec::new();
    let mut start: usize = 0;
    let mut i: usize = 0;
    while i < length
        invariant
            length == text@.len(),
            start <= i <= length,
            segments(text@.take(i as int)).len() == pieces@.len() + 1,
            forall|j: int|
                0 <= j < pieces@.len() ==> (#[trigger] pieces@[j])@ == segments(
                    text@.take(i as int),
                )[j],
            segments(text@.take(i as int)).last() == text@.subrange(start as int, i as int),
        decreases length - i,
    {
        let ghost before = segments(text@.take(i as int));
        proof {
            assert(text@.take(i + 1).drop_last() =~= text@.take(i as int));
            assert(text@.take(i + 1).last() == text@[i as int]);
        }
        if text.get_char(i) == ',' {
            pieces.push(text.substring_char(start, i));
            start = i + 1;
            proof {
                assert(text@.subrange(start as int, i + 1) =~= Seq::<char>::empty());
            }
        } else {
            proof {
                assert(text@.subrange(start as int, i + 1) =~= before.last().push(text@[i as int]));
            }
        }
        i += 1;
    }
    proof {
        assert(text@.take(length as int) =~= text@);
    }
    pieces.push(text.substring_char(start, length));
    pieces
}

/// Reads the cards of a text in which commas stand between the card codes. Every piece is
/// read by itself, and the first that is no card ends the reading with what is wrong with it.
pub fn parse_cards(text: &str) -> (cards: Result<Vec<Card>, InvalidConversion>)
    ensures
        match cards {
            Ok(cards) => cards_of(segments(text@)) == Ok::<Seq<Card>, InvalidConversion>(cards@),
            Err(refused) => cards_of(segments(text@)) == Err::<Seq<Card>, InvalidConversion>(
                refused,
            ),
        },
{
    let pieces = split(text);
    let ghost all = segments(text@);
    let mut cards: Vec<Card> = Vec::new();
    let mut i: usize = 0;
    while i < pieces.len()
        invariant
            i <= pieces@.len(),
            all == segments(text@),
            pieces@.len() == all.len(),
            forall|j: int| 0 <= j < pieces@.len() ==> (#[trigger] pieces@[j])@ == all[j],
            cards@.len() == i,
            forall|j: int|
                0 <= j < i ==> Card::of_text(#[trigger] all[j]) == Ok::<Card, InvalidConversion>(
                    cards@[j],
                ),
        decreases pieces@.len() - i,
    {
        match Card::try_from(pieces[i]) {
            Ok(card) => {
                cards.push(card);
            },
            Err(refused) => {
                proof {
                    assert(Card::of_text(all[i as int]) is Err);
                    let first = choose|k: int|
                        0 <= k < all.len() && Card::of_text(#[trigger] all[k]) is Err && forall|
                            j: int,
                        |
                            0 <= j < k ==> Card::of_text(#[trigger] all[j]) is Ok;
                    assert(first == i);
                }
                return Err(refused);
            },
        }
        i += 1;
    }
    proof {
        assert(cards@ =~= Seq::new(all.len(), |i: int| Card::of_text(all[i])->Ok_0));
    }
    Ok(cards)
}

/// Analyzes the hand that a text names: five card codes with commas between them, as in
/// `tr,jr,qr,kr,1r`.
pub fn analyze(text: &str) -> (category: Result<HandCategory, AnalysisError>)
    ensures
        category == analysis(text@),
{
    let cards = match parse_cards(text) {
        Ok(cards) => cards,
        Err(refused) => {
            return Err(AnalysisError::Card(refused));
        },
    };
    let hand = match Hand::try_from(cards.as_slice()) {
        Ok(hand) => hand,
        Err(refused) => {
            return Err(AnalysisError::Hand(refused));
        },
    };
    Ok(classify(&hand))
}

} // verus!
