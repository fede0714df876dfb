//! A line typed by a player, read as a move: `d <card>` puts a card down,
//! `u <card> <card>...` plays the first card and picks up the others.

use vstd::prelude::*;
use vstd::string::{StrSliceExecFns, StringSliceAdditionalSpecFns};
use vstd::utf8::encode_utf8;

use crate::card::Card;
use crate::encoding::word_cards;
use crate::moves::Move;
use crate::text::join2;

verus! {

/// The words of a text as `str::split_whitespace` gives them.
pub uninterp spec fn whitespace_words(s: Seq<char>) -> Seq<Seq<char>>;

/// Wraps `str::split_whitespace` from std: the words of `line`, each a piece
/// of `line` between whitespace, in order. Which characters count as
/// whitespace (Unicode's White_Space) is not stated: the words are named by
/// `whitespace_words`.
#[verifier::external_body]
fn split_words<'a>(line: &'a str) -> (r: Vec<&'a str>)
    ensures
        r@.map_values(|w: &str| w@) == whitespace_words(line@),
        forall|i: int|
            0 <= i < r@.len() ==> encode_utf8((#[trigger] r@[i])@).len() <= encode_utf8(
                line@,
            ).len(),
{
    line.split_whitespace().collect()
}

/// The words' texts.
pub open spec fn texts(ws: Seq<&str>) -> Seq<Seq<char>> {
    ws.map_values(|w: &str| w@)
}

/// Whether `w` asks to put a card down.
pub open spec fn is_down_word(w: Seq<char>) -> bool {
    w == seq!['d'] || w == seq!['D']
}

/// Whether `w` asks to pick cards up.
pub open spec fn is_up_word(w: Seq<char>) -> bool {
    w == seq!['u'] || w == seq!['U']
}

/// The card that `w` names, or the message of `Card::parse`.
pub open spec fn card_of_word(w: Seq<char>) -> Result<Card, Seq<char>> {
    let n = encode_utf8(w).len() as int;
    if n == 2 && Card::of_text(w).is_some() {
        Ok(Card::of_text(w).unwrap())
    } else {
        Err(Card::text_error(w, n))
    }
}

/// The cards that the words `ws` name, read in order, or `None` where a
/// word names no card.
pub open spec fn read_cards(ws: Seq<Seq<char>>) -> Option<Seq<Card>>
    decreases ws.len(),
{
    if ws.len() == 0 {
        Some(Seq::empty())
    } else {
        match card_of_word(ws[0]) {
            Err(_) => None,
            Ok(c) => match read_cards(ws.drop_first()) {
                None => None,
                Some(cs) => Some(seq![c] + cs),
            },
        }
    }
}

/// What a line of the words `ws` gives: `None` where the game stops on it,
/// a pick-up of more cards than a move holds; else the move, or the message
/// to show (none where a picked-up card is misspelt, and the line is passed
/// over in silence).
pub open spec fn line_move(ws: Seq<Seq<char>>) -> Option<Result<Move, Option<Seq<char>>>> {
    if ws.len() == 0 || !(is_down_word(ws[0]) || is_up_word(ws[0])) {
        Some(Err(Some("Needs to start with u/U or d/D"@)))
    } else if is_down_word(ws[0]) {
        if ws.len() < 2 {
            Some(Err(Some("Need a second argument for down"@)))
        } else {
            match card_of_word(ws[1]) {
                Ok(c) => Some(Ok(Move::Down(c))),
                Err(e) => Some(Err(Some("Could not parse card: "@ + e))),
            }
        }
    } else {
        if ws.len() < 2 {
            Some(Err(Some("Need a first argument for up"@)))
        } else {
            match card_of_word(ws[1]) {
                Err(e) => Some(Err(Some("Could not parse card "@ + e))),
                Ok(c) => match read_cards(ws.skip(2)) {
                    None => Some(Err(None)),
                    Some(cs) => if cs.len() > word_cards() {
                        None
                    } else {
                        Some(Ok(Move::up_of(c, cs)))
                    },
                },
            }
        }
    }
}

/// The cards that the words `ws` name, when each of them names one.
pub open spec fn named_cards(ws: Seq<Seq<char>>) -> Seq<Card> {
    ws.map_values(|w: Seq<char>| card_of_word(w)->Ok_0)
}

/// Words that each name a card are read as those cards, one for each
/// word, in order; when any word names no card, not all are read.
proof fn lemma_read_cards(ws: Seq<Seq<char>>)
    ensures
        (forall|i: int| 0 <= i < ws.len() ==> card_of_word(#[trigger] ws[i]) is Ok) ==> read_cards(
            ws,
        ) == Some(named_cards(ws)),
        read_cards(ws) matches Some(cs) ==> cs.len() == ws.len(),
    decreases ws.len(),
{
    if ws.len() > 0 {
        lemma_read_cards(ws.drop_first());
        if forall|i: int| 0 <= i < ws.len() ==> card_of_word(#[trigger] ws[i]) is Ok {
            assert forall|i: int| 0 <= i < ws.drop_first().len() implies card_of_word(
                #[trigger] ws.drop_first()[i],
            ) is Ok by {
                assert(ws.drop_first()[i] == ws[i + 1]);
            }
            assert(card_of_word(ws[0]) is Ok);
            assert(named_cards(ws) =~= seq![card_of_word(ws[0])->Ok_0] + named_cards(
                ws.drop_first(),
            ));
        }
    } else {
        assert(named_cards(ws) =~= Seq::<Card>::empty());
    }
}

/// A pick-up line, `u` or `U` and then words that each name a card, with
/// at most twenty-one cards to pick up, reads as the move that plays the
/// card first named and picks up the others, whatever their number.
pub proof fn lemma_pickup_line(ws: Seq<Seq<char>>)
    requires
        ws.len() >= 2,
        is_up_word(ws[0]),
        forall|i: int| 1 <= i < ws.len() ==> card_of_word(#[trigger] ws[i]) is Ok,
        ws.len() - 2 <= 21,
    ensures
        line_move(ws) == Some(
            Ok::<Move, Option<Seq<char>>>(
                Move::up_of(card_of_word(ws[1])->Ok_0, named_cards(ws.skip(2))),
            ),
        ),
{
    let rest = ws.skip(2);
    assert forall|i: int| 0 <= i < rest.len() implies card_of_word(#[trigger] rest[i]) is Ok by {
        assert(rest[i] == ws[i + 2]);
    }
    lemma_read_cards(rest);
    assert(card_of_word(ws[1]) is Ok);
    assert(!is_down_word(ws[0]));
}

/// A put-down line, `d` or `D` and then a word that names a card, reads as
/// the move that puts that card down, whatever words follow.
pub proof fn lemma_down_line(ws: Seq<Seq<char>>)
    requires
        ws.len() >= 2,
        is_down_word(ws[0]),
        card_of_word(ws[1]) is Ok,
    ensures
        line_move(ws) == Some(
            Ok::<Move, Option<Seq<char>>>(Move::Down(card_of_word(ws[1])->Ok_0)),
        ),
{
}

/// The game stops on a line only when it asks to pick up more than
/// twenty-one cards: a `u` or `U`, a card to play, and at least
/// twenty-two more words.
pub proof fn lemma_line_stops_only_on_long_pickups(ws: Seq<Seq<char>>)
    ensures
        line_move(ws) is None ==> is_up_word(ws[0]) && ws.len() > 23,
{
    lemma_read_cards(ws.skip(2));
}

/// A line's result, with its message as text.
pub open spec fn result_view(r: Result<Move, Option<String>>) -> Result<Move, Option<Seq<char>>> {
    match r {
        Ok(m) => Ok(m),
        Err(None) => Err(None),
        Err(Some(e)) => Err(Some(e@)),
    }
}

/// Whether every word's text fits in memory.
pub open spec fn words_fit(ws: Seq<&str>) -> bool {
    forall|i: int| 0 <= i < ws.len() ==> encode_utf8((#[trigger] ws[i])@).len() <= usize::MAX
}

/// Reads `w` as a card (see `card_of_word`).
fn word_card(w: &str) -> (r: Result<Card, String>)
    requires
        encode_utf8(w@).len() <= usize::MAX,
    ensures
        match r {
            Ok(c) => card_of_word(w@) == Ok::<Card, Seq<char>>(c),
            Err(e) => card_of_word(w@) == Err::<Card, Seq<char>>(e@),
        },
{
    Card::parse(w)
}

/// Reads `ws[from..]` as cards (see `read_cards`).
fn read_card_words(ws: &Vec<&str>, from: usize) -> (r: Option<Vec<Card>>)
    requires
        from <= ws@.len(),
        words_fit(ws@),
    ensures
        match r {
            None => read_cards(texts(ws@).skip(from as int)) is None,
            Some(v) => read_cards(texts(ws@).skip(from as int)) == Some(v@),
        },
    decreases ws@.len() - from,
{
    let ghost t = texts(ws@).skip(from as int);
    if from == ws.len() {
        return Some(Vec::new());
    }
    assert(t[0] == ws@[from as int]@);
    assert(t.drop_first() =~= texts(ws@).skip(from + 1));
    match word_card(ws[from]) {
        Err(_) => None,
        Ok(c) => match read_card_words(ws, from + 1) {
            None => None,
            Some(rest) => {
                let mut v: Vec<Card> = Vec::new();
                v.push(c);
                let mut i: usize = 0;
                while i < rest.len()
                    invariant
                        i <= rest@.len(),
                        v@ == seq![c] + rest@.take(i as int),
                    decreases rest@.len() - i,
                {
                    v.push(rest[i]);
                    i = i + 1;
                    assert(v@ =~= seq![c] + rest@.take(i as int));
                }
                assert(rest@.take(i as int) =~= rest@);
                Some(v)
            },
        },
    }
}

/// Whether the word `w` is the single character `c`.
fn is_char(w: &str, c: char) -> (r: bool)
    ensures
        r == (w@ == seq![c]),
{
    if w.unicode_len() != 1 {
        return false;
    }
    let first = w.get_char(0);
    proof {
        if first == c {
            assert(w@ =~= seq![c]);
        }
    }
    first == c
}

/// Reads the words of a line (see `line_move`); `None` where the game stops.
fn read_line(ws: &Vec<&str>) -> (r: Option<Result<Move, Option<String>>>)
    requires
        words_fit(ws@),
    ensures
        match r {
            None => line_move(texts(ws@)) is None,
            Some(x) => line_move(texts(ws@)) == Some(result_view(x)),
        },
{
    let ghost t = texts(ws@);
    if ws.len() == 0 {
        return Some(Err(Some(String::from_str("Needs to start with u/U or d/D"))));
    }
    assert(t[0] == ws@[0]@);
    let down = is_char(ws[0], 'd') || is_char(ws[0], 'D');
    let up = is_char(ws[0], 'u') || is_char(ws[0], 'U');
    if !down && !up {
        return Some(Err(Some(String::from_str("Needs to start with u/U or d/D"))));
    }
    if ws.len() < 2 {
        if down {
            return Some(Err(Some(String::from_str("Need a second argument for down"))));
        } else {
            return Some(Err(Some(String::from_str("Need a first argument for up"))));
        }
    }
    assert(t[1] == ws@[1]@);
    let first = word_card(ws[1]);
    if down {
        match first {
            Ok(c) => Some(Ok(Move::Down(c))),
            Err(e) => Some(Err(Some(join2("Could not parse card: ", e.as_str())))),
        }
    } else {
        match first {
            Err(e) => Some(Err(Some(join2("Could not parse card ", e.as_str())))),
            Ok(c) => {
                assert(t.skip(2) =~= texts(ws@).skip(2));
                match read_card_words(ws, 2) {
                    None => Some(Err(None)),
                    Some(cs) => {
                        if cs.len() > 21 {
                            None
                        } else {
                            Some(Ok(Move::new_up(c, cs)))
                        }
                    },
                }
            },
        }
    }
}

/// The move that a line of the words `ws` asks for, or the message to show
/// (none where a picked-up card is misspelt). The line must be one the
/// game does not stop on: no pick-up of more than twenty-one cards (see
/// `line_move`).
pub fn move_of_words(ws: &Vec<&str>) -> (r: Result<Move, Option<String>>)
    requires
        words_fit(ws@),
        line_move(texts(ws@)) is Some,
    ensures
        line_move(texts(ws@)) == Some(result_view(r)),
{
    match read_line(ws) {
        Some(x) => x,
        None => Err(None),
    }
}

/// Reads a line typed by a player: the move it asks for, or the message to
/// show (none where a picked-up card is misspelt); `None` where the game
/// stops on the line: a pick-up of more than twenty-one cards.
pub fn parse_move_line(line: &str) -> (r: Option<Result<Move, Option<String>>>)
    requires
        line.spec_bytes().len() <= usize::MAX,
    ensures
        match r {
            None => line_move(whitespace_words(line@)) is None,
            Some(x) => line_move(whitespace_words(line@)) == Some(result_view(x)),
        },
{
    let ws = split_words(line);
    assert(texts(ws@) == whitespace_words(line@));
    read_line(&ws)
}

} // verus!
