//! A player's move: a card put down on the table, or a card played to pick
//! up cards from the table.

use vstd::prelude::*;

use crate::card::Card;
use crate::encoding::{
    decoded, first_word_cards, lemma_unpack_or_pack, or_pack, unpack, valid_pack, word_cards,
};
use crate::sort::{lemma_sorted_cards, lemma_sorted_cards_order_free, sort_cards, sorted_cards};

verus! {

/// A move. `Up` holds the played card and the picked-up cards, ordered by
/// value then suit and packed six bits each (see `Card::encode_vec`).
#[derive(Clone, Debug, Copy, PartialEq, Eq, Structural)]
pub enum Move {
    Down(Card),
    Up(Card, u128),
}

impl Move {
    /// The pick-up move that plays `c` and takes the cards `cds`.
    pub open spec fn up_of(c: Card, cds: Seq<Card>) -> Move {
        Move::Up(c, or_pack(sorted_cards(cds)))
    }

    /// The card that the move plays from the hand.
    pub open spec fn played(self) -> Card {
        match self {
            Move::Down(c) => c,
            Move::Up(c, _) => c,
        }
    }

    /// The move that plays `c` and picks up the cards `cds` (at most
    /// twenty-one of them, which is more than a table can offer).
    pub fn new_up(c: Card, cds: Vec<Card>) -> (m: Move)
        requires
            cds.len() <= word_cards(),
        ensures
            m == Move::up_of(c, cds@),
            valid_pack(m->Up_1),
            decoded(m->Up_1, 0) == sorted_cards(cds@),
    {
        let ghost given = cds@;
        let mut cds = cds;
        sort_cards(&mut cds);
        proof {
            lemma_sorted_cards(given);
            assert(first_word_cards(cds@) == cds@);
            lemma_unpack_or_pack(cds@);
            assert(unpack(0) == Seq::<Card>::empty());
            assert(decoded(or_pack(cds@), 0) =~= cds@);
        }
        let (cds1, _cds2) = Card::encode_vec(&cds);
        Move::Up(c, cds1)
    }

    /// Whether two moves are the same; pick-up moves built with `new_up`
    /// compare their sets of picked-up cards.
    pub fn equal(&self, m: &Self) -> (r: bool)
        ensures
            r == (*self == *m),
    {
        match (self, m) {
            (Move::Down(c1), Move::Down(c2)) => *c1 == *c2,
            (Move::Up(c1, cds11), Move::Up(c2, cds21)) => *c1 == *c2 && *cds11 == *cds21,
            (_, _) => false,
        }
    }

    /// The card that the move plays from the hand.
    pub fn get_down_card(&self) -> (r: Card)
        ensures
            r == self.played(),
    {
        match self {
            Move::Down(c) => *c,
            Move::Up(c, _) => *c,
        }
    }
}


/// A pick-up move does not depend on the order in which the picked-up cards
/// are given: `Move::new_up` gives equal moves for the same cards.
pub proof fn lemma_up_of_order_free(c: Card, a: Seq<Card>, b: Seq<Card>)
    requires
        a.to_multiset() == b.to_multiset(),
    ensures
        Move::up_of(c, a) == Move::up_of(c, b),
{
    lemma_sorted_cards_order_free(a, b);
}

} // verus!
