//! A player: the cards in hand, the cards picked up (the pond), the score.

use vstd::prelude::*;

use crate::card::{Card, Suit, Value};
use crate::card_set::CardSet;

verus! {

/// Whether `c` has value `v` (when given) and suit `s` (when given).
pub open spec fn card_matches(c: Card, v: Option<Value>, s: Option<Suit>) -> bool {
    &&& (v matches Some(val) ==> c.val == val)
    &&& (s matches Some(suit) ==> c.suit == suit)
}

/// How many cards of `pond` match the value and suit asked for.
pub open spec fn count_matching(pond: Seq<Card>, v: Option<Value>, s: Option<Suit>) -> nat
    decreases pond.len(),
{
    if pond.len() == 0 {
        0
    } else {
        count_matching(pond.drop_last(), v, s) + (if card_matches(pond.last(), v, s) {
            1nat
        } else {
            0nat
        })
    }
}

/// The value checked at step `k` of the count of sevens, sixes, fives and so
/// on down to aces.
pub open spec fn majority_value(k: int) -> Value {
    Value::of_points(7 - k).unwrap()
}

/// The point for holding the most cards of a value, checked from sevens
/// down: three or more cards of the value checked give the point, fewer than
/// two end the count without it, exactly two go on to the next value.
pub open spec fn majority_bonus(pond: Seq<Card>, k: int) -> int
    decreases 7 - k,
{
    if k >= 7 || k < 0 {
        0
    } else {
        let cnt = count_matching(pond, Some(majority_value(k)), None);
        if cnt > 2 {
            1
        } else if cnt < 2 {
            0
        } else {
            majority_bonus(pond, k + 1)
        }
    }
}

/// The points that a pond earns at the end of a round: one for more than
/// twenty cards, one for more than five diamonds, one for the seven of
/// diamonds, and the point of the sevens count.
pub open spec fn score_gain(pond: Seq<Card>) -> int {
    (if pond.len() > 20 {
        1int
    } else {
        0int
    }) + (if count_matching(pond, None, Some(Suit::Diamonds)) > 5 {
        1int
    } else {
        0int
    }) + (if count_matching(pond, Some(Value::Seven), Some(Suit::Diamonds)) > 0 {
        1int
    } else {
        0int
    }) + majority_bonus(pond, 0)
}

proof fn lemma_count_bounded(pond: Seq<Card>, v: Option<Value>, s: Option<Suit>)
    ensures
        count_matching(pond, v, s) <= pond.len(),
    decreases pond.len(),
{
    if pond.len() > 0 {
        lemma_count_bounded(pond.drop_last(), v, s);
    }
}

proof fn lemma_majority_bonus_bounded(pond: Seq<Card>, k: int)
    ensures
        0 <= majority_bonus(pond, k) <= 1,
    decreases 7 - k,
{
    if 0 <= k < 7 {
        lemma_majority_bonus_bounded(pond, k + 1);
    }
}

/// A pond of more than twenty cards always earns the cards point, however
/// many cards above twenty it holds: of two ponds that earn the same other
/// points, one with more than twenty cards and one without, the first earns
/// exactly one point more.
pub proof fn lemma_cards_point(p: Seq<Card>, q: Seq<Card>)
    requires
        p.len() > 20,
        q.len() <= 20,
        count_matching(p, None, Some(Suit::Diamonds)) == count_matching(
            q,
            None,
            Some(Suit::Diamonds),
        ),
        count_matching(p, Some(Value::Seven), Some(Suit::Diamonds)) == count_matching(
            q,
            Some(Value::Seven),
            Some(Suit::Diamonds),
        ),
        majority_bonus(p, 0) == majority_bonus(q, 0),
    ensures
        score_gain(p) == score_gain(q) + 1,
{
}

/// A pond of more than five diamonds always earns the diamonds point: of
/// two ponds that earn the same other points, one with more than five
/// diamonds and one without, the first earns exactly one point more.
pub proof fn lemma_diamonds_point(p: Seq<Card>, q: Seq<Card>)
    requires
        count_matching(p, None, Some(Suit::Diamonds)) > 5,
        count_matching(q, None, Some(Suit::Diamonds)) <= 5,
        (p.len() > 20) == (q.len() > 20),
        count_matching(p, Some(Value::Seven), Some(Suit::Diamonds)) == count_matching(
            q,
            Some(Value::Seven),
            Some(Suit::Diamonds),
        ),
        majority_bonus(p, 0) == majority_bonus(q, 0),
    ensures
        score_gain(p) == score_gain(q) + 1,
{
}

/// The seven of diamonds always earns its point: of two ponds that earn
/// the same other points, one holding the seven of diamonds and one not,
/// the first earns exactly one point more.
pub proof fn lemma_seven_of_diamonds_point(p: Seq<Card>, q: Seq<Card>)
    requires
        p.contains(Card { val: Value::Seven, suit: Suit::Diamonds }),
        !q.contains(Card { val: Value::Seven, suit: Suit::Diamonds }),
        (p.len() > 20) == (q.len() > 20),
        (count_matching(p, None, Some(Suit::Diamonds)) > 5) == (count_matching(
            q,
            None,
            Some(Suit::Diamonds),
        ) > 5),
        majority_bonus(p, 0) == majority_bonus(q, 0),
    ensures
        score_gain(p) == score_gain(q) + 1,
{
    lemma_count_seven_of_diamonds(p);
    lemma_count_seven_of_diamonds(q);
}

/// A pond counts the seven of diamonds exactly when it holds it.
proof fn lemma_count_seven_of_diamonds(p: Seq<Card>)
    ensures
        (count_matching(p, Some(Value::Seven), Some(Suit::Diamonds)) > 0) == p.contains(
            Card { val: Value::Seven, suit: Suit::Diamonds },
        ),
    decreases p.len(),
{
    let sd = Card { val: Value::Seven, suit: Suit::Diamonds };
    if p.len() > 0 {
        let q = p.drop_last();
        lemma_count_seven_of_diamonds(q);
        if q.contains(sd) {
            let k = choose|k: int| 0 <= k < q.len() && q[k] == sd;
            assert(p[k] == sd);
        }
        if p.contains(sd) && !q.contains(sd) {
            let k = choose|k: int| 0 <= k < p.len() && p[k] == sd;
            if k < p.len() - 1 {
                assert(q[k] == sd);
            }
            assert(p.last() == sd);
        }
        if p.last() == sd {
            assert(p[p.len() - 1] == sd);
        }
    }
}

/// The sevens count goes by the sevens first: three or more sevens win
/// it, fewer than two lose it, and with exactly two it goes by the sixes in
/// the same way, and so on down to the aces.
pub proof fn lemma_sevens_count(p: Seq<Card>)
    ensures
        count_matching(p, Some(Value::Seven), None) > 2 ==> majority_bonus(p, 0) == 1,
        count_matching(p, Some(Value::Seven), None) < 2 ==> majority_bonus(p, 0) == 0,
        count_matching(p, Some(Value::Seven), None) == 2 ==> majority_bonus(p, 0) == (if count_matching(p, Some(Value::Six), None) > 2 {
            1int
        } else if count_matching(p, Some(Value::Six), None) < 2 {
            0int
        } else {
            majority_bonus(p, 2)
        }),
{
    assert(majority_value(0) == Value::Seven);
    assert(majority_value(1) == Value::Six);
    assert(majority_bonus(p, 0) == (if count_matching(p, Some(Value::Seven), None) > 2 {
        1int
    } else if count_matching(p, Some(Value::Seven), None) < 2 {
        0int
    } else {
        majority_bonus(p, 1)
    }));
    assert(majority_bonus(p, 1) == (if count_matching(p, Some(Value::Six), None) > 2 {
        1int
    } else if count_matching(p, Some(Value::Six), None) < 2 {
        0int
    } else {
        majority_bonus(p, 2)
    }));
}

/// Every pond of more than twenty cards earns at least the cards point,
/// and no pond earns more than the four points of a round.
pub proof fn lemma_cards_point_earned(p: Seq<Card>)
    ensures
        p.len() > 20 ==> score_gain(p) >= 1,
        0 <= score_gain(p) <= 4,
{
    lemma_majority_bonus_bounded(p, 0);
}

/// A player.
pub struct Player {
    pub hand: CardSet,
    pub pond: Vec<Card>,
    pub score: u16,
}

impl Clone for Player {
    fn clone(&self) -> (r: Player)
        ensures
            r.hand.seq() == self.hand.seq(),
            r.hand.wf() == self.hand.wf(),
            r.pond@ == self.pond@,
            r.score == self.score,
    {
        let mut pond: Vec<Card> = Vec::new();
        let mut i: usize = 0;
        while i < self.pond.len()
            invariant
                i <= self.pond.len(),
                pond@ == self.pond@.take(i as int),
            decreases self.pond.len() - i,
        {
            pond.push(self.pond[i]);
            i = i + 1;
            assert(pond@ =~= self.pond@.take(i as int));
        }
        assert(self.pond@.take(i as int) =~= self.pond@);
        Player { hand: self.hand.clone(), pond, score: self.score }
    }
}

impl Player {
    /// Whether the hand holds no card twice.
    pub open spec fn wf(self) -> bool {
        self.hand.wf()
    }

    /// A player with no cards and no points.
    pub fn new() -> (p: Player)
        ensures
            p.wf(),
            p.hand@ == Set::<Card>::empty(),
            p.hand.seq() == Seq::<Card>::empty(),
            p.pond@ == Seq::<Card>::empty(),
            p.score == 0,
    {
        Player { hand: CardSet::new(), pond: Vec::new(), score: 0 }
    }

    /// Puts `card` into the hand.
    pub fn give_card(&mut self, card: Card)
        requires
            old(self).wf(),
        ensures
            final(self).wf(),
            final(self).hand@ == old(self).hand@.insert(card),
            final(self).hand.seq() == (if old(self).hand@.contains(card) {
                old(self).hand.seq()
            } else {
                old(self).hand.seq().push(card)
            }),
            final(self).pond == old(self).pond,
            final(self).score == old(self).score,
    {
        self.hand.insert(card);
    }

    /// Adds `card` to the cards picked up.
    pub fn give_pond(&mut self, card: Card)
        ensures
            final(self).pond@ == old(self).pond@.push(card),
            final(self).hand == old(self).hand,
            final(self).score == old(self).score,
    {
        self.pond.push(card);
    }

    /// Whether the hand is empty.
    pub fn hand_empty(&self) -> (r: bool)
        requires
            self.wf(),
        ensures
            r == (self.hand@.len() == 0),
            r == (self.hand.seq().len() == 0),
    {
        self.hand.len() == 0
    }

    /// Takes `c`, which must be in the hand, out of the hand.
    pub fn remove_card(&mut self, c: Card)
        requires
            old(self).wf(),
            old(self).hand@.contains(c),
        ensures
            final(self).wf(),
            final(self).hand@ == old(self).hand@.remove(c),
            final(self).hand.seq().len() == old(self).hand.seq().len() - 1,
            final(self).pond == old(self).pond,
            final(self).score == old(self).score,
    {
        proof {
            self.hand.lemma_distinct();
        }
        self.hand.remove(&c);
        proof {
            self.hand.lemma_distinct();
            assert(self.hand@.len() == old(self).hand@.len() - 1);
        }
    }

    /// How many picked-up cards have value `v` (when given) and suit `s`
    /// (when given).
    pub fn find_card(&self, v: Option<Value>, s: Option<Suit>) -> (r: usize)
        ensures
            r == count_matching(self.pond@, v, s),
    {
        let mut count: usize = 0;
        let mut i: usize = 0;
        while i < self.pond.len()
            invariant
                i <= self.pond.len(),
                count <= i,
                count == count_matching(self.pond@.take(i as int), v, s),
            decreases self.pond.len() - i,
        {
            let c = self.pond[i];
            let v_match = match v {
                Some(val) => c.val == val,
                None => true,
            };
            let s_match = match s {
                Some(suit) => c.suit == suit,
                None => true,
            };
            proof {
                assert(self.pond@.take(i + 1).drop_last() =~= self.pond@.take(i as int));
            }
            if v_match && s_match {
                count = count + 1;
            }
            i = i + 1;
        }
        proof {
            assert(self.pond@.take(i as int) =~= self.pond@);
        }
        count
    }

    /// The point of the sevens count (see `majority_bonus`).
    fn majority_point(&self) -> (r: u16)
        ensures
            r == majority_bonus(self.pond@, 0),
    {
        let mut k: usize = 0;
        while k < 7
            invariant
                k <= 7,
                majority_bonus(self.pond@, 0) == majority_bonus(self.pond@, k as int),
            decreases 7 - k,
        {
            let v = Value::from_num(6 - k);
            assert(v == majority_value(k as int));
            let count = self.find_card(Some(v), None);
            if count > 2 {
                return 1;
            } else if count < 2 {
                return 0;
            }
            k = k + 1;
        }
        0
    }

    /// The points the pond earns at the end of a round (see `score_gain`),
    /// without adding them to the score.
    pub fn round_points(&self) -> (r: u16)
        ensures
            r == score_gain(self.pond@),
            r <= 4,
    {
        proof {
            lemma_majority_bonus_bounded(self.pond@, 0);
        }
        let mut r: u16 = 0;
        if self.pond.len() > 20 {
            r = r + 1;
        }
        if self.find_card(None, Some(Suit::Diamonds)) > 5 {
            r = r + 1;
        }
        if self.find_card(Some(Value::Seven), Some(Suit::Diamonds)) > 0 {
            r = r + 1;
        }
        r + self.majority_point()
    }

    /// Adds the round's points (see `score_gain`) to the score and returns
    /// the new score. Meant for games of two or four players.
    pub fn calculate_score(&mut self) -> (r: u16)
        requires
            old(self).score + score_gain(old(self).pond@) <= u16::MAX,
        ensures
            final(self).score == old(self).score + score_gain(old(self).pond@),
            r == final(self).score,
            final(self).hand == old(self).hand,
            final(self).pond == old(self).pond,
    {
        proof {
            lemma_majority_bonus_bounded(self.pond@, 0);
        }
        if self.pond.len() > 20 {
            self.score = self.score + 1;
        }
        if self.find_card(None, Some(Suit::Diamonds)) > 5 {
            self.score = self.score + 1;
        }
        if self.find_card(Some(Value::Seven), Some(Suit::Diamonds)) > 0 {
            self.score = self.score + 1;
        }
        let bonus = self.majority_point();
        self.score = self.score + bonus;
        self.score
    }
}

} // verus!
