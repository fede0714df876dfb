//! A set of cards, such as a hand or the cards on the table.

use vstd::prelude::*;

use crate::card::Card;

verus! {

/// A set of distinct cards. Its cards are walked in the order in which they
/// were added.
#[derive(Debug)]
pub struct CardSet {
    cards: Vec<Card>,
}

impl View for CardSet {
    type V = Set<Card>;

    open spec fn view(&self) -> Set<Card> {
        self.seq().to_set()
    }
}

impl Clone for CardSet {
    fn clone(&self) -> (r: CardSet)
        ensures
            r.seq() == self.seq(),
            r.wf() == self.wf(),
    {
        CardSet { cards: self.to_vec() }
    }
}

impl CardSet {
    /// The cards in the order in which the set walks them.
    pub closed spec fn seq(self) -> Seq<Card> {
        self.cards@
    }

    /// No card occurs twice in the walk.
    pub closed spec fn wf(self) -> bool {
        self.cards@.no_duplicates()
    }

    /// No card occurs twice in the walk, and the walk holds as many cards as
    /// the set.
    pub proof fn lemma_distinct(&self)
        requires
            self.wf(),
        ensures
            self.seq().no_duplicates(),
            self@.finite(),
            self@.len() == self.seq().len(),
            forall|c: Card| self@.contains(c) <==> self.seq().contains(c),
    {
        self.seq().unique_seq_to_set();
        vstd::seq_lib::seq_to_set_is_finite(self.seq());
    }

    /// An empty set.
    pub fn new() -> (s: CardSet)
        ensures
            s.wf(),
            s.seq() == Seq::<Card>::empty(),
            s@ == Set::<Card>::empty(),
    {
        let s = CardSet { cards: Vec::new() };
        assert(s@ =~= Set::<Card>::empty());
        s
    }

    /// Position of `c` in the walk, if it is in the set.
    fn position(&self, c: &Card) -> (r: Option<usize>)
        ensures
            match r {
                Some(i) => i < self.seq().len() && self.seq()[i as int] == *c,
                None => !self.seq().contains(*c),
            },
    {
        let mut i: usize = 0;
        while i < self.cards.len()
            invariant
                i <= self.cards.len(),
                forall|j: int| 0 <= j < i ==> self.cards@[j] != *c,
            decreases self.cards.len() - i,
        {
            if self.cards[i] == *c {
                return Some(i);
            }
            i = i + 1;
        }
        None
    }

    /// Whether `c` is in the set.
    pub fn contains(&self, c: &Card) -> (r: bool)
        ensures
            r == self@.contains(*c),
    {
        match self.position(c) {
            Some(_) => true,
            None => false,
        }
    }

    /// Adds `c`; says whether it was not there before. A new card goes to
    /// the end of the walk.
    pub fn insert(&mut self, c: Card) -> (r: bool)
        requires
            old(self).wf(),
        ensures
            final(self).wf(),
            r == !old(self)@.contains(c),
            final(self)@ == old(self)@.insert(c),
            final(self).seq() == (if r {
                old(self).seq().push(c)
            } else {
                old(self).seq()
            }),
    {
        match self.position(&c) {
            Some(_) => {
                assert(self@ =~= self@.insert(c));
                false
            },
            None => {
                let ghost before = self.cards@;
                self.cards.push(c);
                proof {
                    assert(self.cards@ == before.push(c));
                    assert forall|i: int, j: int|
                        0 <= i < self.cards@.len() && 0 <= j < self.cards@.len() && i != j
                        implies self.cards@[i] != self.cards@[j] by {
                        if j == before.len() as int {
                            assert(before.contains(before[i]));
                        } else if i == before.len() as int {
                            assert(before.contains(before[j]));
                        }
                    }
                    assert forall|x: Card| self.cards@.contains(x) <==> (before.contains(x) || x
                        == c) by {
                        if before.contains(x) {
                            let k = choose|k: int| 0 <= k < before.len() && before[k] == x;
                            assert(self.cards@[k] == x);
                        }
                        if x == c {
                            assert(self.cards@[before.len() as int] == c);
                        }
                    }
                    assert(self@ =~= old(self)@.insert(c));
                }
                true
            },
        }
    }

    /// Takes `c` out; says whether it was there. The other cards keep their
    /// order in the walk.
    pub fn remove(&mut self, c: &Card) -> (r: bool)
        requires
            old(self).wf(),
        ensures
            final(self).wf(),
            r == old(self)@.contains(*c),
            final(self)@ == old(self)@.remove(*c),
            r ==> exists|i: int|
                0 <= i < old(self).seq().len() && old(self).seq()[i] == *c && final(self).seq()
                    == old(self).seq().remove(i),
            !r ==> final(self).seq() == old(self).seq(),
    {
        match self.position(c) {
            Some(i) => {
                let ghost before = self.cards@;
                self.cards.remove(i);
                proof {
                    let after = self.cards@;
                    assert(after == before.remove(i as int));
                    assert forall|a: int, b: int|
                        0 <= a < after.len() && 0 <= b < after.len() && a != b implies after[a]
                        != after[b] by {
                        let a2 = if a < i { a } else { a + 1 };
                        let b2 = if b < i { b } else { b + 1 };
                        assert(after[a] == before[a2]);
                        assert(after[b] == before[b2]);
                    }
                    assert forall|x: Card| self@.contains(x) <==> old(self)@.remove(*c).contains(
                        x,
                    ) by {
                        if after.contains(x) {
                            let k = choose|k: int| 0 <= k < after.len() && after[k] == x;
                            let k2 = if k < i { k } else { k + 1 };
                            assert(before[k2] == x);
                            assert(k2 != i);
                        }
                        if x != *c && before.contains(x) {
                            let k = choose|k: int| 0 <= k < before.len() && before[k] == x;
                            assert(k != i);
                            let k2 = if k < i { k } else { k - 1 };
                            assert(after[k2] == x);
                        }
                    }
                    assert(self@ =~= old(self)@.remove(*c));
                }
                true
            },
            None => {
                assert(self@ =~= old(self)@.remove(*c));
                false
            },
        }
    }

    /// The number of cards in the set.
    pub fn len(&self) -> (r: usize)
        requires
            self.wf(),
        ensures
            r == self@.len(),
            r == self.seq().len(),
    {
        proof {
            self.lemma_distinct();
        }
        self.cards.len()
    }

    /// Whether the set holds no card.
    pub fn is_empty(&self) -> (r: bool)
        requires
            self.wf(),
        ensures
            r == (self@.len() == 0),
            r == (self.seq().len() == 0),
    {
        self.len() == 0
    }

    /// The cards in walk order.
    pub fn to_vec(&self) -> (r: Vec<Card>)
        ensures
            r@ == self.seq(),
    {
        let mut r: Vec<Card> = Vec::new();
        let mut i: usize = 0;
        while i < self.cards.len()
            invariant
                i <= self.cards.len(),
                r@ == self.cards@.take(i as int),
            decreases self.cards.len() - i,
        {
            r.push(self.cards[i]);
            i = i + 1;
            assert(r@ =~= self.cards@.take(i as int));
        }
        assert(self.cards@.take(i as int) =~= self.cards@);
        r
    }
}

/// A copy of a list of cards.
pub fn copy_cards(v: &Vec<Card>) -> (r: Vec<Card>)
    ensures
        r@ == v@,
{
    let mut r: Vec<Card> = Vec::new();
    let mut i: usize = 0;
    while i < v.len()
        invariant
            i <= v.len(),
            r@ == v@.take(i as int),
        decreases v.len() - i,
    {
        r.push(v[i]);
        i = i + 1;
        assert(r@ =~= v@.take(i as int));
    }
    assert(v@.take(i as int) =~= v@);
    r
}

} // verus!
