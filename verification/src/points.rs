//! How the points of a finished round are shared: once every card lies in
//! a pond, each of the round's points goes to at most one player, and the
//! seven of diamonds to exactly one.

use vstd::prelude::*;

use crate::card::{Card, Suit, Value};
use crate::conservation::{lemma_finished_game_ponds, pond_count};
use crate::game::{deal_suit, fresh_deck, Game};
use crate::player::{card_matches, count_matching, majority_bonus, majority_value, score_gain, Player};

verus! {

broadcast use vstd::seq_lib::group_to_multiset_ensures;

/// Taking the card at `i` out of `t` takes it out of the count.
proof fn lemma_count_remove(t: Seq<Card>, i: int, v: Option<Value>, s: Option<Suit>)
    requires
        0 <= i < t.len(),
    ensures
        count_matching(t, v, s) == count_matching(t.remove(i), v, s) + (if card_matches(
            t[i],
            v,
            s,
        ) {
            1int
        } else {
            0int
        }),
    decreases t.len(),
{
    if i == t.len() - 1 {
        assert(t.remove(i) =~= t.drop_last());
    } else {
        lemma_count_remove(t.drop_last(), i, v, s);
        assert(t.remove(i).drop_last() =~= t.drop_last().remove(i));
        assert(t.remove(i).last() == t.last());
    }
}

/// Lists that hold the same cards, as often each, count alike.
proof fn lemma_count_permutation(a: Seq<Card>, b: Seq<Card>, v: Option<Value>, s: Option<Suit>)
    requires
        a.to_multiset() == b.to_multiset(),
    ensures
        count_matching(a, v, s) == count_matching(b, v, s),
    decreases a.len(),
{
    broadcast use vstd::multiset::group_multiset_axioms;

    if a.len() == 0 {
        assert(a.to_multiset().len() == 0);
        assert(b.to_multiset().len() == b.len());
        assert(b =~= Seq::<Card>::empty());
    } else {
        let x = a.last();
        let a2 = a.drop_last();
        assert(a =~= a2.push(x));
        assert(a.to_multiset().count(x) > 0);
        assert(b.contains(x));
        let i = choose|i: int| 0 <= i < b.len() && b[i] == x;
        lemma_count_remove(b, i, v, s);
        assert(a2.to_multiset() =~= b.remove(i).to_multiset());
        lemma_count_permutation(a2, b.remove(i), v, s);
    }
}

/// The count of two lists put together is the sum of their counts.
proof fn lemma_count_concat(a: Seq<Card>, b: Seq<Card>, v: Option<Value>, s: Option<Suit>)
    ensures
        count_matching(a + b, v, s) == count_matching(a, v, s) + count_matching(b, v, s),
    decreases b.len(),
{
    if b.len() == 0 {
        assert(a + b =~= a);
    } else {
        lemma_count_concat(a, b.drop_last(), v, s);
        assert((a + b).drop_last() =~= a + b.drop_last());
        assert((a + b).last() == b.last());
    }
}

/// The cards of a fresh deck's first `n` that have value `v`, that are
/// diamonds, and that are the seven of diamonds.
proof fn lemma_fresh_counts(n: int)
    requires
        0 <= n <= 40,
    ensures
        forall|v: Value|
            #[trigger] count_matching(fresh_deck().take(n), Some(v), None) == {
                let lo = 4 * (v.points() - 1);
                if n <= lo {
                    0
                } else if n >= lo + 4 {
                    4
                } else {
                    n - lo
                }
            },
        count_matching(fresh_deck().take(n), None, Some(Suit::Diamonds)) == (n + 3) / 4,
        count_matching(fresh_deck().take(n), Some(Value::Seven), Some(Suit::Diamonds)) == (if n
            > 24 {
            1int
        } else {
            0int
        }),
    decreases n,
{
    let d = fresh_deck();
    if n == 0 {
        assert(d.take(0) =~= Seq::<Card>::empty());
    } else {
        lemma_fresh_counts(n - 1);
        let i = n - 1;
        assert(d.take(n).drop_last() =~= d.take(i));
        assert(d.take(n).last() == d[i]);
        let c = d[i];
        assert(c.val == Value::of_points(i / 4 + 1).unwrap());
        assert(c.val.points() == i / 4 + 1);
        assert(c.suit == deal_suit(i % 4));
        assert(c.suit == Suit::Diamonds <==> i % 4 == 0);
        assert(c.val == Value::Seven <==> i / 4 == 6);
        assert forall|v: Value|
            #[trigger] count_matching(d.take(n), Some(v), None) == {
                let lo = 4 * (v.points() - 1);
                if n <= lo {
                    0
                } else if n >= lo + 4 {
                    4
                } else {
                    n - lo
                }
            } by {
            assert(count_matching(d.take(n), Some(v), None) == count_matching(d.take(i), Some(v), None)
                + (if c.val == v { 1int } else { 0int }));
            assert(c.val == v <==> i / 4 + 1 == v.points());
        }
    }
}

/// How often each kind of card is in a whole deck.
proof fn lemma_full_counts(v: Value)
    ensures
        count_matching(fresh_deck(), Some(v), None) == 4,
        count_matching(fresh_deck(), None, Some(Suit::Diamonds)) == 10,
        count_matching(fresh_deck(), Some(Value::Seven), Some(Suit::Diamonds)) == 1,
{
    lemma_fresh_counts(40);
    assert(fresh_deck().take(40) =~= fresh_deck());
    assert(count_matching(fresh_deck().take(40), Some(v), None) == 4);
}

/// When the cards of each value are shared four to a value between two
/// ponds, the sevens count gives its point to at most one of them.
proof fn lemma_majority_shared(a: Seq<Card>, b: Seq<Card>, k: int)
    requires
        forall|j: int|
            0 <= j < 7 ==> count_matching(a, Some(#[trigger] majority_value(j)), None)
                + count_matching(b, Some(majority_value(j)), None) == 4,
    ensures
        majority_bonus(a, k) + majority_bonus(b, k) <= 1,
        majority_bonus(a, k) >= 0,
        majority_bonus(b, k) >= 0,
    decreases 7 - k,
{
    if 0 <= k < 7 {
        lemma_majority_shared(a, b, k + 1);
        assert(count_matching(a, Some(majority_value(k)), None) + count_matching(
            b,
            Some(majority_value(k)),
            None,
        ) == 4);
    }
}

/// At the end of a game of two players, when every card lies in a pond,
/// each of the round's points goes to at most one player: not both can hold
/// more than twenty cards, more than five diamonds, or the sevens count;
/// the seven of diamonds is in exactly one pond. So the round's points come
/// to at least one and at most four in all.
pub proof fn lemma_round_points_shared(g: Game)
    requires
        g.cards_conserved(),
        g.players@.len() == 2,
        g.deck@.len() == 0,
        g.table@ == Set::<Card>::empty(),
        g.hands_empty(),
    ensures
        ({
            let a = g.players@[0].pond@;
            let b = g.players@[1].pond@;
            &&& !(a.len() > 20 && b.len() > 20)
            &&& !(count_matching(a, None, Some(Suit::Diamonds)) > 5 && count_matching(
                b,
                None,
                Some(Suit::Diamonds),
            ) > 5)
            &&& (count_matching(a, Some(Value::Seven), Some(Suit::Diamonds)) > 0) != (
            count_matching(b, Some(Value::Seven), Some(Suit::Diamonds)) > 0)
            &&& majority_bonus(a, 0) + majority_bonus(b, 0) <= 1
            &&& 1 <= score_gain(a) + score_gain(b) <= 4
        }),
{
    broadcast use vstd::multiset::group_multiset_axioms;

    let a = g.players@[0].pond@;
    let b = g.players@[1].pond@;
    let ab = a + b;
    let ps = g.players@;
    assert forall|x: Card| #[trigger] ab.to_multiset().count(x) == fresh_deck().to_multiset().count(
        x,
    ) by {
        lemma_finished_game_ponds(g, x);
        assert(ps.drop_last().drop_last() =~= Seq::<Player>::empty());
        assert(ps.drop_last().last() == ps[0]);
        assert(ps.last() == ps[1]);
        assert(pond_count(ps, x) == a.to_multiset().count(x) + b.to_multiset().count(x)) by {
            reveal_with_fuel(pond_count, 3);
        }
        vstd::seq_lib::lemma_multiset_commutative(a, b);
        crate::conservation::lemma_fresh_deck_counts(x);
    }
    assert(ab.to_multiset() =~= fresh_deck().to_multiset());
    assert(ab.len() == 40) by {
        assert(ab.to_multiset().len() == fresh_deck().to_multiset().len());
    }
    lemma_full_counts(Value::Seven);
    lemma_count_permutation(ab, fresh_deck(), None, Some(Suit::Diamonds));
    lemma_count_concat(a, b, None, Some(Suit::Diamonds));
    lemma_count_permutation(ab, fresh_deck(), Some(Value::Seven), Some(Suit::Diamonds));
    lemma_count_concat(a, b, Some(Value::Seven), Some(Suit::Diamonds));
    assert forall|j: int|
        0 <= j < 7 implies count_matching(a, Some(#[trigger] majority_value(j)), None)
        + count_matching(b, Some(majority_value(j)), None) == 4 by {
        lemma_full_counts(majority_value(j));
        lemma_count_permutation(ab, fresh_deck(), Some(majority_value(j)), None);
        lemma_count_concat(a, b, Some(majority_value(j)), None);
    }
    lemma_majority_shared(a, b, 0);
}

} // verus!
