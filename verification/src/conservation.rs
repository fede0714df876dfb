//! Every card of the deck is in exactly one place: the deck, the table, a
//! hand or a pond. A new game starts that way and every step keeps it so.

use vstd::prelude::*;

use crate::card::{Card, Suit, Value};
use crate::game::{deal_suit, fresh_deck, Game};
use crate::player::Player;

verus! {

broadcast use vstd::seq_lib::group_to_multiset_ensures;

/// How often `x` is with player `p`: in the hand, and in the pond.
pub open spec fn player_count(p: Player, x: Card) -> int {
    (if p.hand@.contains(x) {
        1int
    } else {
        0int
    }) + p.pond@.to_multiset().count(x)
}

/// How often `x` is with the players `ps`.
pub open spec fn held_count(ps: Seq<Player>, x: Card) -> int
    decreases ps.len(),
{
    if ps.len() == 0 {
        0
    } else {
        held_count(ps.drop_last(), x) + player_count(ps.last(), x)
    }
}

impl Game {
    /// How often `x` is in the game: in the deck, on the table, with the
    /// players.
    pub open spec fn card_count(self, x: Card) -> int {
        self.deck@.to_multiset().count(x) + (if self.table@.contains(x) {
            1int
        } else {
            0int
        }) + held_count(self.players@, x)
    }

    /// Every card is in the game exactly once.
    pub open spec fn cards_conserved(self) -> bool {
        &&& self.wf()
        &&& forall|x: Card| #[trigger] self.card_count(x) == 1
    }
}

/// Changing one player changes the players' count by that player's change.
pub proof fn lemma_held_update(ps: Seq<Player>, i: int, p: Player, x: Card)
    requires
        0 <= i < ps.len(),
    ensures
        held_count(ps.update(i, p), x) == held_count(ps, x) - player_count(ps[i], x)
            + player_count(p, x),
    decreases ps.len(),
{
    let q = ps.update(i, p);
    if i == ps.len() - 1 {
        assert(q.drop_last() =~= ps.drop_last());
    } else {
        lemma_held_update(ps.drop_last(), i, p, x);
        assert(q.drop_last() =~= ps.drop_last().update(i, p));
    }
}

/// No count is negative, and the players hold each card at least as often
/// as any one of them does.
pub proof fn lemma_held_bounds(ps: Seq<Player>, i: int, x: Card)
    ensures
        held_count(ps, x) >= 0,
        0 <= i < ps.len() ==> held_count(ps, x) >= player_count(ps[i], x) >= 0,
    decreases ps.len(),
{
    if ps.len() > 0 {
        lemma_held_bounds(ps.drop_last(), i, x);
        if 0 <= i < ps.len() - 1 {
            assert(ps.drop_last()[i] == ps[i]);
        }
    }
}

/// A list of cards without repeats holds each of its cards once.
pub proof fn lemma_count_distinct(s: Seq<Card>, x: Card)
    requires
        s.no_duplicates(),
    ensures
        s.to_multiset().count(x) == (if s.contains(x) {
            1int
        } else {
            0int
        }),
{
    s.lemma_multiset_has_no_duplicates();
    assert(s.contains(x) <==> s.to_multiset().count(x) > 0);
}

/// Each card lies once in a fresh deck.
pub proof fn lemma_fresh_deck_counts(x: Card)
    ensures
        fresh_deck().to_multiset().count(x) == 1,
{
    let d = fresh_deck();
    assert forall|i: int, j: int| 0 <= i < d.len() && 0 <= j < d.len() && i != j implies d[i]
        != d[j] by {
        assert(Value::of_points(i / 4 + 1).unwrap().points() == i / 4 + 1);
        assert(Value::of_points(j / 4 + 1).unwrap().points() == j / 4 + 1);
        if i / 4 == j / 4 {
            assert(i % 4 != j % 4);
        }
    }
    let k = (x.val.points() - 1) * 4 + (match x.suit {
        Suit::Diamonds => 0int,
        Suit::Hearts => 1int,
        Suit::Spades => 2int,
        Suit::Clubs => 3int,
    });
    assert(k / 4 == x.val.points() - 1);
    assert(d[k] == x);
    assert(d.contains(x));
    lemma_count_distinct(d, x);
}

/// A new game holds every card once, all in the deck.
pub proof fn lemma_new_game_conserved(g: Game)
    requires
        g.wf(),
        g.deck@ == fresh_deck(),
        g.table@ == Set::<Card>::empty(),
        forall|k: int|
            0 <= k < g.players@.len() ==> {
                &&& (#[trigger] g.players@[k]).hand@ == Set::<Card>::empty()
                &&& g.players@[k].pond@ == Seq::<Card>::empty()
            },
    ensures
        g.cards_conserved(),
{
    assert forall|x: Card| #[trigger] g.card_count(x) == 1 by {
        lemma_fresh_deck_counts(x);
        lemma_held_empty(g.players@, x);
    }
}

proof fn lemma_held_empty(ps: Seq<Player>, x: Card)
    requires
        forall|k: int|
            0 <= k < ps.len() ==> {
                &&& (#[trigger] ps[k]).hand@ == Set::<Card>::empty()
                &&& ps[k].pond@ == Seq::<Card>::empty()
            },
    ensures
        held_count(ps, x) == 0,
    decreases ps.len(),
{
    if ps.len() > 0 {
        let q = ps.drop_last();
        assert forall|k: int| 0 <= k < q.len() implies {
            &&& (#[trigger] q[k]).hand@ == Set::<Card>::empty()
            &&& q[k].pond@ == Seq::<Card>::empty()
        } by {
            assert(q[k] == ps[k]);
        }
        lemma_held_empty(q, x);
        assert(ps.last() == ps[ps.len() - 1]);
        assert(Seq::<Card>::empty().to_multiset().count(x) == 0);
    }
}

/// In a game where every card is once, a card in a hand is not on the
/// table, and neither the deck nor the table holds a card twice.
pub proof fn lemma_conserved_apart(g: Game, k: int, x: Card)
    requires
        g.cards_conserved(),
    ensures
        0 <= k < g.players@.len() && g.players@[k].hand@.contains(x) ==> !g.table@.contains(x)
            && g.deck@.to_multiset().count(x) == 0,
        g.table@.contains(x) ==> g.deck@.to_multiset().count(x) == 0,
        g.deck@.to_multiset().count(x) <= 1,
        g.deck@.no_duplicates(),
{
    assert(g.card_count(x) == 1);
    lemma_held_bounds(g.players@, k, x);
    assert forall|i: int, j: int|
        0 <= i < g.deck@.len() && 0 <= j < g.deck@.len() && i != j implies g.deck@[i]
        != g.deck@[j] by {
        if g.deck@[i] == g.deck@[j] {
            let y = g.deck@[i];
            assert(g.card_count(y) == 1);
            lemma_held_bounds(g.players@, 0, y);
            let lo = if i < j { i } else { j };
            let hi = if i < j { j } else { i };
            let s = g.deck@.remove(hi);
            assert(s.to_multiset() == g.deck@.to_multiset().remove(y));
            assert(s[lo] == y);
            assert(s.contains(y));
            assert(s.to_multiset().count(y) > 0);
            assert(g.deck@.to_multiset().count(y) >= 2) by {
                broadcast use vstd::multiset::group_multiset_axioms;

            }
        }
    }
}

/// Moving the top card of the deck onto the table keeps every card once.
pub proof fn lemma_deck_to_table(g0: Game, g1: Game)
    requires
        g0.cards_conserved(),
        g1.wf(),
        g0.deck@.len() > 0,
        g1.deck@ == g0.deck@.drop_last(),
        g1.table@ == g0.table@.insert(g0.deck@.last()),
        g1.players@ == g0.players@,
    ensures
        g1.cards_conserved(),
{
    let c = g0.deck@.last();
    assert(g0.deck@ == g1.deck@.push(c));
    assert forall|x: Card| #[trigger] g1.card_count(x) == 1 by {
        assert(g0.card_count(x) == 1);
        lemma_conserved_apart(g0, 0, c);
        assert(g0.deck@.to_multiset().count(c) > 0) by {
            assert(g0.deck@.contains(c)) by {
                assert(g0.deck@[g0.deck@.len() - 1] == c);
            }
        }
        broadcast use vstd::multiset::group_multiset_axioms;

    }
}

/// Dealing the top card of the deck to player `j` keeps every card once.
pub proof fn lemma_deck_to_hand(g0: Game, g1: Game, j: int, p: Player)
    requires
        g0.cards_conserved(),
        g1.wf(),
        0 <= j < g0.players@.len(),
        g0.deck@.len() > 0,
        g1.deck@ == g0.deck@.drop_last(),
        g1.table@ == g0.table@,
        g1.players@ == g0.players@.update(j, p),
        p.hand@ == g0.players@[j].hand@.insert(g0.deck@.last()),
        p.pond@ == g0.players@[j].pond@,
    ensures
        g1.cards_conserved(),
{
    let c = g0.deck@.last();
    assert(g0.deck@ == g1.deck@.push(c));
    assert forall|x: Card| #[trigger] g1.card_count(x) == 1 by {
        assert(g0.card_count(x) == 1);
        lemma_held_update(g0.players@, j, p, x);
        lemma_held_bounds(g0.players@, j, c);
        assert(g0.card_count(c) == 1);
        assert(g0.deck@.to_multiset().count(c) > 0) by {
            assert(g0.deck@.contains(c)) by {
                assert(g0.deck@[g0.deck@.len() - 1] == c);
            }
        }
        assert(!g0.players@[j].hand@.contains(c));
        broadcast use vstd::multiset::group_multiset_axioms;

    }
}

/// Two games that hold each card equally often: where the first holds every
/// card once, so does the second (when it is well formed).
pub proof fn lemma_counts_kept(g0: Game, g1: Game)
    requires
        g1.wf(),
        forall|x: Card| #[trigger] g1.card_count(x) == g0.card_count(x),
    ensures
        g0.cards_conserved() ==> g1.cards_conserved(),
{
    if g0.cards_conserved() {
        assert forall|x: Card| #[trigger] g1.card_count(x) == 1 by {
            assert(g0.card_count(x) == 1);
        }
    }
}

/// Putting a card of the current hand down on the table, where it was not,
/// creates, loses and duplicates no card: each card is in the game as often
/// as before.
pub proof fn lemma_hand_to_table(g0: Game, g1: Game, c: Card, p: Player)
    requires
        g0.turn < g0.players@.len(),
        g0.current_hand()@.contains(c),
        !g0.table@.contains(c),
        g1.deck@ == g0.deck@,
        g1.table@ == g0.table@.insert(c),
        g1.players@ == g0.players@.update(g0.turn as int, p),
        p.hand@ == g0.current_hand()@.remove(c),
        p.pond@ == g0.players@[g0.turn as int].pond@,
    ensures
        forall|x: Card| #[trigger] g1.card_count(x) == g0.card_count(x),
{
    let t = g0.turn as int;
    assert forall|x: Card| #[trigger] g1.card_count(x) == g0.card_count(x) by {
        lemma_held_update(g0.players@, t, p, x);
    }
}

/// Picking up distinct cards of the table with a card of the current hand,
/// the played card and the cards taken all going to the player's pond,
/// creates, loses and duplicates no card: each card is in the game as often
/// as before.
pub proof fn lemma_hand_table_to_pond(
    g0: Game,
    g1: Game,
    c: Card,
    picked: Seq<Card>,
    p: Player,
)
    requires
        g0.turn < g0.players@.len(),
        g0.current_hand()@.contains(c),
        picked.no_duplicates(),
        forall|i: int| 0 <= i < picked.len() ==> g0.table@.contains(#[trigger] picked[i]),
        g1.deck@ == g0.deck@,
        g1.table@ == g0.table@.difference(picked.to_set()),
        g1.players@ == g0.players@.update(g0.turn as int, p),
        p.hand@ == g0.current_hand()@.remove(c),
        p.pond@ == g0.players@[g0.turn as int].pond@.push(c) + picked,
    ensures
        forall|x: Card| #[trigger] g1.card_count(x) == g0.card_count(x),
{
    let t = g0.turn as int;
    let pond0 = g0.players@[t].pond@;
    assert forall|x: Card| #[trigger] g1.card_count(x) == g0.card_count(x) by {
        broadcast use vstd::multiset::group_multiset_axioms;

        lemma_held_update(g0.players@, t, p, x);
        vstd::seq_lib::lemma_multiset_commutative(pond0.push(c), picked);
        lemma_count_distinct(picked, x);
        if picked.contains(x) {
            let i = choose|i: int| 0 <= i < picked.len() && picked[i] == x;
            assert(g0.table@.contains(picked[i]));
            assert(picked.to_set().contains(x));
        } else {
            assert(!picked.to_set().contains(x));
        }
    }
}

/// Taking a card off the table into the pond of player `lp` keeps every
/// card once.
pub proof fn lemma_table_to_pond(g0: Game, g1: Game, lp: int, x0: Card, p: Player)
    requires
        g0.cards_conserved(),
        g1.wf(),
        0 <= lp < g0.players@.len(),
        g0.table@.contains(x0),
        g1.deck@ == g0.deck@,
        g1.table@ == g0.table@.remove(x0),
        g1.players@ == g0.players@.update(lp, p),
        p.hand@ == g0.players@[lp].hand@,
        p.pond@ == g0.players@[lp].pond@.push(x0),
    ensures
        g1.cards_conserved(),
{
    assert forall|x: Card| #[trigger] g1.card_count(x) == 1 by {
        broadcast use vstd::multiset::group_multiset_axioms;

        assert(g0.card_count(x) == 1);
        lemma_held_update(g0.players@, lp, p, x);
    }
}

/// Changes that leave the deck, the table, every hand and every pond as
/// they were keep how often each card is in the game, and so keep every
/// card once.
pub proof fn lemma_same_places(g0: Game, g1: Game)
    requires
        g1.wf(),
        g1.deck@ == g0.deck@,
        g1.table@ == g0.table@,
        g1.players@.len() == g0.players@.len(),
        forall|k: int|
            0 <= k < g0.players@.len() ==> {
                &&& (#[trigger] g1.players@[k]).hand@ == g0.players@[k].hand@
                &&& g1.players@[k].pond@ == g0.players@[k].pond@
            },
    ensures
        forall|x: Card| #[trigger] g1.card_count(x) == g0.card_count(x),
        g0.cards_conserved() ==> g1.cards_conserved(),
{
    assert forall|x: Card| #[trigger] g1.card_count(x) == g0.card_count(x) by {
        lemma_held_same(g0.players@, g1.players@, x);
    }
    lemma_counts_kept(g0, g1);
}

proof fn lemma_held_same(a: Seq<Player>, b: Seq<Player>, x: Card)
    requires
        a.len() == b.len(),
        forall|k: int|
            0 <= k < a.len() ==> {
                &&& (#[trigger] b[k]).hand@ == a[k].hand@
                &&& b[k].pond@ == a[k].pond@
            },
    ensures
        held_count(a, x) == held_count(b, x),
    decreases a.len(),
{
    if a.len() > 0 {
        let a2 = a.drop_last();
        let b2 = b.drop_last();
        assert forall|k: int| 0 <= k < a2.len() implies {
            &&& (#[trigger] b2[k]).hand@ == a2[k].hand@
            &&& b2[k].pond@ == a2[k].pond@
        } by {
            assert(a2[k] == a[k]);
            assert(b2[k] == b[k]);
        }
        lemma_held_same(a2, b2, x);
        assert(b[b.len() - 1] == b.last());
        assert(a[a.len() - 1] == a.last());
    }
}

/// A reordering of the deck keeps every card once.
pub proof fn lemma_deck_reordered(g0: Game, g1: Game)
    requires
        g0.cards_conserved(),
        g1.wf(),
        g1.deck@.to_multiset() == g0.deck@.to_multiset(),
        g1.table@ == g0.table@,
        g1.players@ == g0.players@,
    ensures
        g1.cards_conserved(),
{
    assert forall|x: Card| #[trigger] g1.card_count(x) == 1 by {
        assert(g0.card_count(x) == 1);
    }
}


/// How often `x` is in the ponds of the players `ps`.
pub open spec fn pond_count(ps: Seq<Player>, x: Card) -> int
    decreases ps.len(),
{
    if ps.len() == 0 {
        0
    } else {
        pond_count(ps.drop_last(), x) + ps.last().pond@.to_multiset().count(x)
    }
}

proof fn lemma_held_is_ponds(ps: Seq<Player>, x: Card)
    requires
        forall|k: int| 0 <= k < ps.len() ==> (#[trigger] ps[k]).hand@.len() == 0 && ps[k].hand.wf(),
    ensures
        held_count(ps, x) == pond_count(ps, x),
    decreases ps.len(),
{
    if ps.len() > 0 {
        let q = ps.drop_last();
        assert forall|k: int| 0 <= k < q.len() implies (#[trigger] q[k]).hand@.len() == 0
            && q[k].hand.wf() by {
            assert(q[k] == ps[k]);
        }
        lemma_held_is_ponds(q, x);
        let last = ps[ps.len() - 1];
        assert(last == ps.last());
        last.hand.lemma_distinct();
        if last.hand@.contains(x) {
            assert(last.hand@.remove(x).len() < last.hand@.len());
        }
    }
}

/// When the deck, the table and every hand are empty, each card lies in
/// exactly one pond: the cards are all shared out among the players.
pub proof fn lemma_finished_game_ponds(g: Game, x: Card)
    requires
        g.cards_conserved(),
        g.deck@.len() == 0,
        g.table@ == Set::<Card>::empty(),
        g.hands_empty(),
    ensures
        pond_count(g.players@, x) == 1,
{
    assert(g.card_count(x) == 1);
    assert(g.deck@ =~= Seq::<Card>::empty());
    assert forall|k: int| 0 <= k < g.players@.len() implies (#[trigger] g.players@[k]).hand@.len()
        == 0 && g.players@[k].hand.wf() by {
        assert(g.players@[k].wf());
    }
    lemma_held_is_ponds(g.players@, x);
}

} // verus!
