//! The moves open to the player whose turn it is.

use vstd::prelude::*;

use crate::card::{Card, Value};
use crate::card_set::copy_cards;
use crate::game::Game;
use crate::moves::Move;
use crate::encoding::{decoded, lemma_unpack_or_pack, or_pack, unpack, valid_pack};
use crate::turns::lemma_hand_lens;
use crate::sort::{is_sorted, lemma_permutation_keeps_cards, lemma_sorted_cards, sort_cards, sorted_cards};

verus! {

/// The sum of the points of the cards of `s`.
pub open spec fn points_of(s: Seq<Card>) -> int
    decreases s.len(),
{
    if s.len() == 0 {
        0
    } else {
        s[0].val.points() + points_of(s.drop_first())
    }
}

/// The ways of picking cards of `t`, in the order they come in `t`, whose
/// points add up to `r`, as the depth-first search of the move generator
/// finds them: with the first card before without it, and giving up at the
/// first card worth more than what is left.
pub open spec fn picks(t: Seq<Card>, r: int) -> Seq<Seq<Card>>
    decreases t.len(),
{
    if t.len() == 0 {
        Seq::empty()
    } else {
        let first = t[0];
        let v = first.val.points();
        let rest = t.drop_first();
        if v > r {
            Seq::empty()
        } else {
            (if v == r {
                seq![seq![first]]
            } else {
                Seq::empty()
            }) + picks(rest, r - v).map_values(|s: Seq<Card>| seq![first] + s) + picks(rest, r)
        }
    }
}

/// The contents of a list of card lists.
pub open spec fn views(v: Seq<Vec<Card>>) -> Seq<Seq<Card>> {
    v.map_values(|x: Vec<Card>| x@)
}

/// The fewest cards that any of the ways `ps` takes (at most 100).
pub open spec fn min_len(ps: Seq<Seq<Card>>) -> int
    decreases ps.len(),
{
    if ps.len() == 0 {
        100
    } else {
        let m = min_len(ps.drop_last());
        if ps.last().len() < m {
            ps.last().len() as int
        } else {
            m
        }
    }
}

/// The ways of `ps` that take exactly `m` cards, in order.
pub open spec fn with_len(ps: Seq<Seq<Card>>, m: int) -> Seq<Seq<Card>>
    decreases ps.len(),
{
    if ps.len() == 0 {
        Seq::empty()
    } else if ps.last().len() == m {
        with_len(ps.drop_last(), m).push(ps.last())
    } else {
        with_len(ps.drop_last(), m)
    }
}

/// The moves open to a player holding `card`, with the cards `t` on the
/// table (ordered by value, then suit): with sweeping aces, an ace takes the
/// whole table; on an empty table the card goes down; otherwise the card
/// picks up one of the ways of taking cards worth as much as it with the
/// fewest cards, or goes down when there is none.
pub open spec fn moves_for(card: Card, t: Seq<Card>, sweeps: bool) -> Seq<Move> {
    if sweeps && card.val == Value::One {
        seq![Move::up_of(card, t)]
    } else if t.len() == 0 {
        seq![Move::Down(card)]
    } else {
        let ps = picks(t, card.val.points());
        if ps.len() == 0 {
            seq![Move::Down(card)]
        } else {
            with_len(ps, min_len(ps)).map_values(|s: Seq<Card>| Move::up_of(card, s))
        }
    }
}

/// The moves open to a player holding the cards `hs`, card by card in
/// the order of `hs`.
pub open spec fn moves_for_hand(hs: Seq<Card>, t: Seq<Card>, sweeps: bool) -> Seq<Move>
    decreases hs.len(),
{
    if hs.len() == 0 {
        Seq::empty()
    } else {
        moves_for_hand(hs.drop_last(), t, sweeps) + moves_for(hs.last(), t, sweeps)
    }
}

/// Each way found takes cards worth exactly `r`, so no more than `r` cards.
pub proof fn lemma_picks_sum(t: Seq<Card>, r: int)
    ensures
        forall|i: int|
            0 <= i < picks(t, r).len() ==> {
                &&& points_of(#[trigger] picks(t, r)[i]) == r
                &&& picks(t, r)[i].len() <= r
            },
    decreases t.len(),
{
    if t.len() > 0 {
        let first = t[0];
        let v = first.val.points();
        let rest = t.drop_first();
        if v <= r {
            lemma_picks_sum(rest, r - v);
            lemma_picks_sum(rest, r);
            let a: Seq<Seq<Card>> = if v == r {
                seq![seq![first]]
            } else {
                Seq::empty()
            };
            let b = picks(rest, r - v).map_values(|s: Seq<Card>| seq![first] + s);
            let c = picks(rest, r);
            assert(picks(t, r) == a + b + c);
            assert forall|i: int| 0 <= i < picks(t, r).len() implies {
                &&& points_of(#[trigger] picks(t, r)[i]) == r
                &&& picks(t, r)[i].len() <= r
            } by {
                if i < a.len() {
                    assert(points_of(seq![first].drop_first()) == 0);
                } else if i < a.len() + b.len() {
                    let s = picks(rest, r - v)[i - a.len()];
                    assert(picks(t, r)[i] == seq![first] + s);
                    assert((seq![first] + s).drop_first() =~= s);
                } else {
                    assert(picks(t, r)[i] == c[i - a.len() - b.len()]);
                }
            }
        }
    }
}

proof fn lemma_min_len_bounds(ps: Seq<Seq<Card>>)
    ensures
        min_len(ps) <= 100,
        forall|i: int| 0 <= i < ps.len() ==> min_len(ps) <= (#[trigger] ps[i]).len(),
        ps.len() > 0 && ps[0].len() <= 100 ==> exists|i: int|
            0 <= i < ps.len() && (#[trigger] ps[i]).len() == min_len(ps),
    decreases ps.len(),
{
    if ps.len() > 0 {
        let q = ps.drop_last();
        lemma_min_len_bounds(q);
        assert forall|i: int| 0 <= i < ps.len() implies min_len(ps) <= (#[trigger] ps[i]).len() by {
            if i < q.len() {
                assert(ps[i] == q[i]);
            }
        }
        if ps[0].len() <= 100 {
            if q.len() > 0 {
                assert(q[0] == ps[0]);
                let i = choose|i: int| 0 <= i < q.len() && (#[trigger] q[i]).len() == min_len(q);
                assert(ps[i] == q[i]);
            }
        }
    }
}

impl Game {
    /// Adds to `moves` each way of picking cards from `table[index..]` worth
    /// `target`'s value less `total`, each after the cards in
    /// `current_cards` (see `picks`); nothing when `total` is already above
    /// that value.
    #[verifier::rlimit(40)]
    fn recursive_move_helper(
        &self,
        index: usize,
        target: Card,
        table: &Vec<Card>,
        moves: &mut Vec<Vec<Card>>,
        total: usize,
        current_cards: &mut Vec<Card>,
    )
        requires
            index <= table.len(),
            index < table.len() ==> total + table@[index as int].val.points() <= usize::MAX,
        ensures
            views(final(moves)@) == views(old(moves)@) + picks(
                table@.skip(index as int),
                target.val.points() - total,
            ).map_values(|s: Seq<Card>| old(current_cards)@ + s),
            final(current_cards)@ == old(current_cards)@,
        decreases table.len() - index,
    {
        let ghost t = table@.skip(index as int);
        let ghost r = target.val.points() - total;
        let ghost cur = current_cards@;
        let ghost m0 = moves@;
        if index >= table.len() {
            assert(t =~= Seq::<Card>::empty());
            assert(views(moves@) =~= views(m0) + picks(t, r).map_values(
                |s: Seq<Card>| cur + s,
            ));
            return ;
        }
        let target_value = target.val.number() as usize;
        let card = table[index];
        let new_total = total + card.val.number() as usize;
        assert(t[0] == card);
        let ghost rest = t.drop_first();
        assert(rest =~= table@.skip(index + 1));
        if new_total > target_value {
            assert(views(moves@) =~= views(m0) + picks(t, r).map_values(
                |s: Seq<Card>| cur + s,
            ));
            return ;
        }
        current_cards.push(card);
        let ghost a: Seq<Seq<Card>> = if new_total == target_value {
            seq![seq![card]]
        } else {
            Seq::empty()
        };
        if target_value == new_total {
            let copy = copy_cards(current_cards);
            moves.push(copy);
        }
        let ghost m1 = moves@;
        proof {
            if new_total == target_value {
                assert(cur + seq![card] =~= cur.push(card));
                assert(m1 == m0.push(m1.last()));
                assert(views(m1) =~= views(m0).push(cur.push(card)));
            } else {
                assert(m1 == m0);
            }
            assert(views(m1) =~= views(m0) + a.map_values(|s: Seq<Card>| cur + s));
        }
        self.recursive_move_helper(index + 1, target, table, moves, new_total, current_cards);
        let ghost m2 = moves@;
        let ghost b = picks(rest, r - card.val.points());
        assert(views(m2) == views(m1) + b.map_values(|s: Seq<Card>| cur.push(card) + s));
        current_cards.pop();
        assert(current_cards@ =~= cur);
        self.recursive_move_helper(index + 1, target, table, moves, total, current_cards);
        let ghost c = picks(rest, r);
        proof {
            assert(picks(t, r) == a + b.map_values(|s: Seq<Card>| seq![card] + s) + c);
            let f = |s: Seq<Card>| cur + s;
            assert(b.map_values(|s: Seq<Card>| cur.push(card) + s) =~= b.map_values(
                |s: Seq<Card>| seq![card] + s,
            ).map_values(f)) by {
                assert forall|i: int| 0 <= i < b.len() implies cur.push(card) + b[i] == cur + (
                seq![card] + b[i]) by {
                    assert(cur.push(card) + b[i] =~= cur + (seq![card] + b[i]));
                }
            }
            assert((a + b.map_values(|s: Seq<Card>| seq![card] + s) + c).map_values(f) =~= a.map_values(
                f,
            ) + b.map_values(|s: Seq<Card>| seq![card] + s).map_values(f) + c.map_values(f));
            assert(views(moves@) =~= views(m0) + picks(t, r).map_values(f));
        }
    }

    /// The moves open to the player whose turn it is, card by card in the
    /// order in which the hand is walked (see `moves_for`).
    pub fn generate_moves(&self) -> (r: Vec<Move>)
        requires
            self.wf(),
            self.turn < self.players@.len(),
            self.ace_sweeps && (exists|c: Card|
                self.current_hand()@.contains(c) && c.val == Value::One) ==> self.table@.len()
                <= 21,
        ensures
            r@ == moves_for_hand(
                self.current_hand().seq(),
                sorted_cards(self.table.seq()),
                self.ace_sweeps,
            ),
    {
        let mut table_cards = self.table.to_vec();
        sort_cards(&mut table_cards);
        proof {
            lemma_sorted_cards(self.table.seq());
            self.table.lemma_distinct();
        }
        let ghost t = sorted_cards(self.table.seq());
        assert(self.players@[self.turn as int].wf());
        let hand = self.players[self.turn].hand.to_vec();
        let ghost hs = hand@;
        let mut moves: Vec<Move> = Vec::new();
        let mut i: usize = 0;
        while i < hand.len()
            invariant
                i <= hand.len(),
                self.wf(),
                hand@ == self.current_hand().seq(),
                table_cards@ == t,
                t.len() == self.table@.len(),
                self.ace_sweeps && (exists|c: Card|
                    self.current_hand()@.contains(c) && c.val == Value::One) ==> self.table@.len()
                    <= 21,
                moves@ == moves_for_hand(hand@.take(i as int), t, self.ace_sweeps),
            decreases hand.len() - i,
        {
            let card = hand[i];
            let ghost before = moves@;
            proof {
                assert(hand@.take(i + 1).drop_last() =~= hand@.take(i as int));
                assert(self.current_hand()@.contains(card)) by {
                    assert(self.current_hand().seq()[i as int] == card);
                }
            }
            if self.ace_sweeps && card.val == Value::One {
                let all = copy_cards(&table_cards);
                moves.push(Move::new_up(card, all));
                assert(moves@ =~= before + moves_for(card, t, self.ace_sweeps));
            } else if self.table.len() == 0 {
                moves.push(Move::Down(card));
                assert(moves@ =~= before + moves_for(card, t, self.ace_sweeps));
            } else {
                let mut mvs: Vec<Vec<Card>> = Vec::new();
                let mut current_cards: Vec<Card> = Vec::new();
                self.recursive_move_helper(0, card, &table_cards, &mut mvs, 0, &mut current_cards);
                let ghost ps = picks(t, card.val.points());
                proof {
                    assert(table_cards@.skip(0) =~= t);
                    assert(views(mvs@) =~= ps) by {
                        assert forall|k: int| 0 <= k < ps.len() implies Seq::<Card>::empty() + ps[k] == ps[k] by {
                            assert(Seq::<Card>::empty() + ps[k] =~= ps[k]);
                        }
                    }
                    lemma_picks_sum(t, card.val.points());
                }
                if mvs.len() > 0 {
                    let mut min_moves: usize = 100;
                    let mut j: usize = 0;
                    while j < mvs.len()
                        invariant
                            j <= mvs.len(),
                            views(mvs@) == ps,
                            min_moves == min_len(ps.take(j as int)),
                        decreases mvs.len() - j,
                    {
                        proof {
                            assert(ps.take(j + 1).drop_last() =~= ps.take(j as int));
                        }
                        if mvs[j].len() < min_moves {
                            min_moves = mvs[j].len();
                        }
                        j = j + 1;
                    }
                    proof {
                        assert(ps.take(j as int) =~= ps);
                    }
                    let mut j: usize = 0;
                    let ghost start = moves@;
                    while j < mvs.len()
                        invariant
                            j <= mvs.len(),
                            views(mvs@) == ps,
                            min_moves == min_len(ps),
                            forall|k: int| 0 <= k < ps.len() ==> (#[trigger] ps[k]).len() <= 10,
                            moves@ == start + with_len(ps.take(j as int), min_moves as int).map_values(
                                |s: Seq<Card>| Move::up_of(card, s),
                            ),
                        decreases mvs.len() - j,
                    {
                        proof {
                            assert(ps.take(j + 1).drop_last() =~= ps.take(j as int));
                            assert(ps[j as int] == mvs@[j as int]@);
                        }
                        if mvs[j].len() == min_moves {
                            let pick = copy_cards(&mvs[j]);
                            moves.push(Move::new_up(card, pick));
                        }
                        proof {
                            let f = |s: Seq<Card>| Move::up_of(card, s);
                            assert(moves@ =~= start + with_len(ps.take(j + 1), min_moves as int).map_values(f));
                        }
                        j = j + 1;
                    }
                    proof {
                        assert(ps.take(j as int) =~= ps);
                    }
                    assert(moves@ =~= before + moves_for(card, t, self.ace_sweeps));
                } else {
                    moves.push(Move::Down(card));
                    assert(moves@ =~= before + moves_for(card, t, self.ace_sweeps));
                }
            }
            i = i + 1;
        }
        proof {
            assert(hand@.take(i as int) =~= hand@);
        }
        moves
    }
}


/// Each way found takes at least one card, never the same card twice, and
/// only cards of `t` (when `t` holds no card twice).
pub proof fn lemma_picks_from(t: Seq<Card>, r: int)
    requires
        t.no_duplicates(),
    ensures
        forall|i: int|
            0 <= i < picks(t, r).len() ==> {
                &&& (#[trigger] picks(t, r)[i]).no_duplicates()
                &&& picks(t, r)[i].len() >= 1
                &&& forall|x: Card| picks(t, r)[i].contains(x) ==> t.contains(x)
            },
    decreases t.len(),
{
    if t.len() > 0 {
        let first = t[0];
        let v = first.val.points();
        let rest = t.drop_first();
        assert forall|x: Card| rest.contains(x) implies t.contains(x) && x != first by {
            let k = choose|k: int| 0 <= k < rest.len() && rest[k] == x;
            assert(t[k + 1] == x);
        }
        if v <= r {
            lemma_picks_from(rest, r - v);
            lemma_picks_from(rest, r);
            let a: Seq<Seq<Card>> = if v == r {
                seq![seq![first]]
            } else {
                Seq::empty()
            };
            let b = picks(rest, r - v).map_values(|s: Seq<Card>| seq![first] + s);
            let c = picks(rest, r);
            assert(picks(t, r) == a + b + c);
            assert forall|i: int| 0 <= i < picks(t, r).len() implies {
                &&& (#[trigger] picks(t, r)[i]).no_duplicates()
                &&& picks(t, r)[i].len() >= 1
                &&& forall|x: Card| picks(t, r)[i].contains(x) ==> t.contains(x)
            } by {
                let p = picks(t, r)[i];
                if i < a.len() {
                    assert(p == seq![first]);
                    assert forall|x: Card| p.contains(x) implies t.contains(x) by {
                        assert(p[0] == x);
                        assert(t[0] == x);
                    }
                } else if i < a.len() + b.len() {
                    let s = picks(rest, r - v)[i - a.len()];
                    assert(p == seq![first] + s);
                    assert forall|x: Card| p.contains(x) implies t.contains(x) by {
                        let k = choose|k: int| 0 <= k < p.len() && p[k] == x;
                        if k == 0 {
                            assert(t[0] == x);
                        } else {
                            assert(s[k - 1] == x);
                            assert(s.contains(x));
                        }
                    }
                    assert forall|m: int, n: int| 0 <= m < n < p.len() implies p[m] != p[n] by {
                        assert(s.no_duplicates());
                        assert(s[n - 1] == p[n]);
                        assert(s.contains(p[n]));
                        assert(rest.contains(p[n]));
                        if m == 0 {
                            assert(p[m] == first);
                            assert(p[n] != first);
                        } else {
                            assert(s[m - 1] == p[m]);
                        }
                    }
                } else {
                    assert(p == c[i - a.len() - b.len()]);
                }
            }
        }
    }
}

/// The ways that take exactly `m` cards are among the ways given.
proof fn lemma_with_len_member(ps: Seq<Seq<Card>>, m: int, k: int)
    requires
        0 <= k < with_len(ps, m).len(),
    ensures
        exists|i: int| 0 <= i < ps.len() && ps[i] == #[trigger] with_len(ps, m)[k],
    decreases ps.len(),
{
    let q = ps.drop_last();
    if ps.last().len() == m {
        if k < with_len(q, m).len() {
            lemma_with_len_member(q, m, k);
            let i = choose|i: int| 0 <= i < q.len() && q[i] == with_len(q, m)[k];
            assert(ps[i] == q[i]);
        } else {
            assert(ps[ps.len() - 1] == with_len(ps, m)[k]);
        }
    } else {
        lemma_with_len_member(q, m, k);
        let i = choose|i: int| 0 <= i < q.len() && q[i] == with_len(q, m)[k];
        assert(ps[i] == q[i]);
    }
}

/// A move offered for a hand is offered for one of its cards.
proof fn lemma_moves_for_hand_member(hs: Seq<Card>, t: Seq<Card>, sweeps: bool, mv: Move)
    requires
        moves_for_hand(hs, t, sweeps).contains(mv),
    ensures
        exists|i: int| 0 <= i < hs.len() && moves_for(#[trigger] hs[i], t, sweeps).contains(mv),
    decreases hs.len(),
{
    let q = hs.drop_last();
    let a = moves_for_hand(q, t, sweeps);
    let b = moves_for(hs.last(), t, sweeps);
    let k = choose|k: int| 0 <= k < (a + b).len() && (a + b)[k] == mv;
    if k < a.len() {
        assert(a[k] == mv);
        lemma_moves_for_hand_member(q, t, sweeps, mv);
        let i = choose|i: int| 0 <= i < q.len() && moves_for(#[trigger] q[i], t, sweeps).contains(mv);
        assert(hs[i] == q[i]);
    } else {
        assert(b[k - a.len()] == mv);
        assert(hs[hs.len() - 1] == hs.last());
    }
}

/// A pick-up of distinct cards that all lie on the table, packed as
/// `Move::new_up` packs them, reads back as those cards in order.
proof fn lemma_up_playable(card: Card, s: Seq<Card>, table: Set<Card>)
    requires
        s.len() <= 21,
        s.no_duplicates(),
        forall|x: Card| s.contains(x) ==> table.contains(x),
    ensures
        valid_pack(Move::up_of(card, s)->Up_1),
        decoded(Move::up_of(card, s)->Up_1, 0) == sorted_cards(s),
        decoded(Move::up_of(card, s)->Up_1, 0).no_duplicates(),
        forall|i: int|
            0 <= i < decoded(Move::up_of(card, s)->Up_1, 0).len() ==> table.contains(
                #[trigger] decoded(Move::up_of(card, s)->Up_1, 0)[i],
            ),
{
    let st = sorted_cards(s);
    lemma_sorted_cards(s);
    lemma_permutation_keeps_cards(s, st);
    lemma_unpack_or_pack(st);
    let x = or_pack(st);
    assert(unpack(0) == Seq::<Card>::empty());
    if x != 0 {
        assert(decoded(x, 0) =~= st);
    } else {
        assert(st.len() == 0);
        assert(decoded(x, 0) =~= st);
    }
    assert forall|i: int| 0 <= i < st.len() implies table.contains(#[trigger] st[i]) by {
        assert(st.contains(st[i]));
        assert(s.contains(st[i]));
    }
}

/// A card of `t` alone is a choice of cards of `t`.
proof fn lemma_single_subseq(x: Card, t: Seq<Card>)
    requires
        t.contains(x),
    ensures
        is_subseq(seq![x], t),
    decreases t.len(),
{
    let s = seq![x];
    assert(s.len() == 1 && s[0] == x);
    if t[0] == x {
        assert(s.drop_first() =~= Seq::<Card>::empty());
        assert(is_subseq(s.drop_first(), t.drop_first()));
    } else {
        let k = choose|k: int| 0 <= k < t.len() && t[k] == x;
        assert(t.drop_first()[k - 1] == x);
        lemma_single_subseq(x, t.drop_first());
        assert(is_subseq(s, t.drop_first()));
    }
}

/// Every move that `generate_moves` offers can be played: the card played
/// is in the hand, a card put down is not on the table, and the cards
/// picked up are distinct cards of the table.
pub proof fn lemma_generated_moves_playable(g: Game, mv: Move)
    requires
        g.wf(),
        g.turn < g.players@.len(),
        g.ace_sweeps && (exists|c: Card| g.current_hand()@.contains(c) && c.val == Value::One)
            ==> g.table@.len() <= 21,
        moves_for_hand(g.current_hand().seq(), sorted_cards(g.table.seq()), g.ace_sweeps).contains(
            mv,
        ),
    ensures
        g.can_play(mv),
{
    let hs = g.current_hand().seq();
    let tseq = g.table.seq();
    let t = sorted_cards(tseq);
    g.table.lemma_distinct();
    assert(g.players@[g.turn as int].wf());
    g.current_hand().lemma_distinct();
    lemma_sorted_cards(tseq);
    lemma_permutation_keeps_cards(tseq, t);
    lemma_moves_for_hand_member(hs, t, g.ace_sweeps, mv);
    let i = choose|i: int| 0 <= i < hs.len() && moves_for(#[trigger] hs[i], t, g.ace_sweeps).contains(mv);
    let card = hs[i];
    assert(hs.contains(card));
    assert(g.current_hand()@.contains(card));
    let ms = moves_for(card, t, g.ace_sweeps);
    let k = choose|k: int| 0 <= k < ms.len() && ms[k] == mv;
    if g.ace_sweeps && card.val == Value::One {
        assert(mv == Move::up_of(card, t));
        assert forall|x: Card| t.contains(x) implies g.table@.contains(x) by {
            assert(tseq.contains(x));
        }
        lemma_up_playable(card, t, g.table@);
    } else if t.len() == 0 {
        assert(mv == Move::Down(card));
    } else {
        let ps = picks(t, card.val.points());
        if ps.len() == 0 {
            assert(mv == Move::Down(card));
            if g.table@.contains(card) {
                assert(t.contains(card)) by {
                    assert(tseq.contains(card));
                }
                lemma_single_subseq(card, t);
                assert(points_of(seq![card].drop_first()) == 0);
                lemma_picks_complete(t, card.val.points(), seq![card]);
            }
        } else {
            let w = with_len(ps, min_len(ps));
            assert(mv == Move::up_of(card, w[k]));
            lemma_with_len_member(ps, min_len(ps), k);
            let j = choose|j: int| 0 <= j < ps.len() && ps[j] == #[trigger] w[k];
            lemma_picks_from(t, card.val.points());
            lemma_picks_sum(t, card.val.points());
            let s = ps[j];
            assert(s.no_duplicates());
            assert forall|x: Card| s.contains(x) implies g.table@.contains(x) by {
                assert(t.contains(x));
                assert(tseq.contains(x));
            }
            lemma_up_playable(card, s, g.table@);
        }
    }
}


/// Every move offered for `card` plays `card`.
proof fn lemma_moves_for_play(card: Card, t: Seq<Card>, sweeps: bool, mv: Move)
    requires
        moves_for(card, t, sweeps).contains(mv),
    ensures
        mv.played() == card,
{
    let ms = moves_for(card, t, sweeps);
    let k = choose|k: int| 0 <= k < ms.len() && ms[k] == mv;
    if !(sweeps && card.val == Value::One) && t.len() > 0 {
        let ps = picks(t, card.val.points());
        if ps.len() > 0 {
            let w = with_len(ps, min_len(ps));
            assert(mv == Move::up_of(card, w[k]));
        }
    }
}

/// The moves offered for each card of a hand are among the hand's moves.
proof fn lemma_moves_for_hand_includes(hs: Seq<Card>, t: Seq<Card>, sweeps: bool, i: int, mv: Move)
    requires
        0 <= i < hs.len(),
        moves_for(hs[i], t, sweeps).contains(mv),
    ensures
        moves_for_hand(hs, t, sweeps).contains(mv),
    decreases hs.len(),
{
    let q = hs.drop_last();
    let a = moves_for_hand(q, t, sweeps);
    let b = moves_for(hs.last(), t, sweeps);
    assert(moves_for_hand(hs, t, sweeps) == a + b);
    if i < hs.len() - 1 {
        assert(q[i] == hs[i]);
        lemma_moves_for_hand_includes(q, t, sweeps, i, mv);
        let k = choose|k: int| 0 <= k < a.len() && a[k] == mv;
        assert((a + b)[k] == mv);
    } else {
        assert(hs[i] == hs.last());
        let k = choose|k: int| 0 <= k < b.len() && b[k] == mv;
        assert((a + b)[a.len() + k] == mv);
    }
}

/// With sweeping aces an ace is never put down, not even on an empty
/// table: every move offered for an ace picks up the whole table, and every
/// ace in the hand is offered that move.
pub proof fn lemma_aces_sweep(g: Game, c: Card)
    requires
        g.ace_sweeps,
        c.val == Value::One,
    ensures
        forall|mv: Move|
            g.legal_moves().contains(mv) && mv.played() == c ==> mv == Move::up_of(
                c,
                sorted_cards(g.table.seq()),
            ),
        g.current_hand().seq().contains(c) ==> g.legal_moves().contains(
            Move::up_of(c, sorted_cards(g.table.seq())),
        ),
{
    let hs = g.current_hand().seq();
    let t = sorted_cards(g.table.seq());
    assert forall|mv: Move| g.legal_moves().contains(mv) && mv.played() == c implies mv
        == Move::up_of(c, t) by {
        lemma_moves_for_hand_member(hs, t, g.ace_sweeps, mv);
        let i = choose|i: int| 0 <= i < hs.len() && moves_for(#[trigger] hs[i], t, g.ace_sweeps).contains(mv);
        lemma_moves_for_play(hs[i], t, g.ace_sweeps, mv);
        assert(hs[i] == c);
        let ms = moves_for(c, t, g.ace_sweeps);
        let k = choose|k: int| 0 <= k < ms.len() && ms[k] == mv;
    }
    if hs.contains(c) {
        let i = choose|i: int| 0 <= i < hs.len() && hs[i] == c;
        assert(moves_for(c, t, g.ace_sweeps)[0] == Move::up_of(c, t));
        lemma_moves_for_hand_includes(hs, t, g.ace_sweeps, i, Move::up_of(c, t));
    }
}

/// Whether `mv` is among `mvs`.
fn contains_move(mvs: &Vec<Move>, mv: &Move) -> (r: bool)
    ensures
        r == mvs@.contains(*mv),
{
    let mut i: usize = 0;
    while i < mvs.len()
        invariant
            i <= mvs.len(),
            forall|k: int| 0 <= k < i ==> mvs@[k] != *mv,
        decreases mvs.len() - i,
    {
        if mv.equal(&mvs[i]) {
            return true;
        }
        i = i + 1;
    }
    false
}

impl Game {
    /// The moves open to the current player, as `generate_moves` gives them.
    pub open spec fn legal_moves(self) -> Seq<Move> {
        moves_for_hand(self.current_hand().seq(), sorted_cards(self.table.seq()), self.ace_sweeps)
    }

    /// Plays `mv` in full (see `do_full_move`) when it is one of the moves
    /// open to the current player, and says whether it was; an illegal move
    /// changes nothing.
    pub fn try_move(&mut self, mv: &Move) -> (legal: bool)
        requires
            old(self).wf(),
            old(self).turn < old(self).players@.len(),
            old(self).ace_sweeps && (exists|c: Card|
                old(self).current_hand()@.contains(c) && c.val == Value::One) ==> old(
                self).table@.len() <= 21,
            old(self).legal_moves().contains(*mv) && old(self).is_scopa(*mv) ==> old(
                self).players@[old(self).turn as int].score < u16::MAX,
        ensures
            legal == old(self).legal_moves().contains(*mv),
            old(self).history_kept() ==> final(self).history_kept(),
            forall|x: Card| #[trigger] final(self).card_count(x) == old(self).card_count(x),
            old(self).cards_conserved() ==> final(self).cards_conserved(),
            !legal ==> *final(self) == *old(self) && final(self).next_step() == old(self).next_step(),
            old(self).in_rhythm() && legal ==> {
                &&& final(self).in_rhythm()
                &&& final(self).turns_left(old(self).turn as int) == old(self).turns_left(
                    old(self).turn as int,
                ) - 1
                &&& final(self).turns_left(1 - old(self).turn) == old(self).turns_left(
                    1 - old(self).turn,
                )
            },
            legal ==> {
                &&& old(self).can_play(*mv)
                &&& final(self).wf()
                &&& final(self).players@.len() == old(self).players@.len()
                &&& forall|k: int|
                    0 <= k < old(self).players@.len() && k != old(self).turn ==> #[trigger] final(self).players@[k]
                        == old(self).players@[k]
                &&& final(self).players@[old(self).turn as int].hand@ == old(self).current_hand()@.remove(mv.played())
                &&& final(self).players@[old(self).turn as int].score == old(self).players@[old(self).turn as int].score
                    + (if old(self).is_scopa(*mv) {
                    1int
                } else {
                    0int
                })
                &&& final(self).table@ == old(self).table_after(*mv)
                &&& match *mv {
                    Move::Down(c) => {
                        &&& final(self).players@[old(self).turn as int].pond == old(self).players@[old(self).turn as int].pond
                        &&& final(self).last_pickup == old(self).last_pickup
                    },
                    Move::Up(c, _) => {
                        &&& final(self).players@[old(self).turn as int].pond@ == old(self).players@[old(self).turn as int].pond@.push(c)
                            + Game::picked(*mv)
                        &&& final(self).last_pickup == old(self).turn
                    },
                }
                &&& final(self).moves@ == old(self).moves@.push(*mv)
                &&& final(self).turn == (old(self).turn + 1) % (old(self).players@.len() as int)
                &&& final(self).deck@ == old(self).deck@
                &&& final(self).ace_sweeps == old(self).ace_sweeps
            },
    {
        let mvs = self.generate_moves();
        if !contains_move(&mvs, mv) {
            return false;
        }
        proof {
            lemma_generated_moves_playable(*self, *mv);
        }
        self.do_full_move(mv);
        proof {
            if old(self).in_rhythm() {
                let t = old(self).turn as int;
                lemma_hand_lens(*old(self));
                lemma_hand_lens(*self);
                assert(old(self).players@[t].hand@.contains(mv.played()));
                assert(old(self).players@[t].wf());
                old(self).players@[t].hand.lemma_distinct();
                assert(self.players@[t].hand@ == old(self).players@[t].hand@.remove(mv.played()));
                assert(self.players@[1 - t] == old(self).players@[1 - t]);
                assert(self.players@[t].hand@.len() == old(self).players@[t].hand@.len() - 1);
                assert(self.hand_len(t) == old(self).hand_len(t) - 1);
                assert(self.hand_len(1 - t) == old(self).hand_len(1 - t));
                assert(self.deck@ == old(self).deck@);
                assert(self.cards_conserved());
                assert(self.turn == (t + 1) % 2);
                if t == 0 {
                    assert((t + 1) % 2 == 1);
                } else {
                    assert((t + 1) % 2 == 0);
                }
                assert(self.turn == 1 - t);
                assert(self.in_rhythm());
            }
        }
        true
    }
}


/// Whether the cards of `s` can be found in `t`, in the same order.
pub open spec fn is_subseq(s: Seq<Card>, t: Seq<Card>) -> bool
    decreases t.len(),
{
    if s.len() == 0 {
        true
    } else if t.len() == 0 {
        false
    } else {
        (s[0] == t[0] && is_subseq(s.drop_first(), t.drop_first())) || is_subseq(
            s,
            t.drop_first(),
        )
    }
}

proof fn lemma_points_nonneg(s: Seq<Card>)
    ensures
        points_of(s) >= 0,
        s.len() > 0 ==> points_of(s) >= s[0].val.points(),
    decreases s.len(),
{
    if s.len() > 0 {
        lemma_points_nonneg(s.drop_first());
    }
}

/// In a list ordered by value then suit, the cards after the first are
/// worth at least as much as it.
proof fn lemma_subseq_of_sorted_worth(s: Seq<Card>, t: Seq<Card>)
    requires
        is_sorted(t),
        t.len() > 0,
        s.len() > 0,
        is_subseq(s, t.drop_first()),
    ensures
        s[0].val.points() >= t[0].val.points(),
{
    lemma_subseq_member(s, t.drop_first());
    let td = t.drop_first();
    let k = choose|k: int| 0 <= k < td.len() && #[trigger] td[k] == s[0];
    assert(t[k + 1] == s[0]);
    assert(t[0].sort_key() <= t[k + 1].sort_key());
}

proof fn lemma_subseq_member(s: Seq<Card>, t: Seq<Card>)
    requires
        s.len() > 0,
        is_subseq(s, t),
    ensures
        exists|k: int| 0 <= k < t.len() && t[k] == s[0],
    decreases t.len(),
{
    if s[0] == t[0] {
    } else {
        lemma_subseq_member(s, t.drop_first());
        let td = t.drop_first();
        let k = choose|k: int| 0 <= k < td.len() && #[trigger] td[k] == s[0];
        assert(t[k + 1] == s[0]);
    }
}

/// On a table ordered by value then suit, the search misses no way of
/// picking up: every choice of table cards, in table order, whose points
/// add up to `r` is among the ways found.
pub proof fn lemma_picks_complete(t: Seq<Card>, r: int, s: Seq<Card>)
    requires
        is_sorted(t),
        s.len() > 0,
        is_subseq(s, t),
        points_of(s) == r,
    ensures
        picks(t, r).contains(s),
    decreases t.len(),
{
    let first = t[0];
    let v = first.val.points();
    let rest = t.drop_first();
    assert(is_sorted(rest));
    lemma_points_nonneg(s);
    let a: Seq<Seq<Card>> = if v == r {
        seq![seq![first]]
    } else {
        Seq::empty()
    };
    let b = picks(rest, r - v).map_values(|x: Seq<Card>| seq![first] + x);
    let c = picks(rest, r);
    if s[0] == first && is_subseq(s.drop_first(), rest) {
        let s2 = s.drop_first();
        lemma_points_nonneg(s2);
        assert(points_of(s) == v + points_of(s2));
        assert(v <= r);
        assert(picks(t, r) == a + b + c);
        if s2.len() == 0 {
            assert(s =~= seq![first]);
            assert(v == r);
            assert((a + b + c)[0] == s);
        } else {
            lemma_picks_complete(rest, r - v, s2);
            let pr = picks(rest, r - v);
            let k = choose|k: int| 0 <= k < pr.len() && #[trigger] pr[k] == s2;
            assert(s =~= seq![first] + s2);
            assert(b[k] == s);
            assert((a + b + c)[a.len() + k] == s);
        }
    } else {
        assert(is_subseq(s, rest));
        lemma_subseq_of_sorted_worth(s, t);
        assert(v <= r);
        assert(picks(t, r) == a + b + c);
        lemma_picks_complete(rest, r, s);
        let k = choose|k: int| 0 <= k < c.len() && #[trigger] c[k] == s;
        assert((a + b + c)[a.len() + b.len() + k] == s);
    }
}


/// Every way found is a choice of cards of `t`, in table order.
pub proof fn lemma_picks_sound(t: Seq<Card>, r: int)
    ensures
        forall|i: int| 0 <= i < picks(t, r).len() ==> is_subseq(#[trigger] picks(t, r)[i], t),
    decreases t.len(),
{
    if t.len() > 0 {
        let first = t[0];
        let v = first.val.points();
        let rest = t.drop_first();
        if v <= r {
            lemma_picks_sound(rest, r - v);
            lemma_picks_sound(rest, r);
            let a: Seq<Seq<Card>> = if v == r {
                seq![seq![first]]
            } else {
                Seq::empty()
            };
            let b = picks(rest, r - v).map_values(|x: Seq<Card>| seq![first] + x);
            let c = picks(rest, r);
            assert(picks(t, r) == a + b + c);
            assert forall|i: int| 0 <= i < picks(t, r).len() implies is_subseq(
                #[trigger] picks(t, r)[i],
                t,
            ) by {
                let p = picks(t, r)[i];
                if i < a.len() {
                    assert(p == seq![first]);
                    assert(p.drop_first() =~= Seq::<Card>::empty());
                    assert(p[0] == t[0]);
                    assert(is_subseq(p.drop_first(), rest));
                } else if i < a.len() + b.len() {
                    let x = picks(rest, r - v)[i - a.len()];
                    assert(p == seq![first] + x);
                    assert(p.drop_first() =~= x);
                    assert(p[0] == t[0]);
                    assert(is_subseq(x, rest));
                } else {
                    let x = c[i - a.len() - b.len()];
                    assert(p == x);
                    assert(is_subseq(x, rest));
                    if x.len() > 0 {
                        assert(is_subseq(x, t));
                    }
                }
            }
        }
    }
}

} // verus!
