//! The state of a game of Scopa and the steps that change it.

use vstd::prelude::*;

use crate::card::{Card, Suit, Value};
use crate::card_set::{copy_cards, CardSet};
use crate::conservation::{
    lemma_conserved_apart, lemma_counts_kept, lemma_deck_reordered, lemma_deck_to_hand, lemma_deck_to_table, lemma_hand_table_to_pond,
    lemma_hand_to_table, lemma_new_game_conserved, lemma_same_places, lemma_table_to_pond,
};
use crate::encoding::{decoded, valid_pack};
use crate::moves::Move;
use crate::player::{score_gain, Player};
use crate::random::shuffle_cards;
use crate::sort::lemma_permutation_keeps_cards;
use crate::turns::lemma_hand_lens;

verus! {

/// The suit of the `k`-th card of each value when a deck is built.
pub open spec fn deal_suit(k: int) -> Suit {
    if k == 0 {
        Suit::Diamonds
    } else if k == 1 {
        Suit::Hearts
    } else if k == 2 {
        Suit::Spades
    } else {
        Suit::Clubs
    }
}

/// A deck as `Game::new` builds it: values lowest first, four suits each.
pub open spec fn fresh_deck() -> Seq<Card> {
    Seq::new(
        40,
        |i: int| Card { val: Value::of_points(i / 4 + 1).unwrap(), suit: deal_suit(i % 4) },
    )
}

/// The walk of a card set after `c` is added to one whose walk is `s`.
pub open spec fn add_card(s: Seq<Card>, c: Card) -> Seq<Card> {
    if s.contains(c) {
        s
    } else {
        s.push(c)
    }
}

/// The `n` cards on top of the deck `d`, in the order they are drawn.
pub open spec fn top_cards(d: Seq<Card>, n: int) -> Seq<Card> {
    Seq::new(n as nat, |i: int| d[d.len() - 1 - i])
}

/// The card that player `k` of `n` draws in round `r` of a deal from `d`.
pub open spec fn dealt_card(d: Seq<Card>, n: int, k: int, r: int) -> Card {
    d[d.len() - 1 - (r * n + k)]
}

/// The walk of player `k`'s hand, first `h`, after `rounds` rounds of a
/// deal from `d` among `n` players.
pub open spec fn dealt_hand(h: Seq<Card>, d: Seq<Card>, n: int, k: int, rounds: int) -> Seq<Card>
    decreases rounds,
{
    if rounds <= 0 {
        h
    } else {
        add_card(dealt_hand(h, d, n, k, rounds - 1), dealt_card(d, n, k, rounds - 1))
    }
}

/// How many cards player `k` has been dealt in round `r` of a deal that has
/// reached player `j` of that round.
pub open spec fn rounds_dealt(k: int, j: int, r: int) -> int {
    if k < j {
        r + 1
    } else {
        r
    }
}

/// The index of the last pick-up among the moves `ms`, or `-1` when there
/// is none.
pub open spec fn last_pickup_index(ms: Seq<Move>) -> int
    decreases ms.len(),
{
    if ms.len() == 0 {
        -1
    } else if ms.last() is Up {
        ms.len() - 1
    } else {
        last_pickup_index(ms.drop_last())
    }
}

/// What the game loop does next.
#[derive(Clone, Copy, Debug, PartialEq, Eq, Structural)]
pub enum Step {
    /// The game is over.
    Finished,
    /// Every hand was empty, and a new round has been dealt.
    Dealt,
    /// The player at this index is to move.
    Ask(usize),
}

/// The state of a game.
pub struct Game {
    pub players: Vec<Player>,
    /// The index in `players` of the player whose turn it is.
    pub turn: usize,
    pub table: CardSet,
    /// The cards left to deal; the last one is drawn first.
    pub deck: Vec<Card>,
    pub moves: Vec<Move>,
    /// Whether an ace picks up the whole table.
    pub ace_sweeps: bool,
    pub last_pickup: usize,
}

impl Clone for Game {
    fn clone(&self) -> (r: Game)
        ensures
            r.players@.len() == self.players@.len(),
            forall|k: int|
                0 <= k < self.players@.len() ==> {
                    &&& (#[trigger] r.players@[k]).hand.seq() == self.players@[k].hand.seq()
                    &&& r.players@[k].hand.wf() == self.players@[k].hand.wf()
                    &&& r.players@[k].pond@ == self.players@[k].pond@
                    &&& r.players@[k].score == self.players@[k].score
                },
            r.turn == self.turn,
            r.table.seq() == self.table.seq(),
            r.table.wf() == self.table.wf(),
            r.deck@ == self.deck@,
            r.moves@ == self.moves@,
            r.ace_sweeps == self.ace_sweeps,
            r.last_pickup == self.last_pickup,
    {
        let mut players: Vec<Player> = Vec::new();
        let mut i: usize = 0;
        while i < self.players.len()
            invariant
                i <= self.players@.len(),
                players@.len() == i,
                forall|k: int|
                    0 <= k < i ==> {
                        &&& (#[trigger] players@[k]).hand.seq() == self.players@[k].hand.seq()
                        &&& players@[k].hand.wf() == self.players@[k].hand.wf()
                        &&& players@[k].pond@ == self.players@[k].pond@
                        &&& players@[k].score == self.players@[k].score
                    },
            decreases self.players@.len() - i,
        {
            players.push(self.players[i].clone());
            i = i + 1;
        }
        let mut moves: Vec<Move> = Vec::new();
        let mut j: usize = 0;
        while j < self.moves.len()
            invariant
                j <= self.moves@.len(),
                moves@ == self.moves@.take(j as int),
            decreases self.moves@.len() - j,
        {
            moves.push(self.moves[j]);
            j = j + 1;
            assert(moves@ =~= self.moves@.take(j as int));
        }
        assert(self.moves@.take(j as int) =~= self.moves@);
        Game {
            players,
            turn: self.turn,
            table: self.table.clone(),
            deck: copy_cards(&self.deck),
            moves,
            ace_sweeps: self.ace_sweeps,
            last_pickup: self.last_pickup,
        }
    }
}

impl Game {
    /// Whether the table and every hand hold no card twice.
    pub open spec fn wf(self) -> bool {
        &&& self.table.wf()
        &&& forall|i: int| 0 <= i < self.players@.len() ==> #[trigger] self.players@[i].wf()
    }

    /// The player who made move `i` of a game whose first move was the
    /// first player's: the players take turns in order.
    pub open spec fn mover(self, i: int) -> int {
        i % (self.players@.len() as int)
    }

    /// The turn and the record of the last player to pick up agree with the
    /// moves played: the players have taken turns from the first, and the
    /// last pick-up was made by its mover (the first player is recorded
    /// while no one has picked up).
    pub open spec fn history_kept(self) -> bool {
        &&& self.players@.len() > 0
        &&& self.turn == self.mover(self.moves@.len() as int)
        &&& self.last_pickup == (if last_pickup_index(self.moves@) >= 0 {
            self.mover(last_pickup_index(self.moves@))
        } else {
            0
        })
    }

    /// The hand of the player whose turn it is.
    pub open spec fn current_hand(self) -> CardSet {
        self.players@[self.turn as int].hand
    }

    /// A game of two players with a fresh, unshuffled deck, nothing on the
    /// table, and aces that sweep the table.
    pub fn new() -> (g: Game)
        ensures
            g.wf(),
            g.players@.len() == 2,
            forall|i: int|
                0 <= i < 2 ==> {
                    &&& (#[trigger] g.players@[i]).hand.seq() == Seq::<Card>::empty()
                    &&& g.players@[i].pond@ == Seq::<Card>::empty()
                    &&& g.players@[i].score == 0
                },
            g.turn == 0,
            g.table.seq() == Seq::<Card>::empty(),
            g.deck@ == fresh_deck(),
            g.moves@ == Seq::<Move>::empty(),
            g.ace_sweeps,
            g.last_pickup == 0,
            g.cards_conserved(),
            g.history_kept(),
    {
        let mut players: Vec<Player> = Vec::new();
        players.push(Player::new());
        players.push(Player::new());
        let mut g = Game {
            players,
            deck: Vec::new(),
            table: CardSet::new(),
            turn: 0,
            moves: Vec::new(),
            ace_sweeps: true,
            last_pickup: 0,
        };
        g.new_deck();
        proof {
            assert(Seq::<Card>::empty() + fresh_deck() =~= fresh_deck());
            assert(g.table@ =~= Set::<Card>::empty());
            lemma_new_game_conserved(g);
        }
        g
    }

    /// Lays out the forty cards, values lowest first, in the suit order of
    /// `Suit::ALL`, on top of the current deck.
    fn new_deck(&mut self)
        ensures
            final(self).deck@ == old(self).deck@ + fresh_deck(),
            final(self).players == old(self).players,
            final(self).turn == old(self).turn,
            final(self).table == old(self).table,
            final(self).moves == old(self).moves,
            final(self).ace_sweeps == old(self).ace_sweeps,
            final(self).last_pickup == old(self).last_pickup,
    {
        let ghost start = self.deck@;
        let mut vi: usize = 0;
        while vi < 10
            invariant
                vi <= 10,
                self.deck@ == start + fresh_deck().take(4 * vi),
                self.players == old(self).players,
                self.turn == old(self).turn,
                self.table == old(self).table,
                self.moves == old(self).moves,
                self.ace_sweeps == old(self).ace_sweeps,
                self.last_pickup == old(self).last_pickup,
            decreases 10 - vi,
        {
            let v = Value::ALL[vi];
            let mut si: usize = 0;
            while si < 4
                invariant
                    vi < 10,
                    si <= 4,
                    self.deck@ == start + fresh_deck().take(4 * vi + si),
                    self.players == old(self).players,
                    self.turn == old(self).turn,
                    self.table == old(self).table,
                    self.moves == old(self).moves,
                    self.ace_sweeps == old(self).ace_sweeps,
                    self.last_pickup == old(self).last_pickup,
                    v.points() == vi + 1,
                decreases 4 - si,
            {
                let s = Suit::ALL[si];
                assert(s == deal_suit(si as int));
                self.deck.push(Card::new(v, s));
                proof {
                    let k = 4 * vi + si;
                    assert(k / 4 == vi && k % 4 == si);
                    assert(fresh_deck().take(k + 1) =~= fresh_deck().take(k as int).push(
                        Card { val: v, suit: s },
                    ));
                }
                si = si + 1;
            }
            vi = vi + 1;
        }
        assert(fresh_deck().take(40) =~= fresh_deck());
    }

    /// Shuffles the deck, lays four cards on the table and deals three cards
    /// to each player.
    pub fn init(&mut self)
        requires
            old(self).wf(),
            old(self).deck@.len() >= 4 + 3 * old(self).players@.len(),
            old(self).deck@.no_duplicates(),
            forall|c: Card|
                old(self).deck@.contains(c) ==> !#[trigger] old(self).table@.contains(c),
        ensures
            final(self).wf(),
            old(self).cards_conserved() ==> final(self).cards_conserved(),
            exists|d: Seq<Card>|
                {
                    &&& d.to_multiset() == old(self).deck@.to_multiset()
                    &&& #[trigger] final(self).table.seq() == old(self).table.seq() + top_cards(
                        d,
                        4,
                    )
                    &&& final(self).deck@ == d.take(
                        d.len() - 4 - 3 * old(self).players@.len(),
                    )
                    &&& forall|k: int|
                        0 <= k < old(self).players@.len() ==> #[trigger] final(self).players@[k].hand.seq() == dealt_hand(
                            old(self).players@[k].hand.seq(),
                            d.take(d.len() - 4),
                            old(self).players@.len() as int,
                            k,
                            3,
                        )
                },
            final(self).players@.len() == old(self).players@.len(),
            forall|k: int|
                0 <= k < old(self).players@.len() ==> {
                    &&& #[trigger] final(self).players@[k].pond == old(self).players@[k].pond
                    &&& final(self).players@[k].score == old(self).players@[k].score
                },
            final(self).turn == old(self).turn,
            final(self).moves == old(self).moves,
            final(self).ace_sweeps == old(self).ace_sweeps,
            final(self).last_pickup == old(self).last_pickup,
            old(self).history_kept() ==> final(self).history_kept(),
            ({
                &&& old(self).cards_conserved()
                &&& old(self).players@.len() == 2
                &&& old(self).turn == 0
                &&& old(self).deck@.len() == 40
                &&& old(self).hand_len(0) == 0
                &&& old(self).hand_len(1) == 0
            }) ==> {
                &&& final(self).in_rhythm()
                &&& final(self).turns_left(0) == 18
                &&& final(self).turns_left(1) == 18
            },
    {
        let ghost d0 = self.deck@;
        self.shuffle();
        let ghost d = self.deck@;
        proof {
            lemma_permutation_keeps_cards(d0, d);
            let top = top_cards(d, 4);
            assert forall|i: int, j: int| 0 <= i < j < 4 implies top[i] != top[j] by {
                assert(d[d.len() - 1 - i] != d[d.len() - 1 - j]);
            }
            assert forall|i: int| 0 <= i < 4 implies !self.table@.contains(#[trigger] top[i]) by {
                assert(d.contains(top[i]));
            }
        }
        self.init_table();
        let ghost mid = self.players@;
        let ghost mid_game = *self;
        self.deal_users();
        proof {
            if old(self).cards_conserved() && old(self).players@.len() == 2 {
                assert(mid_game.cards_conserved());
                assert(self.hand_len(0) == mid_game.hand_len(0) + 3);
                assert(self.hand_len(1) == mid_game.hand_len(1) + 3);
                assert(mid_game.hand_len(0) == old(self).hand_len(0));
                assert(mid_game.hand_len(1) == old(self).hand_len(1));
            }
            assert forall|k: int| 0 <= k < old(self).players@.len() implies {
                &&& #[trigger] self.players@[k].pond == old(self).players@[k].pond
                &&& self.players@[k].score == old(self).players@[k].score
            } by {
                assert(self.players@[k].hand.seq() == dealt_hand(
                    mid[k].hand.seq(),
                    d.take(d.len() - 4),
                    old(self).players@.len() as int,
                    k,
                    3,
                ));
            }
            assert(self.deck@ =~= d.take(d.len() - 4).take(
                d.len() - 4 - 3 * old(self).players@.len(),
            ));
        }
    }

    /// Draws four cards from the deck and lays them on the table.
    pub fn init_table(&mut self)
        requires
            old(self).table.wf(),
            old(self).deck@.len() >= 4,
            forall|i: int, j: int|
                0 <= i < j < 4 ==> top_cards(old(self).deck@, 4)[i] != top_cards(
                    old(self).deck@,
                    4,
                )[j],
            forall|i: int|
                0 <= i < 4 ==> !old(self).table@.contains(
                    #[trigger] top_cards(old(self).deck@, 4)[i],
                ),
        ensures
            final(self).table.wf(),
            final(self).table.seq() == old(self).table.seq() + top_cards(
                old(self).deck@,
                4,
            ),
            final(self).deck@ == old(self).deck@.take(
                old(self).deck@.len() - 4,
            ),
            old(self).cards_conserved() ==> final(self).cards_conserved(),
            final(self).players == old(self).players,
            final(self).turn == old(self).turn,
            final(self).moves == old(self).moves,
            final(self).ace_sweeps == old(self).ace_sweeps,
            final(self).last_pickup == old(self).last_pickup,
    {
        let ghost d = self.deck@;
        let ghost top = top_cards(d, 4);
        let mut i: usize = 0;
        while i < 4
            invariant
                i <= 4,
                d == old(self).deck@,
                top == top_cards(d, 4),
                d.len() >= 4,
                self.deck@ == d.take(d.len() - i),
                self.table.wf(),
                self.table.seq() == old(self).table.seq() + top.take(i as int),
                old(self).cards_conserved() ==> self.cards_conserved(),
                forall|a: int, b: int| 0 <= a < b < 4 ==> top[a] != top[b],
                forall|a: int| 0 <= a < 4 ==> !old(self).table@.contains(#[trigger] top[a]),
                self.players == old(self).players,
                self.turn == old(self).turn,
                self.moves == old(self).moves,
                self.ace_sweeps == old(self).ace_sweeps,
                self.last_pickup == old(self).last_pickup,
            decreases 4 - i,
        {
            let ghost g0 = *self;
            let c = self.deck.pop().unwrap();
            proof {
                assert(c == top[i as int]);
                assert(!self.table.seq().contains(c)) by {
                    if self.table.seq().contains(c) {
                        let k = choose|k: int|
                            0 <= k < self.table.seq().len() && self.table.seq()[k] == c;
                        if k < old(self).table.seq().len() {
                            assert(old(self).table.seq().contains(c));
                        } else {
                            assert(top.take(i as int)[k - old(self).table.seq().len()] == c);
                        }
                    }
                }
            }
            self.play_card(c);
            proof {
                if old(self).cards_conserved() {
                    lemma_deck_to_table(g0, *self);
                }
                assert(top.take(i + 1) =~= top.take(i as int).push(c));
                assert(self.deck@ =~= d.take(d.len() - (i + 1)));
            }
            i = i + 1;
        }
        assert(top.take(4) =~= top);
    }

    /// Deals three rounds of one card to each player, in player order.
    #[verifier::spinoff_prover]
    pub fn deal_users(&mut self)
        requires
            old(self).wf(),
            old(self).deck@.len() >= 3 * old(self).players@.len(),
        ensures
            final(self).wf(),
            final(self).deck@ == old(self).deck@.take(
                old(self).deck@.len() - 3 * old(self).players@.len(),
            ),
            old(self).cards_conserved() ==> final(self).cards_conserved(),
            old(self).cards_conserved() ==> forall|k: int|
                0 <= k < old(self).players@.len() ==> #[trigger] final(self).hand_len(k)
                    == old(self).hand_len(k) + 3,
            final(self).players@.len() == old(self).players@.len(),
            forall|k: int|
                0 <= k < old(self).players@.len() ==> {
                    &&& #[trigger] final(self).players@[k].hand.seq() == dealt_hand(
                        old(self).players@[k].hand.seq(),
                        old(self).deck@,
                        old(self).players@.len() as int,
                        k,
                        3,
                    )
                    &&& final(self).players@[k].pond == old(self).players@[k].pond
                    &&& final(self).players@[k].score == old(self).players@[k].score
                },
            final(self).table == old(self).table,
            final(self).turn == old(self).turn,
            final(self).moves == old(self).moves,
            final(self).ace_sweeps == old(self).ace_sweeps,
            final(self).last_pickup == old(self).last_pickup,
    {
        let ghost d = self.deck@;
        let ghost ps = self.players@;
        let n = self.players.len();
        let mut r: usize = 0;
        while r < 3
            invariant
                r <= 3,
                d == old(self).deck@,
                ps == old(self).players@,
                n == ps.len(),
                d.len() >= 3 * n,
                self.deck@ == d.take(d.len() - r * n),
                self.players@.len() == n,
                self.wf(),
                old(self).cards_conserved() ==> self.cards_conserved(),
                old(self).cards_conserved() ==> forall|k: int|
                    0 <= k < n ==> #[trigger] self.hand_len(k) == ps[k].hand.seq().len() + r,
                forall|k: int|
                    0 <= k < n ==> {
                        &&& #[trigger] self.players@[k].hand.seq() == dealt_hand(
                            ps[k].hand.seq(),
                            d,
                            n as int,
                            k,
                            r as int,
                        )
                        &&& self.players@[k].pond == ps[k].pond
                        &&& self.players@[k].score == ps[k].score
                    },
                self.table == old(self).table,
                self.turn == old(self).turn,
                self.moves == old(self).moves,
                self.ace_sweeps == old(self).ace_sweeps,
                self.last_pickup == old(self).last_pickup,
            decreases 3 - r,
        {
            assert forall|k: int| 0 <= k < n implies #[trigger] self.players@[k].hand.seq()
                == dealt_hand(ps[k].hand.seq(), d, n as int, k, rounds_dealt(k, 0, r as int)) by {
                assert(rounds_dealt(k, 0, r as int) == r);
            }
            assert forall|k: int| 0 <= k < n implies rounds_dealt(k, 0, r as int) == r by {}
            let mut j: usize = 0;
            while j < n
                invariant
                    r < 3,
                    j <= n,
                    d == old(self).deck@,
                    n == ps.len(),
                    d.len() >= 3 * n,
                    self.deck@ == d.take(d.len() - (r * n + j)),
                    self.players@.len() == n,
                    self.wf(),
                    old(self).cards_conserved() ==> self.cards_conserved(),
                    old(self).cards_conserved() ==> forall|k: int|
                        0 <= k < n ==> #[trigger] self.hand_len(k) == ps[k].hand.seq().len()
                            + rounds_dealt(k, j as int, r as int),
                    forall|k: int|
                        0 <= k < n ==> {
                            &&& #[trigger] self.players@[k].hand.seq() == dealt_hand(
                                ps[k].hand.seq(),
                                d,
                                n as int,
                                k,
                                rounds_dealt(k, j as int, r as int),
                            )
                            &&& self.players@[k].pond == ps[k].pond
                            &&& self.players@[k].score == ps[k].score
                        },
                    self.table == old(self).table,
                    self.turn == old(self).turn,
                    self.moves == old(self).moves,
                    self.ace_sweeps == old(self).ace_sweeps,
                    self.last_pickup == old(self).last_pickup,
                decreases n - j,
            {
                proof {
                    assert(r * n + j < 3 * n) by (nonlinear_arith)
                        requires
                            r < 3,
                            j < n,
                    ;
                }
                let ghost g0 = *self;
                let c = self.deck.pop().unwrap();
                proof {
                    assert(c == dealt_card(d, n as int, j as int, r as int));
                    assert(self.players@[j as int].wf());
                }
                let ghost before = self.players@;
                self.players[j].give_card(c);
                proof {
                    assert(self.deck@ =~= d.take(d.len() - (r * n + j + 1)));
                    assert forall|k: int| 0 <= k < self.players@.len() && k != j implies #[trigger] self.players@[k] == before[k] by {}
                    if old(self).cards_conserved() {
                        assert(self.players@ =~= g0.players@.update(j as int, self.players@[j as int]));
                        lemma_deck_to_hand(g0, *self, j as int, self.players@[j as int]);
                        assert(g0.deck@.contains(c)) by {
                            assert(g0.deck@[g0.deck@.len() - 1] == c);
                        }
                        assert(g0.deck@.to_multiset().count(c) > 0) by {
                            broadcast use vstd::seq_lib::group_to_multiset_ensures;
                        }
                        lemma_conserved_apart(g0, j as int, c);
                        assert(g0.players@[j as int] == before[j as int]);
                        assert(!before[j as int].hand@.contains(c));
                        assert forall|k: int| 0 <= k < n implies #[trigger] self.hand_len(k)
                            == ps[k].hand.seq().len() + rounds_dealt(k, j + 1, r as int) by {
                            if k != j {
                                assert(self.players@[k] == before[k]);
                                assert(g0.hand_len(k) == ps[k].hand.seq().len() + rounds_dealt(k, j as int, r as int));
                            } else {
                                assert(g0.hand_len(k) == ps[k].hand.seq().len() + rounds_dealt(k, j as int, r as int));
                            }
                        }
                    }
                }
                j = j + 1;
            }
            proof {
                assert((r + 1) * n == r * n + n) by (nonlinear_arith);
            }
            r = r + 1;
        }
        proof {
            assert(3 * n == r * n);
        }
    }

    /// Passes the turn to the next player.
    pub fn next_turn(&mut self)
        requires
            old(self).players@.len() > 0,
            old(self).turn < usize::MAX,
        ensures
            final(self).turn == (old(self).turn + 1) % (old(self).players@.len() as int),
            forall|x: Card| #[trigger] final(self).card_count(x) == old(self).card_count(x),
            old(self).cards_conserved() ==> final(self).cards_conserved(),
            final(self).players == old(self).players,
            final(self).table == old(self).table,
            final(self).deck@ == old(self).deck@,
            final(self).moves == old(self).moves,
            final(self).ace_sweeps == old(self).ace_sweeps,
            final(self).last_pickup == old(self).last_pickup,
    {
        self.turn = (self.turn + 1) % self.players.len();
        proof {
            if old(self).cards_conserved() {
                lemma_same_places(*old(self), *self);
            }
        }
    }

    /// Lays `card`, which must not be there yet, on the table.
    pub fn play_card(&mut self, card: Card)
        requires
            old(self).table.wf(),
            !old(self).table@.contains(card),
        ensures
            final(self).table.wf(),
            final(self).table@ == old(self).table@.insert(card),
            final(self).table.seq() == old(self).table.seq().push(card),
            final(self).players == old(self).players,
            final(self).turn == old(self).turn,
            final(self).deck@ == old(self).deck@,
            final(self).moves == old(self).moves,
            final(self).ace_sweeps == old(self).ace_sweeps,
            final(self).last_pickup == old(self).last_pickup,
    {
        self.table.insert(card);
    }

    /// The last move played, if any.
    pub fn last_move(&self) -> (r: Option<Move>)
        ensures
            r == (if self.moves@.len() == 0 {
                None
            } else {
                Some(self.moves@.last())
            }),
    {
        if self.moves.len() == 0 {
            None
        } else {
            Some(self.moves[self.moves.len() - 1])
        }
    }

    /// Takes `card`, which must be there, off the table.
    pub fn take_card(&mut self, card: &Card)
        requires
            old(self).table.wf(),
            old(self).table@.contains(*card),
        ensures
            final(self).table.wf(),
            final(self).table@ == old(self).table@.remove(*card),
            final(self).players == old(self).players,
            final(self).turn == old(self).turn,
            final(self).deck@ == old(self).deck@,
            final(self).moves == old(self).moves,
            final(self).ace_sweeps == old(self).ace_sweeps,
            final(self).last_pickup == old(self).last_pickup,
    {
        self.table.remove(card);
    }

    /// Shuffles the deck.
    pub fn shuffle(&mut self)
        ensures
            old(self).cards_conserved() ==> final(self).cards_conserved(),
            final(self).deck@.to_multiset() == old(self).deck@.to_multiset(),
            final(self).players == old(self).players,
            final(self).turn == old(self).turn,
            final(self).table == old(self).table,
            final(self).moves == old(self).moves,
            final(self).ace_sweeps == old(self).ace_sweeps,
            final(self).last_pickup == old(self).last_pickup,
    {
        shuffle_cards(&mut self.deck);
        proof {
            if old(self).cards_conserved() {
                lemma_deck_reordered(*old(self), *self);
            }
        }
    }

    /// The cards that a pick-up move takes from the table.
    pub open spec fn picked(mv: Move) -> Seq<Card> {
        match mv {
            Move::Down(_) => Seq::empty(),
            Move::Up(_, cs) => decoded(cs, 0),
        }
    }

    /// Whether the current player can make `mv` without breaking the
    /// game: the played card is in the hand; a card put down is not on the
    /// table yet; the cards picked up are distinct, lie on the table, and are
    /// packed as `Move::new_up` packs them.
    pub open spec fn can_play(self, mv: Move) -> bool {
        &&& self.wf()
        &&& self.turn < self.players@.len()
        &&& self.current_hand()@.contains(mv.played())
        &&& match mv {
            Move::Down(c) => !self.table@.contains(c),
            Move::Up(_, cs) => {
                &&& valid_pack(cs)
                &&& decoded(cs, 0).no_duplicates()
                &&& forall|i: int|
                    0 <= i < decoded(cs, 0).len() ==> self.table@.contains(
                        #[trigger] decoded(cs, 0)[i],
                    )
            },
        }
    }

    /// The table after `mv`.
    pub open spec fn table_after(self, mv: Move) -> Set<Card> {
        match mv {
            Move::Down(c) => self.table@.insert(c),
            Move::Up(_, _) => self.table@.difference(Game::picked(mv).to_set()),
        }
    }

    /// Whether `mv` is a scopa: a pick-up that clears the table, played with
    /// any card but an ace.
    pub open spec fn is_scopa(self, mv: Move) -> bool {
        &&& mv is Up
        &&& mv.played().val != Value::One
        &&& self.table_after(mv).len() == 0
    }

    /// Plays `mv` for the current player: a card put down goes to the
    /// table; a pick-up puts the played card and the cards taken from the
    /// table into the player's pond and makes the player the last to pick up.
    pub fn do_move(&mut self, mv: &Move)
        requires
            old(self).can_play(*mv),
        ensures
            final(self).wf(),
            forall|x: Card| #[trigger] final(self).card_count(x) == old(self).card_count(x),
            old(self).cards_conserved() ==> final(self).cards_conserved(),
            final(self).players@.len() == old(self).players@.len(),
            forall|k: int|
                0 <= k < old(self).players@.len() && k != old(self).turn ==> #[trigger] final(self).players@[k] == old(self).players@[k],
            final(self).current_hand()@ == old(self).current_hand()@.remove(mv.played()),
            final(self).players@[old(self).turn as int].score == old(self).players@[old(self).turn as int].score,
            final(self).table@ == old(self).table_after(*mv),
            match *mv {
                Move::Down(c) => {
                    &&& final(self).players@[old(self).turn as int].pond == old(self).players@[old(self).turn as int].pond
                    &&& final(self).table.seq() == old(self).table.seq().push(c)
                    &&& final(self).last_pickup == old(self).last_pickup
                },
                Move::Up(c, _) => {
                    &&& final(self).players@[old(self).turn as int].pond@ == old(self).players@[old(self).turn as int].pond@.push(c) + Game::picked(*mv)
                    &&& final(self).last_pickup == old(self).turn
                },
            },
            final(self).turn == old(self).turn,
            final(self).deck@ == old(self).deck@,
            final(self).moves == old(self).moves,
            final(self).ace_sweeps == old(self).ace_sweeps,
    {
        let p = self.turn;
        match mv {
            Move::Down(c) => {
                let ghost before = self.players@;
                self.players[p].remove_card(*c);
                proof {
                    assert forall|k: int| 0 <= k < self.players@.len() implies #[trigger] self.players@[k].wf() by {
                        if k != p {
                            assert(self.players@[k] == before[k]);
                            assert(before[k].wf());
                        }
                    }
                }
                self.play_card(*c);
                proof {
                    assert(self.players@ =~= old(self).players@.update(p as int, self.players@[p as int]));
                    lemma_hand_to_table(*old(self), *self, *c, self.players@[p as int]);
                    lemma_counts_kept(*old(self), *self);
                }
            },
            Move::Up(c, cs) => {
                self.last_pickup = self.turn;
                let ghost before = self.players@;
                self.players[p].remove_card(*c);
                self.players[p].give_pond(*c);
                proof {
                    assert forall|k: int| 0 <= k < self.players@.len() && k != p implies #[trigger] self.players@[k] == before[k] by {}
                    assert forall|k: int| 0 <= k < self.players@.len() implies #[trigger] self.players@[k].wf() by {
                        if k != p {
                            assert(before[k].wf());
                        }
                    }
                }
                let cards = Card::decode(*cs, 0);
                let ghost base = self.players@[p as int].pond@;
                let ghost start = self.table@;
                let ghost hand = self.players@[p as int].hand;
                let mut i: usize = 0;
                while i < cards.len()
                    invariant
                        i <= cards.len(),
                        p == self.turn,
                        p < self.players@.len(),
                        self.players@.len() == old(self).players@.len(),
                        cards@ == decoded(*cs, 0),
                        cards@.no_duplicates(),
                        forall|j: int| 0 <= j < cards@.len() ==> start.contains(#[trigger] cards@[j]),
                        self.wf(),
                        self.table@ == start.difference(cards@.take(i as int).to_set()),
                        self.players@[p as int].pond@ == base + cards@.take(i as int),
                        self.players@[p as int].hand == hand,
                        self.players@[p as int].score == old(self).players@[p as int].score,
                        forall|k: int|
                            0 <= k < old(self).players@.len() && k != p ==> #[trigger] self.players@[k]
                                == old(self).players@[k],
                        self.last_pickup == p,
                        self.turn == old(self).turn,
                        self.deck@ == old(self).deck@,
                        self.moves == old(self).moves,
                        self.ace_sweeps == old(self).ace_sweeps,
                    decreases cards.len() - i,
                {
                    let x = cards[i];
                    proof {
                        assert(start.contains(x));
                        assert(!cards@.take(i as int).contains(x)) by {
                            if cards@.take(i as int).contains(x) {
                                let k = choose|k: int| 0 <= k < i && cards@[k] == x;
                                assert(cards@[k] == cards@[i as int]);
                            }
                        }
                    }
                    self.take_card(&x);
                    let ghost mid = self.players@;
                    self.players[p].give_pond(x);
                    proof {
                        assert(cards@.take(i + 1) =~= cards@.take(i as int).push(x));
                        assert forall|y: Card| #[trigger] cards@.take(i + 1).to_set().contains(y)
                            <==> (cards@.take(i as int).to_set().contains(y) || y == x) by {
                            let t1 = cards@.take(i + 1);
                            let t0 = cards@.take(i as int);
                            if t1.contains(y) {
                                let k = choose|k: int| 0 <= k < t1.len() && #[trigger] t1[k] == y;
                                if k < i {
                                    assert(t0[k] == y);
                                }
                            }
                            if t0.contains(y) {
                                let k = choose|k: int| 0 <= k < t0.len() && #[trigger] t0[k] == y;
                                assert(t1[k] == y);
                            }
                            if y == x {
                                assert(cards@.take(i + 1)[i as int] == y);
                            }
                        }
                        assert(self.table@ =~= start.difference(cards@.take(i + 1).to_set()));
                        assert(self.players@[p as int].pond@ =~= base + cards@.take(i + 1));
                        assert forall|k: int| 0 <= k < self.players@.len() && k != p implies #[trigger] self.players@[k] == mid[k] by {}
                        assert forall|k: int| 0 <= k < self.players@.len() implies #[trigger] self.players@[k].wf() by {
                            if k != p {
                                assert(mid[k].wf());
                            }
                        }
                    }
                    i = i + 1;
                }
                proof {
                    assert(cards@.take(i as int) =~= cards@);
                    assert(self.players@ =~= old(self).players@.update(p as int, self.players@[p as int]));
                    lemma_hand_table_to_pond(*old(self), *self, *c, cards@, self.players@[p as int]);
                    lemma_counts_kept(*old(self), *self);
                }
            },
        }
    }

    /// Records `mv` as the latest move.
    pub fn push_move(&mut self, mv: &Move)
        ensures
            final(self).moves@ == old(self).moves@.push(*mv),
            forall|x: Card| #[trigger] final(self).card_count(x) == old(self).card_count(x),
            old(self).cards_conserved() ==> final(self).cards_conserved(),
            final(self).players == old(self).players,
            final(self).turn == old(self).turn,
            final(self).table == old(self).table,
            final(self).deck@ == old(self).deck@,
            final(self).ace_sweeps == old(self).ace_sweeps,
            final(self).last_pickup == old(self).last_pickup,
    {
        self.moves.push(*mv);
        proof {
            if old(self).cards_conserved() {
                lemma_same_places(*old(self), *self);
            }
        }
    }

    /// Gives the current player a point for a scopa: a pick-up, not made
    /// with an ace, that left the table empty.
    pub fn check_scopa(&mut self, mv: &Move)
        requires
            old(self).wf(),
            old(self).turn < old(self).players@.len(),
            (*mv is Up && mv.played().val != Value::One && old(self).table@.len() == 0)
                ==> old(self).players@[old(self).turn as int].score < u16::MAX,
        ensures
            final(self).wf(),
            forall|x: Card| #[trigger] final(self).card_count(x) == old(self).card_count(x),
            old(self).cards_conserved() ==> final(self).cards_conserved(),
            final(self).players@.len() == old(self).players@.len(),
            forall|k: int|
                0 <= k < old(self).players@.len() && k != old(self).turn ==> #[trigger] final(self).players@[k] == old(self).players@[k],
            final(self).players@[old(self).turn as int].hand == old(self).players@[old(self).turn as int].hand,
            final(self).players@[old(self).turn as int].pond == old(self).players@[old(self).turn as int].pond,
            final(self).players@[old(self).turn as int].score == old(self).players@[old(self).turn as int].score + (if *mv is Up && mv.played().val != Value::One
                && old(self).table@.len() == 0 {
                1int
            } else {
                0int
            }),
            final(self).turn == old(self).turn,
            final(self).table == old(self).table,
            final(self).deck@ == old(self).deck@,
            final(self).moves == old(self).moves,
            final(self).ace_sweeps == old(self).ace_sweeps,
            final(self).last_pickup == old(self).last_pickup,
    {
        match mv {
            Move::Down(_) => {},
            Move::Up(c, _) => {
                if c.val != Value::One && self.table.len() == 0 {
                    let t = self.turn;
                    let ghost before = self.players@;
                    self.players[t].score = self.players[t].score + 1;
                    proof {
                        assert forall|k: int| 0 <= k < self.players@.len() && k != t implies #[trigger] self.players@[k] == before[k] by {}
                        assert forall|k: int| 0 <= k < self.players@.len() implies #[trigger] self.players@[k].wf() by {
                            if k != t {
                                assert(before[k].wf());
                            }
                        }
                        lemma_same_places(*old(self), *self);
                    }
                }
            },
        }
    }

    /// Plays `mv` in full: records it, plays it, scores a scopa, and passes
    /// the turn.
    pub fn do_full_move(&mut self, mv: &Move)
        requires
            old(self).can_play(*mv),
            old(self).is_scopa(*mv) ==> old(self).players@[old(self).turn as int].score
                < u16::MAX,
        ensures
            final(self).wf(),
            forall|x: Card| #[trigger] final(self).card_count(x) == old(self).card_count(x),
            old(self).cards_conserved() ==> final(self).cards_conserved(),
            old(self).history_kept() ==> final(self).history_kept(),
            final(self).players@.len() == old(self).players@.len(),
            forall|k: int|
                0 <= k < old(self).players@.len() && k != old(self).turn ==> #[trigger] final(self).players@[k] == old(self).players@[k],
            final(self).players@[old(self).turn as int].hand@ == old(self).current_hand()@.remove(
                mv.played(),
            ),
            final(self).players@[old(self).turn as int].score == old(self).players@[old(self).turn as int].score + (if old(self).is_scopa(*mv) {
                1int
            } else {
                0int
            }),
            final(self).table@ == old(self).table_after(*mv),
            match *mv {
                Move::Down(c) => {
                    &&& final(self).players@[old(self).turn as int].pond == old(self).players@[old(self).turn as int].pond
                    &&& final(self).last_pickup == old(self).last_pickup
                },
                Move::Up(c, _) => {
                    &&& final(self).players@[old(self).turn as int].pond@ == old(self).players@[old(self).turn as int].pond@.push(c) + Game::picked(*mv)
                    &&& final(self).last_pickup == old(self).turn
                },
            },
            final(self).moves@ == old(self).moves@.push(*mv),
            final(self).turn == (old(self).turn + 1) % (old(self).players@.len() as int),
            final(self).deck@ == old(self).deck@,
            final(self).ace_sweeps == old(self).ace_sweeps,
    {
        self.push_move(mv);
        self.do_move(mv);
        proof {
            self.table.lemma_distinct();
        }
        self.check_scopa(mv);
        assert(self.turn < self.players.len());
        self.next_turn();
        proof {
            if old(self).history_kept() {
                let ms = old(self).moves@;
                let n = old(self).players@.len() as int;
                let len = ms.len() as int;
                assert(self.moves@.drop_last() =~= ms);
                assert(self.moves@.last() == *mv);
                assert((len % n + 1) % n == (len + 1) % n) by (nonlinear_arith)
                    requires
                        n > 0,
                        len >= 0,
                {
                    vstd::arithmetic::div_mod::lemma_add_mod_noop(len, 1, n);
                    vstd::arithmetic::div_mod::lemma_mod_twice(len, n);
                }
                assert(self.turn == self.mover(self.moves@.len() as int));
            }
        }
    }

    /// Whether every player's hand is empty.
    pub open spec fn hands_empty(self) -> bool {
        forall|k: int| 0 <= k < self.players@.len() ==> (#[trigger] self.players@[k]).hand@.len() == 0
    }

    /// Whether every player's hand is empty.
    pub fn all_hands_empty(&self) -> (r: bool)
        requires
            self.wf(),
        ensures
            r == self.hands_empty(),
    {
        let mut i: usize = 0;
        while i < self.players.len()
            invariant
                self.wf(),
                i <= self.players@.len(),
                forall|k: int| 0 <= k < i ==> (#[trigger] self.players@[k]).hand@.len() == 0,
            decreases self.players@.len() - i,
        {
            assert(self.players@[i as int].wf());
            if !self.players[i].hand_empty() {
                return false;
            }
            i = i + 1;
        }
        true
    }

    /// Adds each player's round points (see `score_gain`) to their score.
    #[verifier::spinoff_prover]
    pub fn calculate_scores(&mut self)
        requires
            forall|k: int|
                0 <= k < old(self).players@.len() ==> #[trigger] old(self).players@[k].score
                    + score_gain(old(self).players@[k].pond@) <= u16::MAX,
        ensures
            old(self).cards_conserved() ==> final(self).cards_conserved(),
            final(self).players@.len() == old(self).players@.len(),
            forall|k: int|
                0 <= k < old(self).players@.len() ==> {
                    &&& #[trigger] final(self).players@[k].score == old(self).players@[k].score
                        + score_gain(old(self).players@[k].pond@)
                    &&& final(self).players@[k].hand == old(self).players@[k].hand
                    &&& final(self).players@[k].pond == old(self).players@[k].pond
                },
            final(self).turn == old(self).turn,
            final(self).table == old(self).table,
            final(self).deck@ == old(self).deck@,
            final(self).moves == old(self).moves,
            final(self).ace_sweeps == old(self).ace_sweeps,
            final(self).last_pickup == old(self).last_pickup,
    {
        let mut i: usize = 0;
        while i < self.players.len()
            invariant
                i <= self.players@.len(),
                self.players@.len() == old(self).players@.len(),
                forall|k: int|
                    0 <= k < i ==> {
                        &&& #[trigger] self.players@[k].score == old(self).players@[k].score
                            + score_gain(old(self).players@[k].pond@)
                        &&& self.players@[k].hand == old(self).players@[k].hand
                        &&& self.players@[k].pond == old(self).players@[k].pond
                    },
                forall|k: int| i <= k < self.players@.len() ==> #[trigger] self.players@[k] == old(self).players@[k],
                forall|k: int|
                    0 <= k < old(self).players@.len() ==> #[trigger] old(self).players@[k].score
                        + score_gain(old(self).players@[k].pond@) <= u16::MAX,
                self.turn == old(self).turn,
                self.table == old(self).table,
                self.deck@ == old(self).deck@,
                self.moves == old(self).moves,
                self.ace_sweeps == old(self).ace_sweeps,
                self.last_pickup == old(self).last_pickup,
            decreases self.players@.len() - i,
        {
            let ghost before = self.players@;
            assert(before[i as int] == old(self).players@[i as int]);
            self.players[i].calculate_score();
            assert forall|k: int| 0 <= k < self.players@.len() && k != i implies #[trigger] self.players@[k] == before[k] by {}
            i = i + 1;
        }
        proof {
            if old(self).cards_conserved() {
                assert forall|k: int| 0 <= k < self.players@.len() implies {
                    &&& (#[trigger] self.players@[k]).hand@ == old(self).players@[k].hand@
                    &&& self.players@[k].pond@ == old(self).players@[k].pond@
                    &&& self.players@[k].wf()
                } by {
                    assert(k < i);
                    assert(self.players@[k].score == old(self).players@[k].score + score_gain(
                        old(self).players@[k].pond@,
                    ));
                    assert(old(self).players@[k].wf());
                }
                lemma_same_places(*old(self), *self);
            }
        }
    }

    /// The score that player `k` reaches when the round's points are added
    /// (zero for a player who is not there).
    pub open spec fn final_score(self, k: int) -> int {
        if 0 <= k < self.players@.len() {
            self.players@[k].score + score_gain(self.players@[k].pond@)
        } else {
            0
        }
    }

    /// Adds the round's points to every score and says how the current
    /// player fares against the other player of a two-player game: 1 for a
    /// win, 0 for a draw, -1 for a loss.
    #[verifier::rlimit(40)]
    #[verifier::spinoff_prover]
    pub fn calculate_win_for_current_player(&mut self) -> (r: i8)
        requires
            old(self).players@.len() <= 2,
            old(self).turn < 2,
            forall|k: int|
                0 <= k < old(self).players@.len() ==> #[trigger] old(self).players@[k].score
                    + score_gain(old(self).players@[k].pond@) <= u16::MAX,
        ensures
            old(self).cards_conserved() ==> final(self).cards_conserved(),
            ({
                let me = old(self).final_score(old(self).turn as int);
                let other = old(self).final_score((old(self).turn + 1) % 2);
                r == (if me == other {
                    0i8
                } else if me > other {
                    1i8
                } else {
                    -1i8
                })
            }),
            final(self).players@.len() == old(self).players@.len(),
            forall|k: int|
                0 <= k < old(self).players@.len() ==> {
                    &&& #[trigger] final(self).players@[k].score == old(self).players@[k].score
                        + score_gain(old(self).players@[k].pond@)
                    &&& final(self).players@[k].hand == old(self).players@[k].hand
                    &&& final(self).players@[k].pond == old(self).players@[k].pond
                },
            final(self).turn == old(self).turn,
            final(self).table == old(self).table,
            final(self).deck@ == old(self).deck@,
            final(self).moves == old(self).moves,
            final(self).ace_sweeps == old(self).ace_sweeps,
            final(self).last_pickup == old(self).last_pickup,
    {
        let p_id = self.turn;
        let other = (self.turn + 1) % 2;
        let mut ps: [u16; 2] = [0, 0];
        let mut i: usize = 0;
        while i < self.players.len()
            invariant
                i <= self.players@.len(),
                self.players@.len() == old(self).players@.len(),
                self.players@.len() <= 2,
                forall|k: int|
                    #![trigger self.players@[k]]
                    0 <= k < i ==> {
                        &&& self.players@[k].score == old(self).players@[k].score
                            + score_gain(old(self).players@[k].pond@)
                        &&& self.players@[k].hand == old(self).players@[k].hand
                        &&& self.players@[k].pond == old(self).players@[k].pond
                    },
                forall|k: int| i <= k < self.players@.len() ==> #[trigger] self.players@[k] == old(self).players@[k],
                forall|k: int|
                    0 <= k < old(self).players@.len() ==> #[trigger] old(self).players@[k].score
                        + score_gain(old(self).players@[k].pond@) <= u16::MAX,
                forall|k: int| 0 <= k < 2 ==> ps@[k] == (if k < i { old(self).final_score(k) } else { 0 }),
                self.turn == old(self).turn,
                self.table == old(self).table,
                self.deck@ == old(self).deck@,
                self.moves == old(self).moves,
                self.ace_sweeps == old(self).ace_sweeps,
                self.last_pickup == old(self).last_pickup,
            decreases self.players@.len() - i,
        {
            let ghost before = self.players@;
            assert(before[i as int] == old(self).players@[i as int]);
            let sc = self.players[i].calculate_score();
            assert(self.players@[i as int].score == old(self).players@[i as int].score + score_gain(
                old(self).players@[i as int].pond@,
            ));
            assert(self.players@[i as int].hand == old(self).players@[i as int].hand);
            assert(self.players@[i as int].pond == old(self).players@[i as int].pond);
            ps[i] = sc;
            assert forall|k: int| 0 <= k < self.players@.len() && k != i implies #[trigger] self.players@[k] == before[k] by {}
            assert forall|k: int| #![trigger self.players@[k]] 0 <= k < i + 1 implies {
                &&& self.players@[k].score == old(self).players@[k].score + score_gain(
                    old(self).players@[k].pond@,
                )
                &&& self.players@[k].hand == old(self).players@[k].hand
                &&& self.players@[k].pond == old(self).players@[k].pond
            } by {
                if k < i {
                    assert(self.players@[k] == before[k]);
                } else {
                    assert(k == i);
                }
            }
            let ghost done = i + 1;
            i = i + 1;
            assert(i == done);
        }
        assert(i == self.players@.len());
        assert forall|k: int| 0 <= k < old(self).players@.len() implies {
            &&& #[trigger] self.players@[k].score == old(self).players@[k].score + score_gain(
                old(self).players@[k].pond@,
            )
            &&& self.players@[k].hand == old(self).players@[k].hand
            &&& self.players@[k].pond == old(self).players@[k].pond
        } by {
            assert(k < i);
        }
        proof {
            if old(self).cards_conserved() {
                assert forall|k: int| 0 <= k < self.players@.len() implies {
                    &&& (#[trigger] self.players@[k]).hand@ == old(self).players@[k].hand@
                    &&& self.players@[k].pond@ == old(self).players@[k].pond@
                    &&& self.players@[k].wf()
                } by {
                    assert(k < i);
                    assert(self.players@[k].score == old(self).players@[k].score + score_gain(
                        old(self).players@[k].pond@,
                    ));
                    assert(old(self).players@[k].wf());
                }
                lemma_same_places(*old(self), *self);
            }
        }
        assert(ps@[p_id as int] == old(self).final_score(p_id as int));
        assert(ps@[other as int] == old(self).final_score(other as int));
        if ps[p_id] == ps[other] {
            0
        } else if ps[p_id] > ps[other] {
            1
        } else {
            -1
        }
    }

    /// Whether the game is over: every hand is empty and so is the deck.
    pub fn over(&self) -> (r: bool)
        requires
            self.wf(),
        ensures
            r == (self.hands_empty() && self.deck@.len() == 0),
    {
        let mut over = true;
        let mut i: usize = 0;
        while i < self.players.len()
            invariant
                self.wf(),
                i <= self.players@.len(),
                over == forall|k: int| 0 <= k < i ==> (#[trigger] self.players@[k]).hand@.len() == 0,
            decreases self.players@.len() - i,
        {
            assert(self.players@[i as int].wf());
            let e = self.players[i].hand.len() == 0;
            over = over && e;
            i = i + 1;
        }
        over && self.deck.len() == 0
    }

    /// The game loop's decision in this state: the game is over when every
    /// hand and the deck are empty; a new round is dealt when every hand is
    /// empty but the deck is not; otherwise the player whose turn it is moves.
    pub open spec fn next_step(self) -> Step {
        if self.hands_empty() {
            if self.deck@.len() == 0 {
                Step::Finished
            } else {
                Step::Dealt
            }
        } else {
            Step::Ask(self.turn as usize)
        }
    }

    /// Takes the game loop's decision (see `next_step`): deals a new round
    /// when every hand is empty and the deck is not, and otherwise leaves
    /// the game as it is.
    pub fn step(&mut self) -> (s: Step)
        requires
            old(self).wf(),
            old(self).hands_empty() && old(self).deck@.len() > 0 ==> old(self).deck@.len() >= 3
                * old(self).players@.len(),
        ensures
            s == old(self).next_step(),
            s != Step::Dealt ==> *final(self) == *old(self),
            old(self).history_kept() ==> final(self).history_kept(),
            old(self).in_rhythm() ==> {
                &&& final(self).in_rhythm()
                &&& final(self).turns_left(0) == old(self).turns_left(0)
                &&& final(self).turns_left(1) == old(self).turns_left(1)
                &&& (s == Step::Finished <==> old(self).turns_left(0) == 0 && old(self).turns_left(
                    1,
                ) == 0)
                &&& (s is Ask ==> old(self).hand_len(old(self).turn as int) > 0)
            },
            final(self).wf(),
            old(self).cards_conserved() ==> final(self).cards_conserved(),
            s == Step::Dealt ==> {
                &&& final(self).deck@ == old(self).deck@.take(
                    old(self).deck@.len() - 3 * old(self).players@.len(),
                )
                &&& final(self).players@.len() == old(self).players@.len()
                &&& forall|k: int|
                    0 <= k < old(self).players@.len() ==> {
                        &&& #[trigger] final(self).players@[k].hand.seq() == dealt_hand(
                            old(self).players@[k].hand.seq(),
                            old(self).deck@,
                            old(self).players@.len() as int,
                            k,
                            3,
                        )
                        &&& final(self).players@[k].pond == old(self).players@[k].pond
                        &&& final(self).players@[k].score == old(self).players@[k].score
                    }
                &&& final(self).table == old(self).table
                &&& final(self).turn == old(self).turn
                &&& final(self).moves == old(self).moves
                &&& final(self).ace_sweeps == old(self).ace_sweeps
                &&& final(self).last_pickup == old(self).last_pickup
            },
    {
        proof {
            lemma_hand_lens(*self);
        }
        if self.over() {
            return Step::Finished;
        }
        if self.all_hands_empty() {
            self.deal_users();
            proof {
                if old(self).in_rhythm() {
                    assert(old(self).players@[0].hand@.len() == 0);
                    assert(old(self).players@[1].hand@.len() == 0);
                    assert(self.hand_len(0) == old(self).hand_len(0) + 3);
                    assert(self.hand_len(1) == old(self).hand_len(1) + 3);
                }
            }
            return Step::Dealt;
        }
        proof {
            if old(self).in_rhythm() {
                if self.players@[0].hand@.len() == 0 && self.players@[1].hand@.len() == 0 {
                    assert(self.hands_empty());
                }
            }
        }
        Step::Ask(self.turn)
    }

    /// Ends a game: the cards left on the table go to the pond of the last
    /// player who picked up, in the order the table is walked.
    pub fn end(&mut self)
        requires
            old(self).wf(),
            old(self).table@.len() > 0 ==> old(self).last_pickup < old(self).players@.len(),
        ensures
            old(self).cards_conserved() ==> final(self).cards_conserved(),
            final(self).wf(),
            final(self).table@ == Set::<Card>::empty(),
            final(self).players@.len() == old(self).players@.len(),
            forall|k: int|
                0 <= k < old(self).players@.len() && k != old(self).last_pickup ==> #[trigger] final(self).players@[k]
                    == old(self).players@[k],
            old(self).last_pickup < old(self).players@.len() ==> {
                &&& final(self).players@[old(self).last_pickup as int].pond@ == old(self).players@[old(self).last_pickup as int].pond@
                    + old(self).table.seq()
                &&& final(self).players@[old(self).last_pickup as int].hand == old(self).players@[old(self).last_pickup as int].hand
                &&& final(self).players@[old(self).last_pickup as int].score == old(self).players@[old(self).last_pickup as int].score
            },
            final(self).turn == old(self).turn,
            final(self).deck@ == old(self).deck@,
            final(self).moves == old(self).moves,
            final(self).ace_sweeps == old(self).ace_sweeps,
            final(self).last_pickup == old(self).last_pickup,
    {
        let cards = self.table.to_vec();
        proof {
            self.table.lemma_distinct();
        }
        let lp = self.last_pickup;
        let ghost start = self.table@;
        let ghost base = if lp < self.players@.len() { self.players@[lp as int].pond@ } else { Seq::empty() };
        let mut i: usize = 0;
        while i < cards.len()
            invariant
                i <= cards.len(),
                lp == self.last_pickup,
                cards@ == old(self).table.seq(),
                cards@.no_duplicates(),
                start == old(self).table@,
                forall|c: Card| start.contains(c) <==> cards@.contains(c),
                cards@.len() > 0 ==> lp < self.players@.len(),
                self.wf(),
                old(self).cards_conserved() ==> self.cards_conserved(),
                self.table@ == start.difference(cards@.take(i as int).to_set()),
                self.players@.len() == old(self).players@.len(),
                lp < self.players@.len() ==> {
                    &&& self.players@[lp as int].pond@ == base + cards@.take(i as int)
                    &&& base == old(self).players@[lp as int].pond@
                    &&& self.players@[lp as int].hand == old(self).players@[lp as int].hand
                    &&& self.players@[lp as int].score == old(self).players@[lp as int].score
                },
                forall|k: int|
                    0 <= k < old(self).players@.len() && k != lp ==> #[trigger] self.players@[k]
                        == old(self).players@[k],
                self.turn == old(self).turn,
                self.deck@ == old(self).deck@,
                self.moves == old(self).moves,
                self.ace_sweeps == old(self).ace_sweeps,
            decreases cards.len() - i,
        {
            let x = cards[i];
            proof {
                assert(start.contains(x));
                assert(!cards@.take(i as int).contains(x)) by {
                    if cards@.take(i as int).contains(x) {
                        let t0 = cards@.take(i as int);
                        let k = choose|k: int| 0 <= k < t0.len() && #[trigger] t0[k] == x;
                        assert(cards@[k] == cards@[i as int]);
                    }
                }
            }
            let ghost g0 = *self;
            self.take_card(&x);
            let ghost mid = self.players@;
            self.players[lp].give_pond(x);
            proof {
                let t1 = cards@.take(i + 1);
                let t0 = cards@.take(i as int);
                assert forall|y: Card| #[trigger] t1.to_set().contains(y) <==> (t0.to_set().contains(y) || y == x) by {
                    if t1.contains(y) {
                        let k = choose|k: int| 0 <= k < t1.len() && #[trigger] t1[k] == y;
                        if k < i {
                            assert(t0[k] == y);
                        }
                    }
                    if t0.contains(y) {
                        let k = choose|k: int| 0 <= k < t0.len() && #[trigger] t0[k] == y;
                        assert(t1[k] == y);
                    }
                    if y == x {
                        assert(t1[i as int] == y);
                    }
                }
                assert(self.table@ =~= start.difference(t1.to_set()));
                assert(self.players@[lp as int].pond@ =~= base + t1);
                assert forall|k: int| 0 <= k < self.players@.len() && k != lp implies #[trigger] self.players@[k] == mid[k] by {}
                assert forall|k: int| 0 <= k < self.players@.len() implies #[trigger] self.players@[k].wf() by {
                    if k != lp {
                        assert(mid[k].wf());
                    }
                }
                if old(self).cards_conserved() {
                    assert(self.players@ =~= g0.players@.update(lp as int, self.players@[lp as int]));
                    lemma_table_to_pond(g0, *self, lp as int, x, self.players@[lp as int]);
                }
            }
            i = i + 1;
        }
        proof {
            assert(cards@.take(i as int) =~= cards@);
            assert(self.table@ =~= Set::<Card>::empty());
        }
    }
}

} // verus!
