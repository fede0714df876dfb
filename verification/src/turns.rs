//! How many moves each player of a two-player game is still to be asked
//! for, and how the game loop uses them up: every move the loop asks for
//! takes one from the player asked, a deal takes none, and the game ends
//! when none are left.

use vstd::prelude::*;

use crate::game::{Game, Step};

verus! {

impl Game {
    /// How many cards player `k` holds.
    pub open spec fn hand_len(self, k: int) -> int {
        self.players@[k].hand.seq().len() as int
    }

    /// How many more moves player `k` of a two-player game will be asked
    /// for: a move for each card in hand, and one for each card of their
    /// half of the deck still to be dealt.
    pub open spec fn turns_left(self, k: int) -> int {
        self.hand_len(k) + self.deck@.len() / 2
    }

    /// A two-player game at a point that the game loop reaches: every card
    /// is in one place, the deck holds whole deals of six cards, and the
    /// second player holds one card more than the first while it is the
    /// second player's turn, as many otherwise.
    pub open spec fn in_rhythm(self) -> bool {
        &&& self.cards_conserved()
        &&& self.players@.len() == 2
        &&& self.turn < 2
        &&& self.deck@.len() % 6 == 0
        &&& self.hand_len(1) == self.hand_len(0) + (if self.turn == 1 {
            1int
        } else {
            0int
        })
    }
}

/// How many of the moves in `who` player `k` made; a deal is written `-1`.
pub open spec fn moves_by(who: Seq<int>, k: int) -> int
    decreases who.len(),
{
    if who.len() == 0 {
        0
    } else {
        moves_by(who.drop_last(), k) + (if who.last() == k {
            1int
        } else {
            0int
        })
    }
}

/// A run of the game loop through the states `gs`, as `Game::step` and
/// `Game::try_move` take it from a game in rhythm: at step `i` the loop
/// either dealt a round (`who[i]` is `-1`), which keeps the game in rhythm
/// and every player's turns left, or asked player `who[i]` for a move and
/// played it, a legal one, which keeps the game in rhythm and takes one turn
/// from that player and none from the other.
pub open spec fn is_run(gs: Seq<Game>, who: Seq<int>) -> bool {
    &&& gs.len() == who.len() + 1
    &&& forall|i: int|
        0 <= i < who.len() ==> {
            ||| {
                &&& #[trigger] who[i] == -1
                &&& gs[i].next_step() == Step::Dealt
                &&& gs[i].in_rhythm() ==> {
                    &&& gs[i + 1].in_rhythm()
                    &&& gs[i + 1].turns_left(0) == gs[i].turns_left(0)
                    &&& gs[i + 1].turns_left(1) == gs[i].turns_left(1)
                }
            }
            ||| {
                &&& 0 <= who[i] < 2
                &&& gs[i].next_step() == Step::Ask(who[i] as usize)
                &&& gs[i].in_rhythm() ==> {
                    &&& gs[i + 1].in_rhythm()
                    &&& gs[i + 1].turns_left(who[i]) == gs[i].turns_left(who[i]) - 1
                    &&& gs[i + 1].turns_left(1 - who[i]) == gs[i].turns_left(1 - who[i])
                }
            }
        }
}

/// In a game in rhythm the loop finishes exactly when no player has a turn
/// left, and asks only the player whose turn it is, who holds a card.
pub proof fn lemma_rhythm_decision(g: Game)
    requires
        g.in_rhythm(),
    ensures
        g.next_step() == Step::Finished <==> g.turns_left(0) == 0 && g.turns_left(1) == 0,
        g.next_step() is Ask ==> g.next_step() == Step::Ask(g.turn as usize) && g.hand_len(
            g.turn as int,
        ) > 0,
        g.turns_left(0) >= 0,
        g.turns_left(1) >= 0,
{
    lemma_hand_lens(g);
    if g.players@[0].hand@.len() == 0 && g.players@[1].hand@.len() == 0 {
        assert(g.hands_empty());
    }
}

/// Over a run of the game loop from a two-player game in rhythm to the end
/// of the game, each player is asked for exactly as many moves as they had
/// turns left at the start: eighteen each from a game that `Game::init` has
/// laid out (see `init`). Every move is asked of the player whose turn it
/// is, who holds a card, in a game that is not over.
pub proof fn lemma_run_asks(gs: Seq<Game>, who: Seq<int>)
    requires
        is_run(gs, who),
        gs[0].in_rhythm(),
        gs.last().next_step() == Step::Finished,
    ensures
        moves_by(who, 0) == gs[0].turns_left(0),
        moves_by(who, 1) == gs[0].turns_left(1),
        forall|i: int|
            0 <= i < who.len() && #[trigger] who[i] >= 0 ==> {
                &&& who[i] == gs[i].turn
                &&& gs[i].hand_len(who[i]) > 0
                &&& gs[i].next_step() != Step::Finished
            },
{
    lemma_run_prefix(gs, who, who.len() as int);
    assert(who.take(who.len() as int) =~= who);
    assert(gs.last() == gs[who.len() as int]);
    lemma_rhythm_decision(gs[who.len() as int]);
    assert forall|i: int| 0 <= i < who.len() && #[trigger] who[i] >= 0 implies {
        &&& who[i] == gs[i].turn
        &&& gs[i].hand_len(who[i]) > 0
        &&& gs[i].next_step() != Step::Finished
    } by {
        lemma_run_prefix(gs, who, i);
        lemma_rhythm_decision(gs[i]);
    }
}

/// The first `j` steps of a run keep the game in rhythm, and each player
/// made as many of their moves as their turns left went down.
proof fn lemma_run_prefix(gs: Seq<Game>, who: Seq<int>, j: int)
    requires
        is_run(gs, who),
        gs[0].in_rhythm(),
        0 <= j <= who.len(),
    ensures
        gs[j].in_rhythm(),
        moves_by(who.take(j), 0) == gs[0].turns_left(0) - gs[j].turns_left(0),
        moves_by(who.take(j), 1) == gs[0].turns_left(1) - gs[j].turns_left(1),
    decreases j,
{
    if j == 0 {
        assert(who.take(0) =~= Seq::<int>::empty());
    } else {
        lemma_run_prefix(gs, who, j - 1);
        let i = j - 1;
        assert(who.take(j).drop_last() =~= who.take(i));
        assert(who.take(j).last() == who[i]);
        if who[i] == -1 {
        } else {
            assert(0 <= who[i] < 2);
        }
    }
}

/// In a well-formed game each hand holds as many cards as its walk.
pub proof fn lemma_hand_lens(g: Game)
    requires
        g.wf(),
    ensures
        forall|k: int|
            0 <= k < g.players@.len() ==> (#[trigger] g.players@[k]).hand@.len() == g.hand_len(k),
{
    assert forall|k: int| 0 <= k < g.players@.len() implies (#[trigger] g.players@[k]).hand@.len()
        == g.hand_len(k) by {
        assert(g.players@[k].wf());
        g.players@[k].hand.lemma_distinct();
    }
}

} // verus!
