//! What the current player can see of a game, as flags over the forty cards.

use vstd::prelude::*;

use crate::card::Card;
use crate::game::{last_pickup_index, Game};

verus! {

/// Whether `c` is among the cards of `pond`.
fn pond_contains(pond: &Vec<Card>, c: &Card) -> (r: bool)
    ensures
        r == pond@.contains(*c),
{
    let mut i: usize = 0;
    while i < pond.len()
        invariant
            i <= pond.len(),
            forall|k: int| 0 <= k < i ==> pond@[k] != *c,
        decreases pond.len() - i,
    {
        if pond[i] == *c {
            return true;
        }
        i = i + 1;
    }
    false
}

impl Game {
    /// The other player of a two-player game.
    pub open spec fn opponent(self) -> int {
        (self.turn + 1) % 2
    }

    /// The flag at position `i` of `state_flags`.
    pub open spec fn state_flag(self, i: int) -> bool {
        let me = self.players@[self.turn as int];
        let other = self.players@[self.opponent()];
        if i < 40 {
            self.table@.contains(Card::at_index(i))
        } else if i < 80 {
            me.hand@.contains(Card::at_index(i - 40))
        } else if i < 120 {
            me.pond@.contains(Card::at_index(i - 80))
        } else if i < 160 {
            other.pond@.contains(Card::at_index(i - 120))
        } else {
            self.last_pickup == self.turn
        }
    }

    /// What the current player sees, card by card in card-number order: the
    /// cards on the table (flags 0 to 39), in their hand (40 to 79), in their
    /// pond (80 to 119) and in the other player's pond (120 to 159); then
    /// whether they were the last to pick up (flag 160).
    pub fn state_flags(&self) -> (r: Vec<bool>)
        requires
            self.wf(),
            self.turn < self.players@.len(),
            self.opponent() < self.players@.len(),
        ensures
            r.len() == 161,
            forall|i: int| 0 <= i < 161 ==> r@[i] == self.state_flag(i),
    {
        let turn = self.turn;
        assert(turn < self.players.len());
        let other = (self.turn + 1) % 2;
        assert(self.players@[turn as int].wf());
        let mut out: Vec<bool> = Vec::new();
        let mut part: usize = 0;
        while part < 4
            invariant
                part <= 4,
                turn == self.turn,
                other == self.opponent(),
                self.wf(),
                self.turn < self.players@.len(),
                self.opponent() < self.players@.len(),
                out.len() == 40 * part,
                forall|i: int| 0 <= i < out.len() ==> out@[i] == self.state_flag(i),
            decreases 4 - part,
        {
            let mut n: usize = 0;
            while n < 40
                invariant
                    part < 4,
                    n <= 40,
                    turn == self.turn,
                    other == self.opponent(),
                    self.wf(),
                    self.turn < self.players@.len(),
                    self.opponent() < self.players@.len(),
                    out.len() == 40 * part + n,
                    forall|i: int| 0 <= i < out.len() ==> out@[i] == self.state_flag(i),
                decreases 40 - n,
            {
                let c = Card::from_num(n);
                let f = if part == 0 {
                    self.table.contains(&c)
                } else if part == 1 {
                    self.players[turn].hand.contains(&c)
                } else if part == 2 {
                    pond_contains(&self.players[turn].pond, &c)
                } else {
                    pond_contains(&self.players[other].pond, &c)
                };
                assert(f == self.state_flag(40 * part + n));
                out.push(f);
                n = n + 1;
            }
            part = part + 1;
        }
        out.push(self.last_pickup == turn);
        out
    }
}

/// The last flag says whether the player to move made the last pick-up
/// among the moves played; while no one has picked up, whether it is the
/// first player's move. It holds of every game whose turn and record of the
/// last pick-up agree with its moves, as `Game::new` makes them and as
/// `Game::try_move`, `Game::step` and `Game::init` keep them.
pub proof fn lemma_last_flag(g: Game)
    requires
        g.history_kept(),
    ensures
        g.state_flag(160) == (if last_pickup_index(g.moves@) >= 0 {
            g.mover(last_pickup_index(g.moves@)) == g.turn
        } else {
            g.turn == 0
        }),
{
}

} // verus!
