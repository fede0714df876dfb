# scopa_fish

The rules and state of Scopa, the Italian fishing card game played with a
forty-card deck, as a library whose behaviour is stated in contracts and
proved with Verus.

## Layout

- `src/card.rs`: suits, values and cards; reading them from text, their
  numbers (0 to 39) and their six-bit codes.
- `src/encoding.rs`: packing lists of cards into two 128-bit words and
  reading them back.
- `src/sort.rs`: ordering cards by value, then suit.
- `src/card_set.rs`: a set of distinct cards (hands and the table).
- `src/moves.rs`: moves: a card put down, or a card that picks up cards.
- `src/player.rs`: a player's hand, pond and score, and the points of a
  round.
- `src/game.rs`: the state of a game, the steps that change it, and the
  game loop's decision (deal, ask a player, or finish).
- `src/movegen.rs`: the moves open to the current player, and playing a
  move after checking it.
- `src/conservation.rs`: every card is always in exactly one place, and a
  move never creates, loses or duplicates a card.
- `src/command.rs`: reading a typed line as a move.
- `src/turns.rs`: how many moves each player is still to be asked for, and
  how a run of the game loop uses them up (eighteen each in a full game).
- `src/points.rs`: how the points of a finished round are shared between
  the two players.
- `src/features.rs`: what the current player sees, as flags over the cards.
- `app/`: a game between two players at the terminal (with `app/guards.rs`
  testing what each library call asks before making it), the floating-point
  move heuristics, and the network-guided search player (which needs the
  `burn` crate).
