# poker_engine

A Texas hold'em training engine, verified with Verus. The hero is dropped into
a hand at a random street against simple bots, acts, and gets the hand's
result, the equity of the hand and a review of each decision.

## Layout

- `src/` — the verified library.
  - `cards.rs`: cards, the ordered deck, card names.
  - `state.rs`: the game state and its mathematical model (`GameModel`).
  - `rules.rs`: seat names, the first actor after the flop, legal actions.
  - `rank.rs`: hand ranking through `rs_poker`, behind one trusted wrapper.
  - `random.rs`: the random draws (`rand`), behind trusted wrappers.
  - `play.rs`: the rules of play as spec functions over `GameModel`.
  - `engine.rs`: applying an action, passing the turn, streets, showdown,
    the bots; each proved equal to its spec.
  - `scenario.rs`: setting up a hand, including the bot-only earlier streets.
  - `equity.rs`: the remaining deck and the Monte Carlo win/tie/loss counts.
  - `view.rs`: what the hero is shown of the other players.
  - `laws.rs`: properties of the engine as a whole (chips kept while a hand
    runs, and at its end all but the odd chips of a split pot; board shown;
    the showdown paying the best hands; the remaining deck and its size; no
    card dealt twice). Control comes back to the hero, or the hand ends,
    whenever the bots stop: a bot move takes one random byte, drawn as it is
    needed, and `apply_action` and `new_game` stop after `BOT_ACTION_LIMIT`
    (2^64 - 1) moves, since two bots with empty stacks can otherwise bet
    nothing at each other forever.
- `tests/` — tests on concrete hands.
- `app/` — the unverified layer: serialisable copies of the types, equity
  percentages, the floating-point decision review and the three commands
  (`new_hand`, `take_action`, `get_equity`).

The logic takes the random parts as values (dice for the bots, a shuffled
deck), so every outcome is proved for every draw; the functions that draw
them state what holds whatever was drawn.
