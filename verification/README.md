# fab

A simulatable subset of the Flesh and Blood trading card game for the Aurora
(Runeblade / Lightning) card pool, written in Verus: every function of the
library in `src/` carries a contract that Verus proves. The crate embeds a
sample of the pool's card records, not the whole pool; `CardDb::from_tsv_text`
loads a full export, and the command-line tools read one from the file named by
the `FAB_CARDS` environment variable.

- `src/text.rs`, `src/types.rs`, `src/card.rs`, `src/db.rs` — card records
  (tab-separated text), the card model and the card database.
- `src/deck.rs` — the sample Aurora deck and the combat-dummy target.
- `src/rng.rs` — the seeded generator and its shuffle.
- `src/game.rs`, `src/agents.rs` — the rules engine, stated as plain-value
  functions (`GameModel`), and the baseline agents; the laws of the engine
  (determinism, legality of ending the turn, life never rising, cards never
  created or lost, `dominate` blocks) are proof functions there.
- `src/series.rs`, `src/simulate.rs` — batches of games between two decks, and
  the simulator's tally of wins, draws and game lengths. Each batch function
  that needs its games to finish has a `try_` form that returns `None` instead
  (built on `Game::try_run`).
- `src/optimize.rs`, `src/climb.rs` — the deck optimizer's palette, builds and
  swaps, and the hill climb over swaps with its local-optimum guarantee.
- `app/` — the command-line tools (`fab sim`, `fab train`, `fab optimize`) and
  the floating-point linear policy they train.
