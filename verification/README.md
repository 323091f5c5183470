# f45_engine

A verified engine for the card game 45s (Forty-fives): cards and their
ranking, the legal-play rules, trick resolution, and the hand state machine
from the deal through bidding, trump declaration, discards (with the
6-player dealer extra draw), five tricks of play, and scoring, over as many
hands as a game lasts.

Layout:

- `src/` is the library, written and proved with Verus.
  - `cards.rs`: suits, ranks, cards, card codes and their parsing, the deck.
  - `ranker.rs`: trump membership, top trumps, card strength.
  - `rules.rs`: trick winner and legal plays.
  - `state.rs`: `GameState`, its mathematical model `GameModel`, the
    transition function `step` that `apply` implements, dealing and scoring.
  - `laws.rs`: properties spanning the operations (the state invariant kept
    by every move and deal, legal actions against accepted moves, scoring).
  - `text.rs`, `error.rs`: string normalisation and engine errors.
- `tests/`: scenario and unit tests run against the compiled library.
- `app/`: the Python module (PyO3) exposing `GameState` with string card
  codes and labels.
