# Epeletii

The rules of Epeletii, multiplayer Scrabble in the Ibani language, as a
library verified with Verus, and the WebSocket game server built on it.

## Layout

- `src/` — the verified library.
  - `tiles`, `board`: the 170-tile Ibani bag, letter values, the 15×15 board
    and its premium squares.
  - `dictionary`: tone-insensitive word lookup (`strip_tones`).
  - `game`, `draw`, `rack`, `placement`, `scoring`, `play`: the game state
    machine — dealing, the draw for first play, exchanges, move validation,
    scoring and playing a move.
  - `turns`, `session`: what a session decides for each message a player
    sends (turn order, forfeits, resignation, results to record) and what
    clients are shown.
  - `bot`: the seven bot opponents and their move search.
  - `persistence`: saving a game to a snapshot and restoring it.
  - `account`: sign-up, sign-in and password-reset checks, session claims.
  - `text`, `random`: string helpers and the random choices of the game.
- `tests/`: tests of the library.
- `app/`: the server — WebSocket handling, MongoDB storage, JWT, email,
  the SQLite dictionary loader, and the JSON wire format.

Every public function states what it returns and changes in its `ensures`;
the properties that span functions (tile conservation, the round trip of a
saved game, the bot playing only legal moves, and others) are public proof
functions next to the code they speak of.
