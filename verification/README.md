# Golf — the card game, verified

Six cards, six turns, nine holes; lowest score wins. This crate is the game's
engine and its online table logic, written in Verus: every function of
`src/` carries a contract that Verus proves, except the few calls into
`rand` in `src/rng.rs` (a seeded shuffle, a shuffle, a random pick, and the
generator's `Clone`), whose contracts are trusted as `rand` documents them.

- `card`, `score`: the deck and the optimal-pairing scorer (proved optimal).
- `state`, `model`, `wellformed`, `apply`: the match state machine, its
  mathematical model and the invariant every accepted action keeps.
- `view`: per-viewer redacted snapshots (proved never to show a hidden card).
- `bot`: the easy bot, and the exact parts of the expected-value bot.
- `protocol`, `names`, `room`: the messages of an online table and the room
  that answers them, one event at a time.
- `rng`: the calls into `rand` that shuffle the deck and pick at random.

`app/` holds what Verus does not see: the JSON forms of the types, the
bots' floating-point evaluation, the in-browser (wasm-bindgen) match and the
axum WebSocket server that drives the rooms.
