# apiforma

The library behind a small multiplayer tile-world game server, verified with
Verus.

- `src/noise.rs`, `src/chunk.rs`, `src/relief.rs`: terrain generation from a
  coordinate hash, chunk loading and the chunk save format, and random relief.
- `src/player.rs`, `src/orb.rs`: positions, inventories, players and orbs.
- `src/world.rs`, `src/rules.rs`: the world (chunks, players, orbs, save
  files) with its model, and the rules by which orbs and players act on it.
- `src/codec.rs`, `src/hc.rs`: the binary message protocol.
- `src/web.rs`: request routing and the login form's fields.
- `app/`: the server itself (files, the tick loop, HTTP and websockets).
- `tests/`: tests on concrete values.
