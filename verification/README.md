# ssp

Slippi Session Protocol: connects the players of a Slippi game and keeps them
connected while they play on. Peers find each other by the game's random seed,
through a bootstrap server or a distributed hash table, agree on parameters in a
handshake, and exchange messages that are signed and, by default, encrypted with
keys derived from the game's inputs.

## Layout

- `src/` is the library. All of it is verified with Verus.
  - `dolphin` reads Slippi's event stream; `crypter` derives keys from the inputs.
  - `msg` and `packet` are the messages and how they travel in packets.
  - `handshake`, `discovery`, `net` and `game` make up a session.
  - `registry` and `server` are the bootstrap server.
  - `crypto`, `encoding` and `text` are the primitives underneath. The calls into
    outside crates stand in the first two, and nowhere else.
- `tests/` runs the library with the outside crates linked.
- `app/` holds the programs: `client`, `bootstrap` and `dev`. Besides the crates in
  `Cargo.toml` they need `enet`, `distributed-topic-tracker`, `ed25519-dalek` and
  the server of `iroh-relay`.

The guarantees that span several functions are the public proof functions whose
names begin with `law_`.
