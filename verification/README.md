# zns_resolver

A ZcashName (ZNS) resolver: it watches the chain for name notes, verifies each
note's binding against its on-chain commitment, folds the results into an index
keyed by name, and answers queries over JSON-RPC. A resolver can be stale or
omit, but cannot forge a binding: what it records passed the commitment check,
and the library proves it.

## Layout

- `src/` is the library, verified with Verus.
  - `kernel`, `memo`, `verify`: lifecycle actions, the chain rule, the memo
    grammar, and binding verification.
  - `observe`, `sync`, `decrypt`, `orchard`, `callback`: what a scan finds, and
    how the scan loops decide.
  - `index`, `names`, `registry`: three stores, each with the invariant that its
    operations keep. `log`, `table`, `order` and `store` are what they share.
  - `merkle`, `encoding`: proof material.
  - `http`, `jsonrpc`: the answers of the JSON-RPC methods.
- `tests/` runs the library on concrete values, with the real cryptography.
- `app/` is the program around it: the command line, SQLite, lightwalletd, the
  validator's JSON-RPC, and the servers.

## What is proved

- Every recorded event extends its name's chain: its opening is derived from the
  transition and the predecessor that the name's tip calls for, and its
  commitment is a note's commitment under that opening. Batches and rewinds keep
  this.
- Nothing is forged: every event comes from a note of its batch that passed the
  check. In the registry every update and release consumed a note of the
  registry's own.
- A note that verifies under the predecessor it discloses but not under the tip
  is reported as evidence of a registry fork, and never recorded.
- A rewind restores the state below the fork, and a rescan of what is recorded
  changes nothing.
- A name's history is one hash chain; a stale history is a prefix of a later one.
- A stored Merkle branch leads from its transaction to the block's root.

Cryptography, hashing, key decoding and transaction parsing belong to outside
crates. Each call into one stands in a small function whose contract says what is
claimed of it.

## Usage

```sh
zns-resolve serve --uivk uivk1... [--addr 127.0.0.1:8080] [--birthday <height>]
zns-resolve sync --uivk uivk1...
zns-resolve lookup alice
zns-resolve status
zns-resolve registry [--mainnet] [--ufvk uview1...]
```
