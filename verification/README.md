# rcc

The core of a Redis-compatible key-value store, written in Verus: every
function in `src/` carries a contract that Verus proves.

- `src/parse`: the RESP2 wire format. A parser from bytes to frames, the
  text a frame prints as, and the bytes a client writes for a command, with
  proofs that what is written is read back.
- `src/db`: the key-value layer. Values (single values, lists, hashes, sets,
  sorted sets), a slot of entries with expiries and its expiration schedule,
  the key-value state, snapshot bookkeeping, and the laws that tie the
  commands together (`src/db/laws.rs`).
- `src/slot`: the slot layer, whose writes carry an id and are applied to a
  slot's dict as commands (`src/slot/cmd`).
- `src/expire.rs`: the expiration schedule of the slot layer.
- `src/utils`: ranges, byte order, decimal numbers, the clock, command
  options and a small verified map.
- `app/`: what is not verified: serde forms of the values, the sharded
  database behind locks, and the tasks that wait for expirations.
- `tests/`: tests on concrete values.

## Collections

The sorted sets and the small maps are the library's own verified
structures (`NodeSet`, `OrderedNodes`, `KeyMap`) rather than calls into
`rpds`. An ordered collection of an outside crate could only be specified here
over items that are integers or tuples of integers, whose order the standard
library documents; the nodes of a sorted set are ordered by score and then by
a text or value name, an order that comes from impls the verifier does not
read, so no contract over `rpds`'s tree could say what order it keeps. Maps
keyed by text or by a derived type hit the same wall. `rpds` stays a
dependency for the tests that exercise its tree directly.

Scores are whole numbers (`i64`): the verifier has no floating point. A score
sum that leaves the range of `i64` is refused up front, and scores with a
fraction are refused where values come in.
