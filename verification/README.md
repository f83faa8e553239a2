# apc

The portable core of A.P.C. (Atomic Private Continuum): atomic, encrypted,
user-owned information with deterministic client-side merge, written in Verus
and proved against its contracts.

## Layout

- `src/` — the verified library.
  - identities, canonical byte order and identity sets: `id`, `order`, `idset`, `bytes`;
  - causal graphs and the scalar register with its merge laws: `graph`, `scalar`, `merge`, `state`;
  - working epochs, finalization and exposure bookkeeping, local domains: `working`, `finalization`, `domain`;
  - the durable commit protocol, the record of backend calls and the names of its files: `durability`, `recorded`, `candidate`;
  - authenticated encryption of recovery state and its envelopes: `protection`, `recovery`;
  - recovery images of one domain and of several domains: `image`, `snapshot_codec`, `trusted_state`, `recovery_set`;
  - the decisions of publication, receive, catch-up and resume: `handoff`, `receive`, `catchup`, `resume`, `cycle`;
  - the Android bridge's foreground gate and its probe state: `bridge`, `probe`.
- `tests/` — tests of the library on concrete values.
- `app/` — the parts that do I/O: a file-system durability backend and the JNI
  entry points of the Android bridge.

Laws of the library (merge laws, round trips of every codec, canonical
encodings, finalization idempotence, bounded resume cycles) are public proof
functions next to the functions they speak of.

Register values are byte strings (`Vec<u8>`): the scalar register, its
revisions, working epochs and every type built on them hold values of that
one type, the type every codec and recovery image of the library carries.
