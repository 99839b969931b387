# supervisor_schema

The confirmation bookkeeping of a blockchain service supervisor, written in Verus.

- `src/lexicographic.rs`: the lexicographic order on byte strings, strictly sorted
  sequences, binary search, and the sorted listing of a finite set.
- `src/framing.rs`: the length-prefixed framing (eight little-endian length bytes, then
  the item), its decoder, and the proofs that the two undo each other.
- `src/seq_facts.rs`: the set of elements of a sequence after an insertion or removal.
- `src/byte_map.rs`: `ByteMap`, a map from byte-string keys kept in key order.
- `src/digest.rs`: SHA-256 digests.
- `src/binary_set.rs`: `BinarySet`, a set of byte strings kept in order, with its binary
  encoding and hash.
- `src/confirmation_index.rs`: `ConfirmationIndex`, a table from byte-string keys to
  binary sets, with a hash of its contents.
- `src/schema.rs`: `IndexStore`, the confirmation indexes at their addresses, and
  `Schema`, which records which validators confirmed a pending artifact deployment or
  service start in the indexes addressed by the instance name, and the hashes of those
  indexes.
- `app/lib.rs`: a serde-enabled copy of `BinarySet`.

Two collections stand in for others:

- `BinarySet` keeps its elements in a sorted vector rather than in std's `BTreeSet`. vstd
  states what `BTreeSet::insert` and `contains` do only for keys that obey its `cmp`
  laws, which vstd gives for integers and tuples of integers, not for byte vectors, so a
  `BTreeSet` of byte strings would carry no usable contract.
- `ConfirmationIndex` (on `ByteMap`) and `IndexStore` stand in for the proof-map index and
  the database of the service framework, whose crates belong to that framework. The
  hash of an index is therefore a flat SHA-256 digest of its encoding, not the root of a
  Merkle proof map.
