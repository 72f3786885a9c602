# kaspa_atan

A verified library for the accepted-transactions archive node (ATAN) of Kaspa: sparse
Merkle tree proofs over the active lanes of sequencing commitments, and the validation of
chain blocks against their sequencing commitments.

Layout of `src/`:

- `hash`, `bitmap`, `hasher`, `store`: 256-bit keys and their bits, the proof bitmaps, the
  node hashers with the hashes of empty subtrees, and the stores a tree is read from.
- `proof_single`: single-key proofs and the root they imply.
- `proof_multi`: compressed multi-key proofs and the bottom-up computation of their root.
- `tree`: the tree over a store, and the generation of single- and multi-key proofs.
- `smt_laws`, `multi_laws`: the laws that tie generation to verification: a proof generated
  from a store consistent with the tree's root verifies against that root; generating a
  multi-key proof succeeds for distinct sorted keys in the tree, and fails for one absent key
  alone; a multi-key proof of one key is that key's single-key proof in canonical order.
- `seq_commit`: the hash functions of sequencing commitments, from `kaspa_seq_commit`.
- `atan`: the chain blocks an ATAN keeps, their errors, and the validator, with the law that
  a block with transactions and the block with their activity digests commit alike.

`app/` holds what stays outside the verified library: capturing the location of an error,
displayable error types, and conversions from the types of the Kaspa crates.
