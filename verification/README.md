# interliquid-sdk (verified core)

The verified core of the InterLiquid SDK, a kit for ZK sovereign rollups,
written in Verus.

- `src/trie`: the nibble Patricia trie that indexes the state keys: nodes and
  their hashes, the search for a leaf's parent, the proofs of the paths to a
  set of leaves (`NibblePatriciaTrieRootPath`: building them, recomputing the
  root, non-inclusion and iteration-completeness checks), the branch
  structure of a set of keys, and (`trie::inclusion`) a model of a trie
  with the law that a proof built from it gives back its root.
- `src/types`: 256-bit integers, decimals, tokens and collections of tokens,
  timestamps and the SDK's error.
- `src/zkp`: the circuits' input builders (block, transaction, transaction
  aggregation, state and keys commitments).
- `src/x`: the auth, bank, crypto and NFT modules' messages and checks,
  among them the verification of a transaction's signers (accounts, nonces,
  keys and P-256 signatures).
- `src/utils`: the ordered byte-keyed map that the library uses everywhere,
  storage keys, and the index updates of an indexed map.
- `app/`: Borsh encodings, the crypto keeper's registry of key decoders, the
  displayable error and the circuits' entry points that serialize their
  inputs.
