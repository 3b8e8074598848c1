# committer

A verified core of a Starknet Patricia-Merkle tree committer, written in Verus.

Given the tries stored before a block and the block's state diff, the
committer reads the *original skeleton* of each trie (the stored nodes on the
paths to the modified leaves and their siblings), derives the *updated
skeleton*, and computes the *filled tree*: every modified node with its data
and hash, from the leaves up to the root. The forest of a block is the
classes trie, the contracts trie and one storage trie per contract.

Layout:

- `src/` — the library; every function carries a contract that Verus proves,
  except the thin wrappers around outside crates, whose contracts are trusted
  and whose doc comments name the outside function they call.
  - `types`, `node_data`, `bits`, `uint256`, `felt`: node indices, paths,
    field elements and their arithmetic.
  - `original_skeleton`, `config`: reading the original skeleton from storage.
  - `updated_skeleton`: building nodes of the updated skeleton.
  - `filled_tree`, `skeleton_tree`, `hash`: computing hashes and filled trees.
  - `forest`: the tries of a block, and writing them back to storage.
  - `storage`, `filled_node`, `leaf`, `leaf_serde`, `json`: the storage
    layout of nodes and leaves.
  - `deserialization`, `input`, `input_handle`, `io_handle`, `entries`,
    `random`, `stark_felt`, `assoc`: inputs, test data and helpers.
- `tests/` — tests run against the compiled library.
- `app/` — the command-line program and the JSON and file reading around the
  library.
