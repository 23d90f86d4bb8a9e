# conflux_logic

Verified core of parameter governance voting, Solidity storage-slot
derivation and trace pairing for the trace RPC.

- `src/word.rs`: 256- and 512-bit unsigned integers as limbs, their value as a
  number, and the arithmetic of `ethereum-types` behind small trusted wrappers.
- `src/params_control.rs`: tallying an account's votes, the storage writes
  that casting them makes, reading them back, settled counts, and the next
  parameter value; the laws about them are proof functions named `law_*`.
- `src/storage_key.rs`: storage keys of the vote records (Keccak-256 through
  `keccak-hash`).
- `src/trace.rs`: pairing calls with results, choosing and placing a
  transaction's traces, epoch checks.
- `src/pool.rs`, `src/block_retrieval.rs`: the pool handler and the block
  retrieval reply.
- `app/`: storage access, the trace handlers over the node's data store, and
  the serializable reply with its delivery.
