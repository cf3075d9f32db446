# sui_logic

Verified decision logic of three Sui components, written in Verus.

- `src/consensus`: the direct and indirect decisions on leader slots over the DAG of blocks
  (`leader_slot_decider`), with the causal history of an anchor (`history`) and what the
  decisions owe each other as blocks arrive (`leader_slot_laws`).
- `src/streaming`: backfill batches and scans (`checkpoint_resume`), the resumable feed of
  checkpoints (`checkpoint_feed`), the transaction and event streams (`subscription`) and the
  messages that end a stream (`messages`).
- `src/decompiler`: the pass that inlines bindings of one variable to another
  (`inline_single_use_bindings`), with what a pass keeps and changes (`inline_laws`).

`app/` holds the services around the library: the decider over the shared state, the streams
over the live broadcast and the ledger, and the GraphQL subscription root. `tests/` runs the
library on concrete values.
