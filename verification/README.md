# jetstreamer_plugins

The verified cores of two plugins for a stream of ledger blocks.

- `program_tracking` notes for every account in which epochs transactions read
  it and wrote it. It keeps the ten highest epochs of each kind and counts the
  accesses. `activity`, `top_epochs`, `message`, `epoch`, `checkpoint`, `save` and
  `stored` are its parts.
- `inflation_reward_cost` measures what it costs to read the reward-partition
  blocks of an epoch, and `report` tells the costliest requests under a cap on
  the number of addresses. `block_cost`, `order` and `wire` are its parts.

What the library takes on trust about `dashmap`, `bincode`, `solana_transaction`
and the clock stands in `activity_table`, `stored`, `cost_tables` and `wire`.

`app/` connects the two to the block stream, the file system and the console. It
runs inside the `jetstreamer` workspace, which provides the runner.
