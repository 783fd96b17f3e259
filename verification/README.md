# atelier_loader

Loads assets with the help of an asset daemon, for use in development environments. The loader keeps
one load per referenced asset and drives it through its life: metadata, dependencies, data, the
engine's own loading, hot reload and unloading.

The library is written in Verus. What each operation does is stated over a mathematical model of the
loader (`src/model.rs`) and proved.

- `src/ids.rs`, `src/state.rs`, `src/fault.rs`: identities, the states of a load, what can go wrong.
- `src/model.rs`: the loader as a mathematical value.
- `src/tables.rs`, `src/channel.rs`: the concurrent hash maps and the channel that the loader uses,
  with what is taken for granted about them.
- `src/storage.rs`: the asset storage, to be implemented by whoever uses the loader.
- `src/data.rs`: the loader's own data and the references to assets.
- `src/walk.rs`, `src/ops.rs`, `src/changes.rs`: advancing loads, following the engine's reports, hot
  reload.
- `src/requests.rs`, `src/responses.rs`, `src/metadata.rs`, `src/assets.rs`: requests to the daemon
  and its answers.
- `src/rpc_loader.rs`: the loader. A round alternates between the loader, which says what is to be
  done next, and its surroundings, which do it.
- `src/laws/`: what holds of the loader as a whole: what every step keeps (`tables.rs`,
  `coherence.rs`, `round.rs`, `flight.rs`, `waiting.rs`), what the storage is told over time
  (`account.rs`), how references move (`references.rs`, `counting.rs`), and what rounds lead to, one
  after the other (`rounds.rs`): what is referenced becomes loaded, however long answers take
  (`loading.rs`, `holding.rs`), and what nobody refers to is given up with all that it depended on
  (`unloading.rs`). `calls.rs` ties rounds to the calls of the loader, and `lifetime.rs` puts it
  together.
- `app/`: runs the loader against a connection to a daemon.
