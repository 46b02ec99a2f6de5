# ecs

An Entity Component System whose data structures and scheduling rules are verified with Verus.

Component types are identified by their `TypeId`, and every store holds its component values
as one carrier type `C` chosen by the user (an enum of the game's component types, say).

## Layout

- `src/` — the verified library.
  - `world.rs`: the world, its archetypes of entities and the moves of entities between them
    when components are added or removed; its view is a map from entity to its components.
  - `archetypes.rs`: an archetype, which stores the components of entities with the same set
    of component types, aligned by index.
  - `query.rs`: cursors that hand out, entity by entity, the components (`Read`, `Write`) or
    entities of a list of archetypes, and the iterator of a query over one parameter.
  - `filter.rs`: `With`, `Not`, `And`, `Or`, `Xor` filters over archetype sets.
  - `access.rs`, `precedence.rs`: which components a system reads or writes, and the order
    that follows between two systems.
  - `dag.rs`, `scheduler.rs`: the dependency graph of systems and the staging of systems that
    may run together.
  - `schedule.rs`: the `Unordered` and `Linear` schedules, the sequential executor's tick, and
    the tick bookkeeping of the thread pool.
  - `commands.rs`: the commands a system queues, sorted by kind for playback.
  - `application.rs`, `systems.rs`, `segment.rs`: the application, the system trait and the
    units of work handed to threads.
  - `table.rs`, `column.rs`, `sparse_set.rs`, `sparse_data_storage.rs`, `archetype_graph.rs`,
    `archetype_storage.rs`: alternative component stores.
  - `names.rs`, `type_key.rs`: ordering of names and handling of `TypeId`s.
- `tests/` — tests of the library.
- `app/` — what runs around it: errors that implement `std::error::Error`, type names of Rust
  types, the command channels, the sequential executor's loop, the executors that run systems
  on rayon's thread pool, and the work-stealing thread pool.
