# agma

The game logic of a small networked arena game, as a library verified with
Verus, and the server program around it.

## Layout

- `src/` — the verified library.
  - `util.rs`: the ring buffer of recent states, one step of grid path finding.
  - `messages.rs`: messages between players and the server, the tag bytes of
    player messages, the four-byte handshake and its steps, datagram
    compression and decompression (through `bitfield-rle`), and splitting a
    player's datagram into the kind and body of its message.
  - `connection.rs`: the state-difference protocol: the server's side of a
    player connection (which frame to diff against, what the player sent) and
    the client's rebuilding of the world from an update.
  - `components.rs`: the components of an entity.
  - `runes.rs`: the runes that abilities produce, grouped by kind, and their
    resolution against positions and health.
  - `abilities.rs`: ability instances and their channel/recover cycle, the
    library of instances, the movement and auto-attack actions.
  - `world.rs`: the byte framing of component columns and of the replicated
    world, component columns, point queries and teams.
  - `systems.rs`: the decisions of the server's frame: placing characters on
    the grid, what a click makes a champion want, pursuing it, advancing
    abilities, marking dead entities, input windows.
- `tests/` — tests of the library on concrete values.
- `app/` — the program: the entity-component world (columns behind `dyn Any`),
  bincode wire forms of the library's types, the floating-point types, the
  function-pointer libraries of abilities, the loading of skinned glTF meshes
  and their skeletal animation, sockets, threads and the server's frame loop;
  with `client` as argument, a player that joins and keeps the world in sync
  without drawing it.

Each law of the library is a public proof function named `lemma_…`, next to
the functions it speaks of.
