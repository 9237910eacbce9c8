# pumpkin_logic

The rules of the Pumpkin Minecraft server that can be stated and proved,
written in Verus:

- `src/snbt_operations.rs` — the built-in SNBT operations `bool(..)` and
  `uuid(..)`, and the Java-style UUID parser behind `uuid(..)`.
- `src/pump.rs` — the "pump" region file: region addressing of chunks, the
  ordered table of serialized chunks, the NBT layout of a region and its
  Zstandard compression (through `ruzstd`).
- `src/wit_types.rs` — the mapping of Rust API types to WIT types for plugins,
  and when a generated WIT file is written again.
- `src/villager.rs` — a villager's food, profession data, trade offers (chosen
  at random through `rand`), its gossips, what an interaction with it leads
  to, and its saved data.
- `src/decimal.rs`, `src/text.rs` — decimal text of integers and text helpers.

`app/` holds the code around the library: converting `syn` types and
`wit_encoder` types, reading and writing files, and handing chunks between a
region and the chunk data of the world.
