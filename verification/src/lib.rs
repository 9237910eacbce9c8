//! Verified core logic of the Pumpkin Minecraft server: SNBT operations and
//! UUID parsing, the region ("pump") chunk file format, WIT type mapping for
//! plugin code generation, and villager food and trading rules.
pub mod decimal;
pub mod pump;
pub mod snbt_operations;
mod text;
pub mod villager;
pub mod wit_types;
