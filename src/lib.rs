//! Flattens a documentation graph of a library's public API into one record
//! per item, with a rendered declaration, and counts what those records carry.

pub mod analyze;
pub mod database;
pub mod denormalize;
pub mod item;
pub mod model;
pub mod render;
pub mod text;

pub use database::{Database, Kind};
pub use denormalize::{Crate, Enum, Function, Impl, Struct, Trait};
pub use item::{Item, ItemKind, Stability};
