//! An embedded, append-only event store over an ordered key-value engine.
//!
//! Events are kept in a `data` partition keyed by position, with forward
//! indexes (descriptor and tag to position) in an `index` partition, and the
//! identifier and tag strings behind each hash in a `reference` partition.
//! Every append is one atomic batch across the three.

pub mod codec;
pub mod engine;
pub mod error;
pub mod model;
pub mod persistence;
pub mod stream;

pub use error::StoreError;
pub use model::{Descriptor, Event, EventView, Identifier, Position, Specifier, Tag, Version};
pub use persistence::{Database, Partitions};
pub use stream::Stream;
