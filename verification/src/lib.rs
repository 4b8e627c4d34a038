//! A durable key-value map: an in-memory store whose mutations are kept as an
//! append-only log of length-prefixed records.
//!
//! - [`op`]: the operations a store records and the errors it reports.
//! - [`record`]: the framing of the log, written and read back.
//! - [`replay`]: folding the operations of a log into a map.
//! - [`batch`]: the writer's pending batch.
//! - [`store`]: the store itself.
//! - [`dataset`]: a named store of sets of values.
//! - [`durability`]: what survives closing and reopening.
//! - [`channel`]: the channel that carries operations to the writer.

pub mod batch;
pub mod channel;
pub mod dataset;
pub mod durability;
pub mod op;
pub mod record;
pub mod replay;
pub mod store;

pub use dataset::DataSet;
pub use op::{Op, StoreErr};
pub use store::StorageMap;
