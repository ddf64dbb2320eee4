//! An embedded, persistent key-value store with hierarchical path keys.
//!
//! Keys are `/`-separated byte paths and values are opaque byte strings.
//! The store is a small leveled LSM tree: mutations go to an in-memory
//! ordered table and a write-ahead log; flushes turn the table into
//! immutable sorted segments; callers trigger merges between levels.
//! Subtree tombstones and a scalar-parent rule give the key space tree
//! semantics.
//!
//! All deciding and computing logic lives here and is verified. File I/O
//! stays with the caller: mutations queue encoded write-ahead-log bytes and
//! whole segment images, the caller writes them out, and at startup the
//! caller hands the directory's bytes back to [`store::Store::open_image`].

pub mod batch;
pub mod bloom;
pub mod compact;
pub mod crc;
pub mod errors;
pub mod laws;
pub mod lifecycle;
pub mod manifest;
pub mod memtable;
pub mod order;
pub mod pattern;
pub mod rec;
pub mod scan;
pub mod segcodec;
pub mod segment;
pub mod store;
pub mod tombs;
pub mod walcodec;
