//! Storage and block-ingest core of a node for a sharded blockchain.
//!
//! The crate holds the rules by which blocks are grouped into archives,
//! collected as garbage and accepted from broadcasts, and the reference
//! counted store of the cells that block and state bodies are made of. Every
//! function states what it computes over plain values; reading from and
//! writing to the key-value engine is left to the caller, who hands rows in
//! and receives write batches.
//!
//! - [`bytes`], [`table`], [`batch`]: integers in rows and keys, the map that
//!   transactions and in-memory columns are kept in, and write batches.
//! - [`refcount`], [`cell`], [`cell_storage`]: the rows of the cell column,
//!   the serialized form of a cell, and the walks that store and remove
//!   trees of cells. [`cell_laws`], [`cell_closed`], [`cell_closure`] and
//!   [`cell_round_trip`] state what holds of the store over whole
//!   operations and over any run of them.
//! - [`block_id`], [`block_handle`], [`package_entry_id`]: block identities,
//!   the flags of a block and the keys of its stored parts.
//! - [`archive_package`], [`archive_ids`], [`archive_manager`]: archives and
//!   their segments, the index of archive ids, and the manager that moves
//!   blocks into archives and collects what is no longer needed.
//! - [`shard_client`]: the decisions of the block walkers and of the
//!   broadcast handler.
//! - [`shard_state_cache`]: a cache of shard states.

pub mod archive_ids;
pub mod archive_manager;
pub mod archive_package;
pub mod batch;
pub mod block_handle;
pub mod block_id;
pub mod bytes;
pub mod cell;
pub mod cell_closed;
pub mod cell_closure;
pub mod cell_laws;
pub mod cell_round_trip;
pub mod cell_storage;
pub mod package_entry_id;
pub mod refcount;
pub mod shard_client;
pub mod shard_state_cache;
pub mod table;
