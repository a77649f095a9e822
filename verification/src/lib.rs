//! Redistill: an in-memory key-value store that speaks the Redis protocol.
//!
//! [`store::ShardedStore`] holds the keys; [`model::StoreView`] is what its contracts say of it.
//! [`request`] reads requests, [`dispatch`] runs them, and [`resp`] writes the replies.
//! [`eviction`] makes room under a memory limit, [`scan`] walks the keys page by page, and
//! [`snapshot`] turns a store into bytes and back.
//!
//! [`laws`] and [`scan_laws`] state what holds of all this together. [`client`] has the plain terms
//! in which a client sees the store, and in these terms the modules whose names end in `_laws` say
//! what each command, and each operation beside them, is for.
mod chance;
pub mod client;
pub mod clock;
pub mod command;
pub mod digest;
pub mod dispatch;
pub mod entry;
pub mod eviction;
pub mod expiry_commands;
pub mod fields;
pub mod glob;
pub mod hash_commands;
pub mod hash_laws;
pub mod laws;
pub mod limits;
pub mod model;
pub mod number;
pub mod octets;
pub mod option_laws;
pub mod order;
pub mod pool;
pub mod request;
pub mod resp;
pub mod room_laws;
pub mod scan;
pub mod scan_laws;
mod secret;
pub mod server_commands;
pub mod server_laws;
pub mod shard_map;
pub mod size;
pub mod snapshot;
pub mod snapshot_laws;
pub mod stats;
pub mod store;
pub mod store_laws;
pub mod sums;
pub mod text_commands;
pub mod text_laws;
pub mod time_laws;
pub mod walk_laws;
pub mod wire_laws;
