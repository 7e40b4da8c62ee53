//! A single-file, append-mostly key-value store: payloads are chunked into
//! blocks, compressed per logical type, checksummed, chained, and indexed by
//! string key inside one container byte image.
pub mod block;
pub mod codec;
pub mod meta;
pub mod store;
pub mod wire;

pub use block::{BlockHeader, BlockLocation, Timestamp};
pub use codec::{delta_decode, delta_encode, encode_i64_seq, parse_i64_vec};
pub use codec::{CompressionMethod, DataType, StorageError};
pub use meta::MetaData;
pub use store::UniversalStorage;
