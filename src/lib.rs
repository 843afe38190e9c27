//! An append-only, single-file key-value store.
//!
//! Records are framed with their header at the tail, so that a heap can be
//! read backwards, newest record first, without an index. The library holds
//! the framing, the reverse chunked scan and the rules of put and get; the
//! caller owns the file and hands the scan the chunks it asks for.
pub mod codec;
pub mod error;
pub mod heap;
pub mod laws;
pub mod log;
pub mod scan;

pub use codec::{
    deserialize, serialize, HeapTuple, MAX_KEY_SIZE, MAX_TUPLE_SIZE, MAX_VALUE_SIZE,
    MIN_TUPLE_SIZE,
};
pub use error::{
    to_errno, DeserializationError, Error, InputError, ERR_DATA, ERR_IO, ERR_KEY_SIZE,
    ERR_NOT_FOUND, ERR_UTF8, ERR_VALUE_SIZE,
};
pub use heap::{encode_put, get_bytes, put_bytes, scan_bytes, Index};
pub use scan::{Iter, Step};
