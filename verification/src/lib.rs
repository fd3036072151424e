//! The client-side engine of a replicated, offset-addressed stream, together
//! with the byte-level rules of the local offset index that backs a range.

pub mod wire;
pub mod compaction;
pub mod table;
pub mod error;
pub mod request;
pub mod range;
pub mod stream;
pub mod engine;
pub mod index;
pub mod lock;
