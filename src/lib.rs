//! A flat-file task store: the line codec for task records and the
//! read-modify-write operations over the store's lines.
pub mod text;
pub mod codec;
pub mod laws_codec;
pub mod store;
pub mod laws_store;
pub mod laws_toggle;
