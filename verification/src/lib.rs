//! Storage core of an embedded, disk-backed database engine: a fixed-size
//! page format with a verified codec, a sharded page buffer pool, and a
//! B-link ordered index built on top of it.

pub mod error;
pub mod keys;
pub mod page;
pub mod codec;
pub mod pager;
pub mod blink;
pub mod catalog;
pub mod transaction;
pub mod sql;
