//! Typed collections over one ordered key-value store.
//!
//! Maps, sets, lists, sorted lists and sorted sets share a single flat
//! keyspace. Each logical key owns a metadata record and a run of item
//! records; the byte layout of the keys makes the store's own order the
//! order of the items.
//!
//! The modules, from the ground up:
//!
//! - `lex` and `bigendian`: the bytewise order, and the integers whose
//!   encodings keep their order under it.
//! - `codec` and `meta`: the layout of the keys and of the metadata record.
//! - `store` and `mem_store`: what is asked of the store, and a store in
//!   memory that provides it.
//! - `model`: what a database is as a mathematical value, and when it is
//!   consistent.
//! - `scan`: walks over the records that share a prefix.
//! - `database`, `browse`, `each`, `map_set`, `list`, `sorted_list`,
//!   `sorted_set`, `sorted_set_range`: the operations.
//! - `laws` and `list_laws`: what holds of the operations together.
//!
//! Every operation is verified against a function that says, for a
//! consistent database, what the operation leaves behind and hands back.
//! Three things are taken on trust, each behind a small function in `codec`
//! or `error`: that `bytes::BytesMut::put_slice` appends, that
//! `String::from_utf8` accepts exactly the well-formed UTF-8, and that
//! `format!` gives some text. A store that lives outside the verifier, such
//! as one on disk, is trusted to behave as `store::KvStore` says.

pub mod lex;
pub mod bigendian;
pub mod codec;
pub mod meta;
pub mod store;
pub mod mem_store;
pub mod model;
pub mod error;
pub mod scan;
pub mod database;
pub mod browse;
pub mod each;
pub mod map_set;
pub mod list;
pub mod sorted_list;
pub mod sorted_set;
pub mod sorted_set_range;
pub mod laws;
pub mod list_laws;

pub use database::{Database, Options};
pub use error::Error;
pub use mem_store::MemStore;
pub use meta::{KeyMeta, KeyType};
pub use store::{KvStore, StoreError};
