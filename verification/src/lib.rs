//! An in-memory ordered table keyed by `u64`, together with a
//! content-hash synchronization protocol that reconciles such a table
//! against a generic key-value store with as few writes as possible.
//!
//! A [`Table`] maps keys to fixed-width rows under named columns, with
//! optional string metadata; it is built from explicit rows, from
//! keyed records of named fields, or by loading a store.  The store
//! protocol ([`sync`]) serializes everything through one canonical
//! byte encoding ([`codec`]), wraps each payload with the seahash of
//! its encoding ([`db`]), and writes through the narrow [`kv`]
//! interface, so that one verified engine serves every backend.  An
//! update writes exactly the keys whose stored hash differs from the
//! current one and returns them in ascending order.

pub mod codec;
pub mod db;
pub mod enums;
pub mod kv;
pub mod numeric;
pub mod records;
pub mod errors;
pub mod sync;
pub mod traits;
pub mod views;
pub mod table;

pub use db::DbObject;
pub use db::DbTableError;
pub use enums::IndexOrColumn;
pub use kv::BackendError;
pub use kv::KvBackend;
pub use kv::MemStore;
pub use errors::TableError;
pub use errors::TableReadError;
pub use sync::SyncError;
pub use table::Table;
pub use traits::BtreeMapTrait;
pub use traits::TableTrait;
pub use views::Column;
pub use views::IterColumns;
pub use views::IterRows;
pub use views::Row;
