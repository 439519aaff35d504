//! An encrypted key-value storage engine: entries are organized by profile,
//! category and name, optionally tagged with searchable metadata, with
//! time-based expiry, paginated scanning and database-backed advisory locking.
//!
//! The engine keeps its record, lock and cursor state as plain data with
//! proved invariants; a driver around the library performs the actual
//! database round trips using the SQL text that [`query`] produces.

pub mod cipher;
pub mod error;
pub mod keycache;
pub mod locks;
pub mod query;
pub mod scan;
pub mod store;
pub mod types;
