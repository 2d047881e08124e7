//! A deduplicating, encrypted backup repository: its bundle database, its
//! snapshot files, its retention rules and its keyring.
pub mod backup;
pub mod bundle_map;
pub mod chunk_cache;
pub mod db;
pub mod keyring;
pub mod retention;
pub mod stats;
pub mod walk;
