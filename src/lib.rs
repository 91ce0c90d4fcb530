//! Core of a desktop file-search engine for NTFS volumes.
//!
//! - `usn`, `changes`: decoding the packed records that MFT enumeration and
//!   change-journal reads return, and turning them into index changes.
//! - `paths`, `pack`: full paths for an enumeration, with excluded subtrees
//!   and extensions left out (`filter`, `rules`), and the packed scan format.
//! - `search_index`, `index_laws`: the per-volume index with tombstones and
//!   its prefix, substring, extension and mtime queries.
//! - `search_syntax`, `commands`, `export`: the query syntax, the filters,
//!   the per-volume search step and the CSV text of results.
//! - `persist`, `blob`: persisted index and directory-cache files, valid for
//!   one change-journal epoch.
//! - `tracker`: applying planned changes to an index.
//! - `index_engine`: a simple flat engine searched by several keywords.
//! - `config`: the window settings.
//!
//! Everything here computes over plain values; the platform calls, threads
//! and files live with the caller.

pub mod text;
pub mod filter;
pub mod rules;
pub mod search_index;
pub mod index_laws;
pub mod search_syntax;
pub mod commands;
pub mod usn;
pub mod changes;
pub mod paths;
pub mod persist;
pub mod config;
pub mod blob;
pub mod tracker;
pub mod index_engine;
pub mod pack;
pub mod export;
