//! Discovery and aggregation of per-session training records.
//!
//! The library parses loosely structured `Key: Value` record files, expands a
//! platform install root into candidate results directories, filters and
//! parses directory listings against a scenario allow-list, and reduces the
//! parsed records to the best-scoring record per scenario.  All filesystem
//! and registry access is left to the caller, which hands the library plain
//! strings and file contents.

pub mod strutil;
pub mod numparse;
pub mod record;
pub mod scanner;
pub mod aggregate;
pub mod locator;
pub mod facade;
