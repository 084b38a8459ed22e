//! A local, filesystem-based point-in-time backup engine.
//!
//! The verified core: minute-resolution timestamps that name snapshots, the
//! append-only index log, the files-store path mapping, the incremental
//! copy-or-skip decision, input-path validation, and integrity checking.
//! Reading and writing the disk is left to the surrounding program, which
//! feeds plain values (directory listings, file contents, metadata times)
//! into these functions and carries their decisions out.

pub mod backup;
pub mod digits;
pub mod files;
pub mod helpers;
pub mod index;
pub mod paths;
pub mod result;
pub mod snapshot;
pub mod text;
pub mod timestamp;
