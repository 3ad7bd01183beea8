//! Decides which files under a deployed image's module and firmware trees are
//! still required and which are safe to delete.
//!
//! The crate computes retained sets from plain data: rule texts, an inventory
//! of kernel drivers with their declared dependencies, and a snapshot of the
//! firmware tree (paths, entry kinds, symbolic-link targets). Walking
//! directories, querying module metadata and removing files are left to the
//! caller, which feeds the results back in as values.

pub mod command;
pub mod config;
pub mod driver;
pub mod error;
pub mod firmware;
pub mod strings;
pub mod util;
