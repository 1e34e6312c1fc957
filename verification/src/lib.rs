//! Persistent navigation history for a directory-jumping tool.
//!
//! A spawned process cannot change its parent shell's working directory, so
//! the tool computes a target path, records it on a persistent LIFO stack of
//! navigation entries, and emits the path on a marker line that a thin
//! shell-side wrapper function parses to perform the actual `cd`.
//!
//! This crate holds the verified core: the on-disk record format of the
//! navigation stack with its push / peek / pop / pop-until semantics, the
//! marker-line text protocol, the generated shell-side function text, and the
//! dispatcher that maps a resolved command to stack mutations and emissions.
//! File and console I/O, argument parsing, and the directory search live in
//! the surrounding unverified binary, which hands this crate plain values.

use vstd::prelude::*;

pub mod codec;
pub mod config;
pub mod dispatch;
pub mod entry;
pub mod errors;
pub mod protocol;
pub mod stack;

verus! {

} // verus!
