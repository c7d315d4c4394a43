//! A local task tracker core: tasks are markdown documents with structured
//! front matter, stored in a patch-based version-controlled repository, with
//! a derived relational index for querying.
//!
//! This crate is the verified synchronization layer between the versioned
//! document store and its derived index: document encoding and decoding,
//! id assignment, change-history resolution and the create/update/read/query
//! orchestration. All file, database and clock access lives outside, in the
//! unverified shell, which hands plain values in and out.

pub mod changes;
pub mod cli;
pub mod config;
pub mod error;
pub mod filter;
pub mod ids;
pub mod index;
pub mod kv;
pub mod lines;
pub mod roundtrip;
pub mod strutil;
pub mod codec;
pub mod system;
pub mod task;

use vstd::prelude::*;

verus! {

} // verus!
