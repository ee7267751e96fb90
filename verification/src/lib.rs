//! A catalog/metadata library for a game-library service.
//!
//! The heart of the crate is the temporal tag-association engine: an
//! append-only ledger of tag additions and removals per project, with
//! current-state and as-of queries, and a batch coordinator that applies
//! a set of additions and removals atomically.

pub mod catalog;
pub mod config;
pub mod db;
pub mod discourse;
pub mod laws;
pub mod model;
pub mod order;
pub mod publishers;
pub mod server;
pub mod tags;
pub mod users;
