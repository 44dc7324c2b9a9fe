//! An in-process keyed store (name -> salary) driven by batches of commands.
//!
//! The store keeps its records on a singly linked chain behind one lock and
//! audits every lock transition and operation to an append-only log.  A turn
//! scheduler serializes logically concurrent workers into a total order given
//! by per-command priority.  This crate holds the verified core: the hash
//! function, the chain and its operations, the audit-log bookkeeping and line
//! formatting, and the deterministic batch semantics.  File and thread
//! plumbing lives with the callers.

pub mod commands;
pub mod hash_table;
pub mod logger;
pub mod text;
