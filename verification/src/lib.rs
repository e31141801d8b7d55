//! Protocol core of an asynchronous I/O ring.
//!
//! A caller queues file operations (read, write, vectored read, stat, open,
//! cancel) without blocking, each under a correlation tag of its choice, and
//! later collects their results in bulk, as completion records in a fixed
//! binary layout.
//!
//! This crate is the part of such a ring that decides. It encodes the
//! entries, keeps the bounded submission queue, owns the storage that the
//! kernel reads while an operation runs, and writes the completion records.
//! It performs no I/O and never sleeps: a driver hands the batches of
//! entries to the kernel ring, polls the completion queue when a harvest
//! tells it to, and offers what it found.
//!
//! - [`entry`]: the operation encoder.
//! - [`gate`]: the submission gate, a bounded queue of entries.
//! - [`tracker`]: the auxiliary resource tracker.
//! - [`ring`]: the ring handle and its operations.
//! - [`harvest`]: the completion harvester, peek and await.
//! - [`wire`]: completion records and their layout.
//! - [`laws`]: what holds across several calls.
//! - [`platform`]: what is taken on trust from the platform crates.
//! - [`error`]: why a call is refused.

pub mod entry;
pub mod error;
pub mod gate;
pub mod harvest;
pub mod laws;
pub mod platform;
pub mod ring;
pub mod tracker;
pub mod wire;
