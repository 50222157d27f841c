//! Core of a resumable batch file fetcher.
//!
//! The library holds the decision logic of the fetcher: the per-file
//! transfer state machine (skip, resume, restart), the retry controller
//! with exponential backoff, the bounded-concurrency scheduler, the
//! durable progress store with its JSON record codec, and the catalog's
//! line format. All of it is verified; the surrounding process (HTTP
//! requests, file handling, progress display) lives outside and feeds
//! the library plain values.

pub mod catalog;
pub mod codec;
pub mod models;
pub mod retry;
pub mod scheduler;
pub mod selection;
pub mod store;
pub mod transfer;
