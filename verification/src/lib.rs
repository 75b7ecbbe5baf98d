//! A crawler core for a line-oriented text menu protocol.
//!
//! The library holds the verified logic of the crawler: the wire codec that
//! turns raw responses into typed menu entries, the entry model with its
//! identity and ordering rules, the traversal driver that accumulates a
//! deduplicated entry set under a boundary policy, and the download planner
//! that relocates unplaceable content into a numbered quarantine area.
//! Opening sockets, writing files and rendering timestamps are left to a
//! thin unverified shell around the library.

pub mod client;
pub mod codec;
pub mod config;
pub mod download;
pub mod io;
pub mod logbuf;
pub mod text;
pub mod types;

pub use client::Client;
pub use config::CliArgs;
pub use io::{Request, ResponseBuilder};
pub use logbuf::{wipe_log, LogBuffer};
pub use types::{Item, ItemV, Referer, RefererV};
