//! The logic of a file watching service: a daemon that keeps what is known of
//! watched directories in memory and answers queries on them, and the client that
//! talks to it.
//!
//! Values travel in a binary encoding (`bser`) or as JSON (`json`), framed on a
//! stream by `protocol`. What is known of a root is a `tree`, which crawls and the
//! events of the backends (`watcher`, `fanotify`, `fsevents`, `windows_watcher`)
//! keep up to date; `query` selects files from it, and `cookie` tells when it has
//! caught up. `daemon` and `client` decide what each side does next. The program
//! around this library does what they ask of the system.

pub mod bser;
pub mod client;
pub mod config;
pub mod cookie;
pub mod daemon;
pub mod fanotify;
pub mod fsevents;
pub mod json;
pub mod numbers;
pub mod paths;
pub mod protocol;
pub mod query;
pub mod text;
pub mod tree;
pub mod value;
pub mod watcher;
pub mod windows_watcher;
