//! A parallel directory-tree walker.
//!
//! The library holds the walk's decisions: how child paths are formed, how a
//! link-stat or a directory listing is interpreted, the work queue that feeds
//! the workers, the termination protocol, and the result store with its
//! path-bytes metric. The threads and the filesystem calls are driven from
//! outside through [`engine::Engine`].
pub mod classify;
pub mod engine;
pub mod path;
pub mod results;
pub mod walker;

pub use classify::{Classification, Listing, StatOutcome, WalkError};
pub use engine::{Action, Engine, Step};
pub use results::WalkResults;
pub use walker::Walker;
