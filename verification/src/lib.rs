//! A hierarchical logging core: a tree of named loggers, each with a
//! severity threshold and an ordered list of handler references, both
//! inherited by children at creation time and explicitly propagated to
//! the subtree on mutation.
//!
//! The tree lives in an explicit [`Registry`]; a [`Logger`] is a cheap
//! handle to one node. Logging itself is split from output: `log`
//! decides whether the message passes the node's threshold and returns
//! the ordered fan-out as a [`LogEvent`]; performing the output is the
//! caller's business.
use vstd::prelude::*;

pub mod laws;
pub mod level;
pub mod path;
pub mod registry;

pub use path::{PathError, parse_path, path_segments, split_acc, valid_path};
pub use registry::{LogEvent, Logger, Registry, add_handler, set_level};

verus! {

/// Severity of a log message: an open, ordered integer scale.
pub type LogLevel = i32;

} // verus!
