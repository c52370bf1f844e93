//! lup library: walks up the directory hierarchy looking for a literal path.
//!
//! The library holds the decisions of the walk, the argument parser and the
//! output format; the probing of the filesystem is left to its caller.

pub mod boundary;
pub mod bytes;
pub mod cli;
pub mod completions;
pub mod output;
pub mod walk;

pub use walk::{
    probe_mode, Boundary, EntryKind, Hit, KindFilter, LupError, ProbeMode, Query, WalkStep, Walker,
};
