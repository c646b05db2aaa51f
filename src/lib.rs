//! Load-path resolution for an embedded interpreter's virtual filesystem.
//!
//! - `path`: resolving a path against a working directory, with `.` and `..`
//!   removed, under POSIX or Windows conventions.
//! - `slashes`: host separators rewritten as the canonical `/`.
//! - `registry`: the paths already required.
//! - `memory`: sources and extension hooks held in memory; `require` runs an
//!   entry at most once, `load` every time.
//! - `hybrid`: a reserved root in memory, everything else on the host.
//! - `search`: an ordered list of host roots; the first that holds a path wins.
//! - `error`: error types.
//!
//! Running a source or a hook, and reading the host, are the caller's work:
//! the stores decide what is to run and the caller records a success.

pub mod error;
pub mod hybrid;
pub mod memory;
pub mod path;
pub mod registry;
pub mod search;
pub mod slashes;
