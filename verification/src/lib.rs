//! Compute shortened file names that fit a byte-length budget.
//!
//! The engine takes a path as the raw bytes the operating system hands out,
//! finds its final component, and cuts that component down to a byte limit:
//! without splitting a multi-byte character when the name is valid text, and
//! keeping a single trailing extension where one exists.  It performs no I/O;
//! a caller walks the filesystem and applies the renames.

pub mod laws;
pub mod name;
pub mod trunc;
pub mod utf8;
