//! Verified parts of an image-based OS deployment tool.
//!
//! - [`diff`] classifies every path of a current configuration tree against
//!   its pristine baseline as added, modified or removed, from the
//!   fingerprints that [`tree`] takes of the entries and [`snapshot`] keeps
//!   by path. [`theorems`] states what holds of every diff.
//! - [`kernel_cmdline`] parses kernel command lines.
//! - [`gc`] decides what the garbage collection of an image store deletes.
//!
//! Nothing here touches the system: trees, command lines and listings are
//! handed in as plain values.

pub mod diff;
pub mod digest;
pub mod fingerprint;
pub mod gc;
pub mod kernel_cmdline;
pub mod lex;
pub mod path;
pub mod snapshot;
pub mod theorems;
pub mod tree;
