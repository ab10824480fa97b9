//! Verified core of a small interactive shell.
//!
//! The crate covers the logic that turns one raw input line into a
//! structured execution request, the builtin command registry with its
//! directory stack, the filesystem-completion engine's ranking and
//! filtering rules, and the reporting rules for child-process outcomes.
//! All input/output (line editing, spawning, directory listing) lives in
//! the surrounding unverified binary, which hands this crate plain values.

pub mod builtins;
pub mod classify;
pub mod completion;
pub mod launch;
pub mod strutil;
