//! A small task-tracking library: task records with a structured header
//! and a free-form body, a verified codec for their on-disk text format,
//! and verified resolution of the per-repository storage directory.
//!
//! The codec round-trips: decoding an encoded well-formed record restores
//! it field for field, and re-encoding what was decoded gives the same
//! text back. The directory-name sanitizer provably leaves no unsafe
//! character, no edge dot, and no dot pair in its output.

pub mod task;
pub mod tags;
pub mod codec;
pub mod sanitize;
pub mod project;
pub mod record;
