//! A versioned record format with one-hop schema migration.
//!
//! A record travels as a schema-tagged byte sequence. Decoding dispatches on
//! the tag: a record tagged with the current schema variant is decoded
//! directly, a record tagged with a registered prior variant is decoded and
//! converted through its registered migration edge, and any other tag is
//! rejected. Around this core sit a checksum-verified writer and a validating
//! zero-copy reader.

pub mod codec;
pub mod error;
pub mod flow;
pub mod record;
pub mod write;
pub mod zerocopy;
