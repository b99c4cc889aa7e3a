//! A verified core for a `server.properties` editor: a key/value store kept
//! in ascending key order, a parser for the line-oriented `key=value` file
//! format, and a deterministic renderer that writes the store back with a
//! comment header.

pub mod codec;
pub mod laws;
pub mod store;
pub mod text;
