//! Ownership-transfer types for values that cross a C-style boundary between
//! a garbage-collected host and native code: byte buffers, sequences of
//! buffers, key/value entries, a string map the host fills in, and a
//! cancellation token.
pub mod buffer;
pub mod kv;
pub mod map;
pub mod token;
