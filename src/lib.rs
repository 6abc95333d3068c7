//! A schema-driven decoder for the protocol-buffers wire format that keeps
//! track of field presence, oneof selection and default values the way the
//! proto2 and proto3 dialects define them.
pub mod wire;
pub mod schema;
pub mod decode;
pub mod access;
pub mod laws;
pub mod samples;
pub mod encode;
pub mod round_trip;
