//! A writer for the PLY polygon file format: a schema of named elements with
//! typed properties, rendered as a text header followed by a payload in
//! ASCII, big-endian or little-endian binary form.
pub mod codec;
pub mod encode;
pub mod model;
pub mod writer;
