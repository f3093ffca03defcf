//! The decoding layer: byte cursor, container grammar and pixel formats.

pub mod bsv3;
pub mod encoding;
pub mod file_buffer;
pub mod laws;
pub mod layout;
pub mod num;
pub mod rgb;
pub mod texture;
pub mod truncation;
pub mod wire;
