//! Decoder for BSV3 sprite-animation containers and their raw texture files.
//!
//! The crate is verified with Verus. The contracts say which bytes a call
//! consumes, what it returns and when it fails; `ea::layout` holds the
//! grammar of the container that the reader is proved against, and
//! `ea::laws`, `ea::truncation` and `ea::encoding` what follows from it.
//! One thing is taken on trust: that `String::from_utf8` accepts exactly
//! well-formed UTF-8 and returns the text it encodes.
//!
//! Numbers that the files store as 32-bit IEEE 754 are kept as their bit
//! patterns; `f32::from_bits` gives the number.

pub mod ea;
