//! A compact, self-describing binary wire format for structured records:
//! named fields holding integers, UTF-8 strings, homogeneous lists and
//! nested objects, with a 4-byte header carrying a protocol version, a field
//! count and the total message length. The encoder, the recursive-descent
//! decoder and the format's guarantees (round-trip, truncation safety,
//! version and tag gating, length cross-checks, last-write-wins folding) are
//! all verified against the mathematical wire specification in `wire`.

pub mod decode;
pub mod encode;
pub mod endian;
pub mod laws;
pub mod utf8;
pub mod value;
pub mod wire;
