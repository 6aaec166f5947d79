//! PADE: a compact binary encoding for structs, enums, fixed-width integers,
//! flags, optional values and sequences. Flags and enum tags do not get a
//! byte each: the fields of a struct that carry such bits share header
//! bytes, filled from the most significant bit on.
//!
//! The wire format is positional and untyped; the reader knows the layout.
//! `wire` holds the arithmetic of big-endian bytes and the cursor, `codec`
//! the traits of the typed codecs, `primitives` and `domain` the codecs of
//! the integers and of addresses, hashes, byte strings and signatures,
//! `bits` the tag width and the packing of header bits, `layout` the format
//! of composite values as a function on bytes, `planner` the encoder and the
//! decoder that follow it, and `laws` what holds of them together.

pub mod bits;
pub mod codec;
pub mod domain;
pub mod error;
pub mod laws;
pub mod layout;
pub mod planner;
pub mod primitives;
pub mod wire;

pub use bits::tag_bits;
pub use codec::{FixedWidth, PadeDecode, PadeEncode, PadeWidth};
pub use domain::{Address, Bytes, FixedBytes, Signature, Uint, I24, U160, U256};
pub use error::PadeDecodeError;
pub use layout::{Layout, Value};
