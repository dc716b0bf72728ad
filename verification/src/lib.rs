//! A codec for TPK, a compact self-describing tag-length-value format.
//!
//! A TPK stream is a sequence of typed elements: markers, folders,
//! collections, numbers, booleans, strings and blobs. A marker names the
//! elements that follow it; together they make an entry.
//!
//! - [`model`] has the elements and the tag byte of each.
//! - [`wire`] states the format: the bytes of an element, and what bytes say.
//! - [`write`] has the encoder and [`read`] the decoder, both on memory; the
//!   decoder can be fed piece by piece, and says what it misses.
//! - [`laws`] proves what holds of the two together.
//! - [`trusted`] lists what is believed of `std` and `byteorder`.
//!
//! A number with a fractional part is held by its IEEE-754 bits, as the wire
//! holds it.

pub mod laws;
mod lemmas;
pub mod model;
pub mod read;
pub mod trusted;
pub mod wire;
pub mod write;

pub use model::{Element, Entry};
pub use read::Reader;
pub use write::Writer;
