//! Codec for the length-prefixed, type-tagged text format produced by PHP's
//! `serialize` primitive.
//!
//! The crate converts between the wire format and an in-memory value model
//! ([`value::PhpValue`]): `N;` (null), `b:0;`/`b:1;` (boolean),
//! `i:<int>;` (64-bit signed integer), `d:<decimal>;` (float, kept as its
//! decimal literal), `s:<len>:"<bytes>";` (raw byte string) and
//! `a:<count>:{...}` (array, disambiguated into sequences and mappings by the
//! tag of the first key).
//!
//! Decoding is exposed through [`de::from_bytes`] and the piecewise methods of
//! [`de::PhpDeserializer`]; encoding through [`ser::to_vec`] and
//! [`ser::PhpSerializer`]. The central contracts state that encoding a
//! well-formed value yields exactly the canonical byte string given by
//! [`value::encoding`], and that decoding any byte string that begins with
//! such an encoding returns exactly that value, so round trips are loss-free.

pub mod buffer;
pub mod de;
pub mod digits;
pub mod error;
pub mod reader;
pub mod ser;
pub mod unordered;
pub mod value;
