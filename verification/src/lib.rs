//! A decoder for bencode, the length-prefixed, self-describing serialization
//! used by BitTorrent metadata.
//!
//! The grammar is stated once as a mathematical function on byte sequences
//! (module `grammar`), and every executable reader is proved to return exactly
//! what that function says.

pub mod value;
pub mod grammar;
pub mod dict;
pub mod decode;
pub mod roundtrip;
pub mod trailing;

pub use crate::decode::{bval, dict, digits, list, num, parse_bencode, string};
pub use crate::grammar::ParseError;
pub use crate::value::BVal;
