//! A codec for the ASN.1 Distinguished Encoding Rules (DER).
//!
//! The crate turns typed in-memory values into canonical tag-length-value
//! (TLV) byte streams and back.  It holds the tag algebra, a zero-copy TLV
//! parser, a TLV writer, a fixed-capacity `OBJECT IDENTIFIER` codec, and a
//! table-driven schema layer that maps records and tagged unions onto
//! deterministic sequences of TLV reads and writes.

pub mod tag;
pub mod errors;
pub mod base128;
pub mod decimal;
pub mod object_identifier;
pub mod tlv;
pub mod parser;
pub mod writer;
pub mod schema;

pub use errors::{ParseError, ParseErrorKind};
pub use object_identifier::ObjectIdentifier;
pub use parser::{parse_tlv, Parser, Tlv};
pub use tag::{explicit_tag, implicit_tag};
pub use writer::Writer;
