//! A schema-validated decoder for change-data-capture stream envelopes.
//!
//! The wire format is a JSON document holding a `Records` array of stream
//! records, each describing one insert, modify or remove event applied to a
//! source table.  `codec::decode` parses the text, validates it against the
//! fixed schema and returns a typed [`schema::Root`]; `codec::encode`
//! renders an envelope back to its canonical wire text.  The round trip of
//! the two is proved, along with the decoder's error behaviour.

pub mod json;
pub mod parse;
pub mod schema;
pub mod codec;
