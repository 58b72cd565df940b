//! An INI-syntax configuration library: a parser and serializer for
//! section/key/value text together with an insertion-ordered configuration
//! store and typed accessors.

pub mod ini;
pub mod laws;
pub mod map;
pub mod num;
pub mod parse;
pub mod roundtrip;
pub mod strutil;
pub mod unparse;
