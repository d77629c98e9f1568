//! Schema compiler for binary record layouts: a schema language parser and
//! validator producing an intermediate representation, and a codec that
//! sizes, encodes and decodes record values laid out by that representation.
//!
//! - `grammar`, `syntax`, `parser`: schema text to parse tree;
//! - `validate`: parse tree to the representation in `types`;
//! - `primitive`: numbers as bytes in either byte order;
//! - `value`, `wire`, `codec`: record values, their wire format, and the
//!   functions that size, encode and decode them;
//! - `wire_facts`: the facts about the wire format that the laws in `codec`
//!   rest on.
pub mod types;
pub mod primitive;
pub mod value;
pub mod wire;
pub mod codec;
pub mod wire_facts;
pub mod syntax;
pub mod validate;
pub mod grammar;
pub mod parser;
