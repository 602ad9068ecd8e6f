//! A parser for a configuration format in the manner of TOML: typed scalars,
//! nested sections and arrays of tables.
//!
//! [`parse_from_bytes`] reads a document into a tree of [`Value`]s.
//! [`Value::lookup`] finds a value by a dotted path, and a [`Decoder`] hands
//! the tree out piece by piece to code that builds typed data from it.
//!
//! What each function does is stated over a model of the data: the tree is a
//! [`value::Tree`], the text a sequence of characters. The module
//! [`grammar`] defines what a text means, [`builder`] how headers and
//! assignments shape the tree, and [`laws`] and [`literal`] hold what
//! follows from these definitions.

pub mod builder;
pub mod decoder;
pub mod document;
pub mod error;
pub mod grammar;
pub mod laws;
pub mod literal;
pub mod lookup;
pub mod parser;
pub mod text;
pub mod utf8;
pub mod value;
pub mod visitor;
pub mod wellformed;

pub use builder::ValueBuilder;
pub use decoder::Decoder;
pub use document::{parse_from_buffer, parse_from_bytes, parse_from_partial};
pub use error::Error;
pub use lookup::PathElement;
pub use parser::Parser;
pub use value::{Decimal, Value};
pub use visitor::Visitor;
