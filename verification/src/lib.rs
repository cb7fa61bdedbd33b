//! Random strings drawn from the language of a regular expression.
//!
//! The library parses a pattern with `regex-syntax`, keeps the parts of the
//! syntax tree that generation reads in a tree of its own ([`pattern::Node`]),
//! computes the characters that a class stands for with verified range
//! algebra ([`ranges`], [`class`]), and draws a random string that the
//! pattern matches ([`generate`]).  [`laws`] states what the range algebra
//! means as operations on sets of characters.

pub mod class;
pub mod class_laws;
pub mod error;
pub mod generate;
pub mod laws;
pub mod parse;
pub mod pattern;
pub mod range_spec;
pub mod range_walks;
pub mod ranges;
pub mod syntax_types;
pub mod ucd;
