//! A parser for a block-structured configuration language.
//!
//! [`hcl::parse_hcl`] reads a whole text and gives the object that it
//! writes, or the one failure [`types::ParseError::Malformed`]. The text
//! is a list of entries: `key = value`, or a block, which is a key,
//! quoted labels and an object in braces. Values are objects, arrays,
//! quoted strings with escape sequences and `${..}` template spans,
//! heredocs, numbers and booleans. Entries under one key fold into one
//! value by the rules of a [`model::Mode`].
//!
//! Every function states what it returns over the model of [`model`]:
//! the grammar is written as functions on sequences of characters, and
//! each parser is proved to return what the grammar gives.
//!
//! Numbers are kept as they were written, the value of a hexadecimal
//! literal or the text of a decimal literal; nothing here computes with
//! floating point.

pub mod common;
pub mod encode;
pub mod hcl;
pub mod heredoc;
pub mod json;
pub mod lexical;
pub mod malformed;
pub mod model;
pub mod strings;
pub mod text;
pub mod types;
