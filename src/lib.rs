//! A small recursive-descent JSON reader: characters become tokens, tokens
//! become a tree of values. Each step is stated against a mathematical model
//! (spec functions over sequences and maps) and proved.
//!
//! - `value`: numbers, tokens, parsed values, errors, and their views.
//! - `lexer`: characters to tokens.
//! - `parser`: tokens to a tree, and text to a tree.
//! - `equality`: `==` on trees, comparing objects as maps.
//! - `documents`: valid documents and the proof that their text reads back.
//! - `text`: numbers and tokens as text.
pub mod value;
pub mod lexer;
pub mod parser;
pub mod documents;
pub mod equality;
pub mod text;
