//! Lexical front end for a small expression language with significant
//! indentation and automatic statement-separator insertion.
//!
//! [`tokenizer::Tokenizer`] turns source text into tokens one pull at a time;
//! [`location`] holds the byte-range model used to point back into the text.

pub mod location;
pub mod text;
pub mod tokenizer;
