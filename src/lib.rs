//! A small JSON decoder: a character cursor, a scanner that turns text into
//! tokens, and a parser that assembles the tokens into a value tree.
pub mod char_reader;
pub mod err;
pub mod value;
pub mod token;
pub mod parse;
pub mod document;
