//! Code generation for Chatterino themes: a radix-trie helper for key
//! lookup, layout handling and the printers of the generated sources.

pub mod helper;
pub mod printer;
pub mod text;
pub mod combinator;
pub mod errors;
pub mod layout;
pub mod model;
pub mod parse;
pub mod sorted;
