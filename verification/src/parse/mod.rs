//! Reading a theme from a style sheet: the decisions taken on what the CSS
//! parser hands over.

pub mod parsers;
