//! A verified lexer for flat arithmetic expressions.
//!
//! The input alphabet is the ASCII digits `0`-`9`, the four operators
//! `+ - * /`, and the space character.  Scanning turns an input string into
//! the ordered sequence of its lexemes (digit runs and single-character
//! operators), skipping spaces, and fails with the exact position of the
//! first character outside the alphabet.
//!
//! [`scan`] holds the mathematical model of scanning and the proved laws
//! about it; [`scanner`] holds the executable [`scanner::Scanner`], whose
//! contracts are stated against that model.

pub mod scan;
pub mod scanner;

pub use crate::scanner::LexError;
pub use crate::scanner::Scanner;
pub use crate::scanner::TokenType;
