//! A lexical scanner that turns a raw byte buffer into an ordered sequence of
//! typed tokens: one-byte operators, numbers with an optional fractional part,
//! identifiers, and quote-delimited string literals.  A parenthesis opens a
//! bracket-scoped sub-scan that must find its matching closer; every failure
//! is reported as a typed error with the offending byte and position.

pub mod chars;
pub mod error;
pub mod lemmas;
pub mod model;
pub mod operator;
pub mod token;
