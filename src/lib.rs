//! Wraps the body of a function in one block that lifts the compiler's
//! per-use danger marker, so the marker need not be repeated inside it.
//!
//! The rewrite works on a plain model of the token stream ([`Token`]) and is
//! verified against a recursive statement of its result ([`rewrite::rewritten`]).
//! Turning a compiler token stream into that model and back is left to the
//! macro front end.

pub mod token;
pub mod rewrite;

pub use token::{Delimiter, Spacing, Token, TokenView};
pub use rewrite::safe;
