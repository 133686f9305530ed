//! Low-level parsing: the [Tokenizer], the [Parser] and their error types.

pub mod deserialize;
pub mod grammar;
pub mod location;
pub mod parse;
pub mod token;

pub use deserialize::{Deserializer, Error};
pub use parse::{ParseError, Parser, ParserState};
pub use token::{TokenError, Tokenizer};
