//! Lightweight syntax for configuration and scripting: a tokenizer, an
//! event parser, escape handling and source locations, each verified
//! against its specification.

use vstd::prelude::*;

mod ascii;
pub mod de;
pub mod fmt;
pub mod syntax;
pub mod types;
pub mod utf8;

verus! {

/// Which root value a document holds.
///
/// `Value` documents hold a single value. `List` and `Mapping` documents
/// omit the brackets around a root list or map.
#[derive(Clone, Copy, Debug, Default, PartialEq, Eq, Structural)]
pub enum Flavor {
    #[default]
    Value,
    List,
    Mapping,
}

} // verus!
