//! Special types: values with escapes still in them, and values
//! annotated with their source location.

pub mod escaped;
pub mod location;
pub mod str;

pub use escaped::{Escapable, Escaped, EscapedFragment, UnescapeError};
pub use location::{LocResult, Located};
