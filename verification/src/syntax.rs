//! Tokens, simple values and parser events.

use vstd::prelude::*;
use vstd::string::StringSliceAdditionalSpecFns;

use crate::types::escaped::Escaped;

verus! {

/// The internal integer type. Integers outside this range will fail to parse.
pub type Int = i64;

/// All possible tokens.
#[derive(Clone, Copy, Debug, PartialEq)]
pub enum Token<'de> {
    /// newline '\n'
    Newline,
    /// comma ','
    Comma,
    /// equals '='
    Equals,
    /// open parenthesis '('
    ParenOpen,
    /// close parenthesis ')'
    ParenClose,
    /// list open '['
    ListOpen,
    /// list close ']'
    ListClose,
    /// map open '{'
    MapOpen,
    /// map close '}'
    MapClose,
    /// identifier
    Ident(&'de str),
    /// simple value
    Value(Value<'de>),
}

/// The kind of a [Token], without its contents.
#[derive(Clone, Copy, Debug, PartialEq, Eq, Structural)]
pub enum TokenKind {
    Newline,
    Comma,
    Equals,
    ParenOpen,
    ParenClose,
    ListOpen,
    ListClose,
    MapOpen,
    MapClose,
    Ident,
    Value,
}

impl TokenKind {
    /// How this kind is named in messages.
    pub fn text(self) -> (r: &'static str)
        ensures
            r == match self {
                TokenKind::Newline => "'\\n'",
                TokenKind::Comma => "','",
                TokenKind::Equals => "'='",
                TokenKind::ParenOpen => "'('",
                TokenKind::ParenClose => "')'",
                TokenKind::ListOpen => "'['",
                TokenKind::ListClose => "']'",
                TokenKind::MapOpen => "'{'",
                TokenKind::MapClose => "'}'",
                TokenKind::Ident => "identifier",
                TokenKind::Value => "value",
            },
    {
        match self {
            TokenKind::Newline => "'\\n'",
            TokenKind::Comma => "','",
            TokenKind::Equals => "'='",
            TokenKind::ParenOpen => "'('",
            TokenKind::ParenClose => "')'",
            TokenKind::ListOpen => "'['",
            TokenKind::ListClose => "']'",
            TokenKind::MapOpen => "'{'",
            TokenKind::MapClose => "'}'",
            TokenKind::Ident => "identifier",
            TokenKind::Value => "value",
        }
    }
}

/// Simple (non-compound) values.
///
/// A float is kept as the literal text that the tokenizer recognized;
/// it is converted to a number where the value is used.
#[derive(Clone, Copy, Debug, PartialEq)]
pub enum Value<'de> {
    /// unit `()`
    Unit,
    /// `none` (the `None` of an `Option`)
    NoneValue,
    /// `true` or `false`
    Bool(bool),
    /// integers
    Int(Int),
    /// floats, as their literal text
    Float(&'de str),
    /// characters
    Char(char),
    /// strings, stored *with* escapes
    Str(Escaped<&'de str>),
    /// bytes, stored *with* escapes
    Bytes(Escaped<&'de [u8]>),
}

/// Parser events.
#[derive(Clone, Copy, Debug, PartialEq)]
pub enum Event<'de> {
    /// A list has started. Expect values, and then [Self::ListClose].
    ListOpen,
    /// A list has ended.
    ListClose,
    /// A map has started. Expect alternating [Self::Key] and values,
    /// and then [Self::MapClose].
    MapOpen,
    /// A map has ended.
    MapClose,
    /// An enum has started with this name. Expect either values, or
    /// alternating [Self::Key] and values, terminated by
    /// [Self::EnumClose].
    EnumOpen(&'de str),
    /// An enum has ended.
    EnumClose,
    /// The parser found a key with this name.
    Key(&'de str),
    /// The parser found a simple value.
    Value(Value<'de>),
}

/// The contents of a token, as the bytes and numbers it was read from.
pub ghost enum SpecToken {
    Newline,
    Comma,
    Equals,
    ParenOpen,
    ParenClose,
    ListOpen,
    ListClose,
    MapOpen,
    MapClose,
    Ident(Seq<u8>),
    Unit,
    NoneValue,
    Bool(bool),
    Int(int),
    Float(Seq<u8>),
    Char(char),
    Str(Seq<u8>),
    Bytes(Seq<u8>),
}

impl<'de> Value<'de> {
    pub open spec fn spec_token(self) -> SpecToken {
        match self {
            Value::Unit => SpecToken::Unit,
            Value::NoneValue => SpecToken::NoneValue,
            Value::Bool(b) => SpecToken::Bool(b),
            Value::Int(i) => SpecToken::Int(i as int),
            Value::Float(f) => SpecToken::Float(f.spec_bytes()),
            Value::Char(c) => SpecToken::Char(c),
            Value::Str(s) => SpecToken::Str(s.inner().spec_bytes()),
            Value::Bytes(b) => SpecToken::Bytes(b.inner()@),
        }
    }
}

impl<'de> View for Token<'de> {
    type V = SpecToken;

    open spec fn view(&self) -> SpecToken {
        match *self {
            Token::Newline => SpecToken::Newline,
            Token::Comma => SpecToken::Comma,
            Token::Equals => SpecToken::Equals,
            Token::ParenOpen => SpecToken::ParenOpen,
            Token::ParenClose => SpecToken::ParenClose,
            Token::ListOpen => SpecToken::ListOpen,
            Token::ListClose => SpecToken::ListClose,
            Token::MapOpen => SpecToken::MapOpen,
            Token::MapClose => SpecToken::MapClose,
            Token::Ident(s) => SpecToken::Ident(s.spec_bytes()),
            Token::Value(v) => v.spec_token(),
        }
    }
}

impl<'de> Token<'de> {
    pub open spec fn spec_kind(self) -> TokenKind {
        match self {
            Token::Newline => TokenKind::Newline,
            Token::Comma => TokenKind::Comma,
            Token::Equals => TokenKind::Equals,
            Token::ParenOpen => TokenKind::ParenOpen,
            Token::ParenClose => TokenKind::ParenClose,
            Token::ListOpen => TokenKind::ListOpen,
            Token::ListClose => TokenKind::ListClose,
            Token::MapOpen => TokenKind::MapOpen,
            Token::MapClose => TokenKind::MapClose,
            Token::Ident(_) => TokenKind::Ident,
            Token::Value(_) => TokenKind::Value,
        }
    }

    /// The kind of this token.
    pub fn kind(&self) -> (r: TokenKind)
        ensures
            r == self.spec_kind(),
    {
        match self {
            Token::Newline => TokenKind::Newline,
            Token::Comma => TokenKind::Comma,
            Token::Equals => TokenKind::Equals,
            Token::ParenOpen => TokenKind::ParenOpen,
            Token::ParenClose => TokenKind::ParenClose,
            Token::ListOpen => TokenKind::ListOpen,
            Token::ListClose => TokenKind::ListClose,
            Token::MapOpen => TokenKind::MapOpen,
            Token::MapClose => TokenKind::MapClose,
            Token::Ident(_) => TokenKind::Ident,
            Token::Value(_) => TokenKind::Value,
        }
    }
}

} // verus!
