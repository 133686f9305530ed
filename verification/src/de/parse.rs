//! Turn tokens into a stream of parser events.

use vstd::prelude::*;
use vstd::std_specs::convert::FromSpecImpl;

use crate::de::grammar::{self, Lex};
use crate::de::token::{at_position, TokenError, Tokenizer};
use crate::syntax::{Event, SpecToken, Token, TokenKind};
use crate::types::location::{LocResult, Located};
use crate::Flavor;

verus! {

/// Errors produced by [Parser].
#[derive(Clone, Copy, Debug, PartialEq, Eq)]
pub enum ParseError {
    /// End of file (there is no more input to consume).
    Eof,
    /// The tokenizer found something it didn't recognize.
    UnknownToken,
    /// An integer literal was too big to fit into an `i64`.
    IntRange,
    /// There is invalid utf-8 inside a string literal.
    InvalidUtf8,
    /// There is an invalid escape sequence inside a string or bytes literal.
    UnknownEscape,
    /// There is an invalid character literal.
    InvalidCharLiteral,
    /// The parser found a token it did not expect in this context: its
    /// kind, and the kinds that were expected.
    UnexpectedToken(TokenKind, &'static [TokenKind]),
    /// The parser ran out of `state`.
    MaxRecursion,
    /// There are unclosed or mismatched braces in the source.
    UnmatchedBraces,
    /// There is an incomplete `key=value` pair.
    IncompleteField,
}

/// A [ParseError] as a value, with the expected kinds as a sequence.
pub ghost enum SpecParseError {
    Eof,
    UnknownToken,
    IntRange,
    InvalidUtf8,
    UnknownEscape,
    InvalidCharLiteral,
    UnexpectedToken(TokenKind, Seq<TokenKind>),
    MaxRecursion,
    UnmatchedBraces,
    IncompleteField,
}

impl View for ParseError {
    type V = SpecParseError;

    open spec fn view(&self) -> SpecParseError {
        match *self {
            ParseError::Eof => SpecParseError::Eof,
            ParseError::UnknownToken => SpecParseError::UnknownToken,
            ParseError::IntRange => SpecParseError::IntRange,
            ParseError::InvalidUtf8 => SpecParseError::InvalidUtf8,
            ParseError::UnknownEscape => SpecParseError::UnknownEscape,
            ParseError::InvalidCharLiteral => SpecParseError::InvalidCharLiteral,
            ParseError::UnexpectedToken(k, e) => SpecParseError::UnexpectedToken(k, e@),
            ParseError::MaxRecursion => SpecParseError::MaxRecursion,
            ParseError::UnmatchedBraces => SpecParseError::UnmatchedBraces,
            ParseError::IncompleteField => SpecParseError::IncompleteField,
        }
    }
}

/// The parse error that a token error becomes.
pub open spec fn token_error(e: TokenError) -> SpecParseError {
    match e {
        TokenError::Eof => SpecParseError::Eof,
        TokenError::UnknownToken => SpecParseError::UnknownToken,
        TokenError::IntRange => SpecParseError::IntRange,
        TokenError::InvalidUtf8 => SpecParseError::InvalidUtf8,
        TokenError::UnknownEscape => SpecParseError::UnknownEscape,
        TokenError::InvalidCharLiteral => SpecParseError::InvalidCharLiteral,
    }
}

impl From<TokenError> for ParseError {
    fn from(err: TokenError) -> (r: Self) {
        match err {
            TokenError::Eof => ParseError::Eof,
            TokenError::UnknownToken => ParseError::UnknownToken,
            TokenError::IntRange => ParseError::IntRange,
            TokenError::InvalidUtf8 => ParseError::InvalidUtf8,
            TokenError::UnknownEscape => ParseError::UnknownEscape,
            TokenError::InvalidCharLiteral => ParseError::InvalidCharLiteral,
        }
    }
}

impl FromSpecImpl<TokenError> for ParseError {
    open spec fn obeys_from_spec() -> bool {
        true
    }

    open spec fn from_spec(err: TokenError) -> ParseError {
        match err {
            TokenError::Eof => ParseError::Eof,
            TokenError::UnknownToken => ParseError::UnknownToken,
            TokenError::IntRange => ParseError::IntRange,
            TokenError::InvalidUtf8 => ParseError::InvalidUtf8,
            TokenError::UnknownEscape => ParseError::UnknownEscape,
            TokenError::InvalidCharLiteral => ParseError::InvalidCharLiteral,
        }
    }
}

fn convert_token_error(err: TokenError) -> (r: ParseError)
    ensures
        r@ == token_error(err),
{
    ParseError::from(err)
}

/// What the parser expects at one level of nesting.
#[derive(Clone, Copy, Debug, Default, PartialEq, Eq, Structural)]
pub enum State {
    /// a value
    #[default]
    Value,
    /// the end of a parenthesised value
    ValueClose,
    /// the `=` of a field
    FieldEquals,
    /// the value of a field
    FieldValue,
    /// the end of an enum without arguments
    BareEnum,
    /// a list item
    ListItem,
    /// a list separator
    ListSep,
    /// a map item
    MapItem,
    /// a map separator
    MapSep,
    /// enum arguments
    Enum,
}

/// Opaque struct to store state for [Parser].
///
/// This is used to allocate storage of the correct size for
/// [Parser]. See [Parser::new] for details.
#[derive(Clone, Copy, Debug, Default)]
pub struct ParserState(State);

impl ParserState {
    pub closed spec fn state(self) -> State {
        self.0
    }

    /// Return a zeroed state.
    pub fn zero() -> (r: Self)
        ensures
            r.state() == State::Value,
    {
        ParserState(State::Value)
    }
}

/// Parser events, as values.
pub ghost enum SpecEvent {
    ListOpen,
    ListClose,
    MapOpen,
    MapClose,
    EnumOpen(Seq<u8>),
    EnumClose,
    Key(Seq<u8>),
    Value(SpecToken),
}

impl<'de> View for Event<'de> {
    type V = SpecEvent;

    open spec fn view(&self) -> SpecEvent {
        match *self {
            Event::ListOpen => SpecEvent::ListOpen,
            Event::ListClose => SpecEvent::ListClose,
            Event::MapOpen => SpecEvent::MapOpen,
            Event::MapClose => SpecEvent::MapClose,
            Event::EnumOpen(n) => SpecEvent::EnumOpen(
                vstd::string::StringSliceAdditionalSpecFns::spec_bytes(n),
            ),
            Event::EnumClose => SpecEvent::EnumClose,
            Event::Key(n) => SpecEvent::Key(vstd::string::StringSliceAdditionalSpecFns::spec_bytes(n)),
            Event::Value(v) => SpecEvent::Value(v.spec_token()),
        }
    }
}

/// What the parser reports: an event or an error, each with the offset
/// it is located at.
pub ghost enum Outcome {
    Event(int, SpecEvent),
    Error(int, SpecParseError),
}

/// The state of a parser, as values.
pub ghost struct PState {
    /// the source
    pub src: Seq<u8>,
    /// where the tokenizer stands
    pub pos: int,
    /// the nesting stack, innermost last
    pub stack: Seq<State>,
    /// how deep the stack may grow
    pub cap: int,
    /// the state below the stack
    pub initial: State,
    /// a token read but not yet used, with its offset
    pub pending: Option<(int, SpecToken)>,
    /// whether the opening of the root list or map was reported
    pub sent: bool,
    /// an outcome computed but not yet returned
    pub stored: Option<Outcome>,
}

/// A new parser over `src` with room for `cap` nested states: past the
/// leading whitespace, with nothing open yet.
pub open spec fn start_state(flavor: Flavor, src: Seq<u8>, cap: int) -> PState {
    PState {
        src,
        pos: grammar::leading_space(src, 0),
        stack: Seq::empty(),
        cap,
        initial: match flavor {
            Flavor::Value => State::Value,
            Flavor::List => State::ListItem,
            Flavor::Mapping => State::MapItem,
        },
        pending: None,
        sent: false,
        stored: None,
    }
}

/// A parenthesised value is one list item like any other: opening it
/// leaves the list's own entry just as a plain value does, with the
/// value's state pushed above it, and reports nothing yet.
pub proof fn lemma_paren_item_is_one_item(st: PState, at: int, v: SpecToken)
    requires
        current(st) == State::ListItem,
        is_value_token(v),
        st.stack.len() < st.cap,
    ensures
        ({
            let (a, sa) = step(st, at, SpecToken::ParenOpen);
            let (b, sb) = step(st, at, v);
            &&& sa == Step::Continue
            &&& sb == Step::Emit(SpecEvent::Value(v))
            &&& a.stack == b.stack.push(State::Value)
            &&& a.initial == b.initial
            &&& a.pos == b.pos
        }),
{
    assert(kind_of(v) == TokenKind::Value);
    assert(!(v is Newline) && !(v is ParenOpen) && !(v is ListOpen) && !(v is ListClose) && !(
    v is MapOpen) && !(v is Ident));
    let t = transition(st, State::ListSep);
    reveal(step);
    assert(step(st, at, v) == step_list_item(st, at, v));
    assert(step_list_item(st, at, v) == (t, Step::Emit(SpecEvent::Value(v))));
    assert(step(st, at, SpecToken::ParenOpen) == then_push(t, State::Value, None));
    assert(t.stack.len() == st.stack.len());
    assert(push(t, State::Value) == Ok::<PState, SpecParseError>(PState { stack: t.stack.push(State::Value), ..t }));
}

/// After an item of a list, a comma or a newline is taken as the
/// separator, and the list waits for its next item at the same depth.
pub proof fn lemma_list_item_then_separator(st: PState, at: int, at2: int, v: SpecToken, sep: SpecToken)
    requires
        current(st) == State::ListItem,
        is_value_token(v),
        sep == SpecToken::Comma || sep == SpecToken::Newline,
    ensures
        ({
            let b = step(st, at, v).0;
            let (c, sc) = step(b, at2, sep);
            &&& sc == Step::Continue
            &&& current(c) == State::ListItem
            &&& c.stack.len() == st.stack.len()
        }),
{
    assert(kind_of(v) == TokenKind::Value);
    assert(!(v is Newline) && !(v is ParenOpen) && !(v is ListOpen) && !(v is ListClose) && !(
    v is MapOpen) && !(v is Ident));
    let t = transition(st, State::ListSep);
    reveal(step);
    assert(step(st, at, v) == step_list_item(st, at, v));
    assert(step_list_item(st, at, v) == (t, Step::Emit(SpecEvent::Value(v))));
    assert(current(t) == State::ListSep);
    assert(step(t, at2, sep) == step_list_sep(t, at2, sep));
    assert(step_list_sep(t, at2, sep) == (transition(t, State::ListItem), Step::Continue));
}

/// The outcomes of `n` calls of [Parser::next] from `st`, in order.
pub open spec fn outcomes(st: PState, n: nat) -> Seq<Outcome>
    decreases n,
{
    if n == 0 {
        seq![]
    } else {
        let (st1, o) = next(st);
        seq![o] + outcomes(st1, (n - 1) as nat)
    }
}

/// What a state buffer holds before parsing never matters: parsers made
/// by [Parser::new] with the same flavor and input over buffers of the
/// same length, whatever their contents, start alike and give the same
/// events and errors, at the same places, call after call.
pub proof fn lemma_buffer_contents_unread(
    flavor: Flavor,
    src: Seq<u8>,
    a: Seq<ParserState>,
    b: Seq<ParserState>,
    n: nat,
)
    requires
        a.len() == b.len(),
    ensures
        start_state(flavor, src, a.len() as int) == start_state(flavor, src, b.len() as int),
        outcomes(start_state(flavor, src, a.len() as int), n) == outcomes(
            start_state(flavor, src, b.len() as int),
            n,
        ),
{
}

/// What the tokenizer reads next at `pos`: a token or an error, with
/// its offset, and where the tokenizer then stands.
pub ghost enum TokOut {
    Tok(int, SpecToken),
    Fault(int, TokenError),
}

pub open spec fn tokenizer_next(src: Seq<u8>, pos: int) -> (TokOut, int) {
    if pos == src.len() {
        (TokOut::Fault(pos, TokenError::Eof), pos)
    } else {
        match grammar::token(src, pos) {
            Lex::Tok(e, t) => (TokOut::Tok(pos, t), e),
            Lex::NoMatch => (TokOut::Fault(pos, TokenError::UnknownToken), pos),
            Lex::Fail(p, err) => (TokOut::Fault(p, err), pos),
        }
    }
}

/// The kind of a token, from its contents.
pub open spec fn kind_of(t: SpecToken) -> TokenKind {
    match t {
        SpecToken::Newline => TokenKind::Newline,
        SpecToken::Comma => TokenKind::Comma,
        SpecToken::Equals => TokenKind::Equals,
        SpecToken::ParenOpen => TokenKind::ParenOpen,
        SpecToken::ParenClose => TokenKind::ParenClose,
        SpecToken::ListOpen => TokenKind::ListOpen,
        SpecToken::ListClose => TokenKind::ListClose,
        SpecToken::MapOpen => TokenKind::MapOpen,
        SpecToken::MapClose => TokenKind::MapClose,
        SpecToken::Ident(_) => TokenKind::Ident,
        _ => TokenKind::Value,
    }
}

pub open spec fn is_value_token(t: SpecToken) -> bool {
    kind_of(t) == TokenKind::Value
}

/// The state the parser is in: the innermost one on the stack, or the
/// initial one when the stack is empty.
pub open spec fn current(st: PState) -> State {
    if st.stack.len() > 0 {
        st.stack.last()
    } else {
        st.initial
    }
}

/// Replace the current state.
pub open spec fn transition(st: PState, s: State) -> PState {
    if st.stack.len() > 0 {
        PState { stack: st.stack.update(st.stack.len() - 1, s), ..st }
    } else {
        PState { initial: s, ..st }
    }
}

/// Enter a nested state; fails when the stack is full.
pub open spec fn push(st: PState, s: State) -> Result<PState, SpecParseError> {
    if st.stack.len() < st.cap {
        Ok(PState { stack: st.stack.push(s), ..st })
    } else {
        Err(SpecParseError::MaxRecursion)
    }
}

/// Leave a nested state; fails when there is none.
pub open spec fn pop(st: PState) -> Result<PState, SpecParseError> {
    if st.stack.len() > 0 {
        Ok(PState { stack: st.stack.drop_last(), ..st })
    } else {
        Err(SpecParseError::UnmatchedBraces)
    }
}

/// What one step of the parser does with a token.
pub ghost enum Step {
    /// nothing to report yet
    Continue,
    Emit(SpecEvent),
    Fail(SpecParseError),
}

pub open spec fn emit(ev: Option<SpecEvent>) -> Step {
    match ev {
        Some(e) => Step::Emit(e),
        None => Step::Continue,
    }
}

pub open spec fn then_push(st: PState, s: State, ev: Option<SpecEvent>) -> (PState, Step) {
    match push(st, s) {
        Ok(st2) => (st2, emit(ev)),
        Err(e) => (st, Step::Fail(e)),
    }
}

pub open spec fn pop_then(st: PState, ev: Option<SpecEvent>) -> (PState, Step) {
    match pop(st) {
        Ok(st2) => (st2, emit(ev)),
        Err(e) => (st, Step::Fail(e)),
    }
}

pub open spec fn pop_then_push(st: PState, s: State, ev: Option<SpecEvent>) -> (PState, Step) {
    match pop(st) {
        Ok(st2) => then_push(st2, s, ev),
        Err(e) => (st, Step::Fail(e)),
    }
}

pub open spec fn unexpected(st: PState, t: SpecToken, expected: Seq<TokenKind>) -> (PState, Step) {
    (st, Step::Fail(SpecParseError::UnexpectedToken(kind_of(t), expected)))
}

pub open spec fn expect_value() -> Seq<TokenKind> {
    seq![
        TokenKind::Newline,
        TokenKind::ParenOpen,
        TokenKind::ListOpen,
        TokenKind::MapOpen,
        TokenKind::Ident,
        TokenKind::Value,
    ]
}

pub open spec fn expect_value_close() -> Seq<TokenKind> {
    seq![TokenKind::Newline, TokenKind::ParenClose]
}

pub open spec fn expect_equals() -> Seq<TokenKind> {
    seq![TokenKind::Equals]
}

pub open spec fn expect_field_value() -> Seq<TokenKind> {
    seq![
        TokenKind::ParenOpen,
        TokenKind::ListOpen,
        TokenKind::MapOpen,
        TokenKind::Ident,
        TokenKind::Value,
    ]
}

pub open spec fn expect_list_item() -> Seq<TokenKind> {
    seq![
        TokenKind::Newline,
        TokenKind::ParenOpen,
        TokenKind::ListOpen,
        TokenKind::ListClose,
        TokenKind::MapOpen,
        TokenKind::Ident,
        TokenKind::Value,
    ]
}

pub open spec fn expect_list_sep() -> Seq<TokenKind> {
    seq![TokenKind::Newline, TokenKind::Comma, TokenKind::ListClose]
}

pub open spec fn expect_map_item() -> Seq<TokenKind> {
    seq![TokenKind::Newline, TokenKind::MapClose, TokenKind::Ident]
}

pub open spec fn expect_map_sep() -> Seq<TokenKind> {
    seq![TokenKind::Newline, TokenKind::Comma, TokenKind::MapClose]
}

pub open spec fn expect_enum() -> Seq<TokenKind> {
    seq![
        TokenKind::Newline,
        TokenKind::Comma,
        TokenKind::ParenClose,
        TokenKind::ListClose,
        TokenKind::MapClose,
        TokenKind::ParenOpen,
        TokenKind::ListOpen,
        TokenKind::MapOpen,
        TokenKind::Ident,
        TokenKind::Value,
    ]
}

/// A step in state `Value`.
pub open spec fn step_value(st: PState, at: int, t: SpecToken) -> (PState, Step) {
    match t {
        SpecToken::Newline => (st, Step::Continue),
        SpecToken::ParenOpen => then_push(transition(st, State::ValueClose), State::Value, None),
        SpecToken::ListOpen => then_push(
            transition(st, State::ValueClose),
            State::ListItem,
            Some(SpecEvent::ListOpen),
        ),
        SpecToken::MapOpen => then_push(
            transition(st, State::ValueClose),
            State::MapItem,
            Some(SpecEvent::MapOpen),
        ),
        SpecToken::Ident(n) => then_push(
            transition(st, State::ValueClose),
            State::Enum,
            Some(SpecEvent::EnumOpen(n)),
        ),
        _ => if is_value_token(t) {
            (transition(st, State::ValueClose), Step::Emit(SpecEvent::Value(t)))
        } else {
            unexpected(st, t, expect_value())
        },
    }
}

/// A step in state `ValueClose`.
pub open spec fn step_value_close(st: PState, at: int, t: SpecToken) -> (PState, Step) {
    match t {
        SpecToken::Newline => (st, Step::Continue),
        SpecToken::ParenClose => pop_then(st, None),
        _ => unexpected(st, t, expect_value_close()),
    }
}

/// A step in state `FieldEquals`.
pub open spec fn step_field_equals(st: PState, at: int, t: SpecToken) -> (PState, Step) {
    match t {
        SpecToken::Equals => (transition(st, State::FieldValue), Step::Continue),
        _ => unexpected(st, t, expect_equals()),
    }
}

/// A step in state `FieldValue`.
pub open spec fn step_field_value(st: PState, at: int, t: SpecToken) -> (PState, Step) {
    match t {
        SpecToken::ParenOpen => pop_then_push(st, State::Value, None),
        SpecToken::ListOpen => pop_then_push(st, State::ListItem, Some(SpecEvent::ListOpen)),
        SpecToken::MapOpen => pop_then_push(st, State::MapItem, Some(SpecEvent::MapOpen)),
        SpecToken::Ident(n) => match pop(st) {
            Ok(st2) => if current(st2) == State::Enum {
                then_push(st2, State::BareEnum, Some(SpecEvent::EnumOpen(n)))
            } else {
                then_push(st2, State::Enum, Some(SpecEvent::EnumOpen(n)))
            },
            Err(e) => (st, Step::Fail(e)),
        },
        _ => if is_value_token(t) {
            pop_then(st, Some(SpecEvent::Value(t)))
        } else {
            unexpected(st, t, expect_field_value())
        },
    }
}

/// A step in state `BareEnum`.
pub open spec fn step_bare_enum(st: PState, at: int, t: SpecToken) -> (PState, Step) {
    match pop(st) {
        Ok(st2) => (PState { pending: Some((at, t)), ..st2 }, Step::Emit(SpecEvent::EnumClose)),
        Err(e) => (st, Step::Fail(e)),
    }
}

/// A step in state `ListItem`.
pub open spec fn step_list_item(st: PState, at: int, t: SpecToken) -> (PState, Step) {
    match t {
        SpecToken::Newline => (st, Step::Continue),
        SpecToken::ParenOpen => then_push(transition(st, State::ListSep), State::Value, None),
        SpecToken::ListOpen => then_push(
            transition(st, State::ListSep),
            State::ListItem,
            Some(SpecEvent::ListOpen),
        ),
        SpecToken::ListClose => pop_then(st, Some(SpecEvent::ListClose)),
        SpecToken::MapOpen => then_push(
            transition(st, State::ListSep),
            State::MapItem,
            Some(SpecEvent::MapOpen),
        ),
        SpecToken::Ident(n) => then_push(
            transition(st, State::ListSep),
            State::Enum,
            Some(SpecEvent::EnumOpen(n)),
        ),
        _ => if is_value_token(t) {
            (transition(st, State::ListSep), Step::Emit(SpecEvent::Value(t)))
        } else {
            unexpected(st, t, expect_list_item())
        },
    }
}

/// A step in state `ListSep`.
pub open spec fn step_list_sep(st: PState, at: int, t: SpecToken) -> (PState, Step) {
    match t {
        SpecToken::Newline => (transition(st, State::ListItem), Step::Continue),
        SpecToken::Comma => (transition(st, State::ListItem), Step::Continue),
        SpecToken::ListClose => pop_then(st, Some(SpecEvent::ListClose)),
        _ => unexpected(st, t, expect_list_sep()),
    }
}

/// A step in state `MapItem`.
pub open spec fn step_map_item(st: PState, at: int, t: SpecToken) -> (PState, Step) {
    match t {
        SpecToken::Newline => (st, Step::Continue),
        SpecToken::MapClose => pop_then(st, Some(SpecEvent::MapClose)),
        SpecToken::Ident(n) => then_push(
            transition(st, State::MapSep),
            State::FieldEquals,
            Some(SpecEvent::Key(n)),
        ),
        _ => unexpected(st, t, expect_map_item()),
    }
}

/// A step in state `MapSep`.
pub open spec fn step_map_sep(st: PState, at: int, t: SpecToken) -> (PState, Step) {
    match t {
        SpecToken::Newline => (transition(st, State::MapItem), Step::Continue),
        SpecToken::Comma => (transition(st, State::MapItem), Step::Continue),
        SpecToken::MapClose => pop_then(st, Some(SpecEvent::MapClose)),
        _ => unexpected(st, t, expect_map_sep()),
    }
}

/// A step in state `Enum`.
pub open spec fn step_enum(st: PState, at: int, t: SpecToken) -> (PState, Step) {
    match t {
        SpecToken::Newline | SpecToken::Comma | SpecToken::ParenClose | SpecToken::ListClose
        | SpecToken::MapClose => match pop(st) {
            Ok(st2) => (
                PState { pending: Some((at, t)), ..st2 },
                Step::Emit(SpecEvent::EnumClose),
            ),
            Err(e) => (st, Step::Fail(e)),
        },
        SpecToken::ParenOpen => then_push(st, State::Value, None),
        SpecToken::ListOpen => then_push(st, State::ListItem, Some(SpecEvent::ListOpen)),
        SpecToken::MapOpen => then_push(st, State::MapItem, Some(SpecEvent::MapOpen)),
        SpecToken::Ident(n) => {
            let (out, np) = tokenizer_next(st.src, st.pos);
            let st1 = PState { pos: np, ..st };
            match out {
                TokOut::Tok(o, SpecToken::Equals) => match push(st1, State::FieldEquals) {
                    Ok(st2) => (
                        PState { pending: Some((o, SpecToken::Equals)), ..st2 },
                        Step::Emit(SpecEvent::Key(n)),
                    ),
                    Err(e) => (st1, Step::Fail(e)),
                },
                TokOut::Tok(o, t2) => match push(st1, State::BareEnum) {
                    Ok(st2) => (
                        PState { pending: Some((o, t2)), ..st2 },
                        Step::Emit(SpecEvent::EnumOpen(n)),
                    ),
                    Err(e) => (st1, Step::Fail(e)),
                },
                TokOut::Fault(_, TokenError::Eof) => then_push(
                    st1,
                    State::BareEnum,
                    Some(SpecEvent::EnumOpen(n)),
                ),
                TokOut::Fault(_, e) => (st1, Step::Fail(token_error(e))),
            }
        },
        SpecToken::Equals => unexpected(st, t, expect_enum()),
        _ => (st, Step::Emit(SpecEvent::Value(t))),
    }
}

/// One step of the parser: the token `t`, located at `at`, read in the
/// current state. An identifier among enum arguments is followed by a
/// look at the next token, to tell a key from a nested enum.
#[verifier::opaque]
pub open spec fn step(st: PState, at: int, t: SpecToken) -> (PState, Step) {
    match current(st) {
        State::Value => step_value(st, at, t),
        State::ValueClose => step_value_close(st, at, t),
        State::FieldEquals => step_field_equals(st, at, t),
        State::FieldValue => step_field_value(st, at, t),
        State::BareEnum => step_bare_enum(st, at, t),
        State::ListItem => step_list_item(st, at, t),
        State::ListSep => step_list_sep(st, at, t),
        State::MapItem => step_map_item(st, at, t),
        State::MapSep => step_map_sep(st, at, t),
        State::Enum => step_enum(st, at, t),
    }
}

} // verus!

verus! {

/// Twice the input left, plus one for a pending token: every step that
/// reports nothing lowers it.
pub open spec fn measure(st: PState) -> int {
    (st.src.len() - st.pos) * 2 + if st.pending is Some {
        1int
    } else {
        0int
    }
}

/// What the parser reports at the end of the input: the close of an
/// open enum, or of the root list or map; an error for anything else
/// still open; `Eof` when everything is closed.
pub open spec fn eof_outcome(st: PState, o: int) -> (PState, Outcome) {
    if st.stack.len() > 0 {
        let s = st.stack.last();
        if s == State::Enum || s == State::BareEnum {
            (PState { stack: st.stack.drop_last(), ..st }, Outcome::Event(o, SpecEvent::EnumClose))
        } else if s == State::FieldEquals || s == State::FieldValue {
            (st, Outcome::Error(o, SpecParseError::IncompleteField))
        } else {
            (st, Outcome::Error(o, SpecParseError::UnmatchedBraces))
        }
    } else if st.initial == State::ListItem || st.initial == State::ListSep {
        (PState { initial: State::Value, ..st }, Outcome::Event(o, SpecEvent::ListClose))
    } else if st.initial == State::MapItem || st.initial == State::MapSep {
        (PState { initial: State::Value, ..st }, Outcome::Event(o, SpecEvent::MapClose))
    } else {
        (st, Outcome::Error(o, SpecParseError::Eof))
    }
}

/// The next token the parser uses: the pending one, or the next one
/// from the tokenizer.
pub open spec fn take_token(st: PState) -> (TokOut, PState) {
    match st.pending {
        Some((o, t)) => (TokOut::Tok(o, t), PState { pending: None, ..st }),
        None => {
            let (out, np) = tokenizer_next(st.src, st.pos);
            (out, PState { pos: np, ..st })
        },
    }
}

/// Read tokens and step until there is something to report.
pub open spec fn run(st: PState) -> (PState, Outcome)
    decreases measure(st),
{
    let (tok, st1) = take_token(st);
    match tok {
        TokOut::Fault(o, e) => if e == TokenError::Eof {
            eof_outcome(st1, o)
        } else {
            (st1, Outcome::Error(o, token_error(e)))
        },
        TokOut::Tok(o, t) => {
            let (st2, r) = step(st1, o, t);
            match r {
                Step::Continue => if 0 <= measure(st2) < measure(st) {
                    run(st2)
                } else {
                    (st2, Outcome::Error(o, SpecParseError::Eof))
                },
                Step::Emit(ev) => (st2, Outcome::Event(o, ev)),
                Step::Fail(e) => (st2, Outcome::Error(o, e)),
            }
        },
    }
}

/// The offset the parser reports as its location: that of a stored
/// outcome, or where the tokenizer stands.
pub open spec fn location_of(st: PState) -> int {
    match st.stored {
        Some(Outcome::Event(o, _)) => o,
        Some(Outcome::Error(o, _)) => o,
        None => st.pos,
    }
}

/// The next outcome, ignoring a stored one: first the opening of the
/// root list or map, then whatever the tokens give.
pub open spec fn next_inner(st: PState) -> (PState, Outcome) {
    if !st.sent {
        let st1 = PState { sent: true, ..st };
        if st.initial == State::ListItem || st.initial == State::ListSep {
            (st1, Outcome::Event(location_of(st), SpecEvent::ListOpen))
        } else if st.initial == State::MapItem || st.initial == State::MapSep {
            (st1, Outcome::Event(location_of(st), SpecEvent::MapOpen))
        } else {
            run(st1)
        }
    } else {
        run(st)
    }
}

/// The next outcome: a stored one first. An error is stored again, so
/// that it is reported again and again.
pub open spec fn next(st: PState) -> (PState, Outcome) {
    let (st1, o) = match st.stored {
        Some(x) => (PState { stored: None, ..st }, x),
        None => next_inner(st),
    };
    match o {
        Outcome::Error(_, _) => (PState { stored: Some(o), ..st1 }, o),
        Outcome::Event(_, _) => (st1, o),
    }
}

pub open spec fn is_eof_outcome(o: Outcome) -> bool {
    o matches Outcome::Error(_, SpecParseError::Eof)
}

/// Whether the next outcome is `Eof`; the outcome is computed and stored.
pub open spec fn is_eof(st: PState) -> (PState, bool) {
    match st.stored {
        Some(o) => (st, is_eof_outcome(o)),
        None => {
            let (st1, o) = next(st);
            (PState { stored: Some(o), ..st1 }, is_eof_outcome(o))
        },
    }
}

pub open spec fn step_view<'de>(r: Result<Option<Event<'de>>, ParseError>) -> Step {
    match r {
        Ok(None) => Step::Continue,
        Ok(Some(e)) => Step::Emit(e@),
        Err(e) => Step::Fail(e@),
    }
}

pub open spec fn outcome_view<'de>(r: LocResult<'de, Event<'de>, ParseError>) -> Outcome {
    match r {
        Ok(l) => Outcome::Event(l.offset as int, l.value@),
        Err(l) => Outcome::Error(l.offset as int, l.value@),
    }
}

/// The outcome is located where its offset says.
pub open spec fn outcome_located<'de>(r: LocResult<'de, Event<'de>, ParseError>, s: Seq<u8>) -> bool {
    match r {
        Ok(l) => at_position(l, s, l.offset as int),
        Err(l) => at_position(l, s, l.offset as int),
    }
}

/// Turn source into a stream of [Events](Event).
pub struct Parser<'de, 's> {
    tokens: Tokenizer<'de>,
    initial_state: State,
    state: &'s mut [ParserState],
    state_top: usize,
    unused_token: Option<Located<'de, Token<'de>>>,
    initial_state_sent: bool,
    unused_event: Option<LocResult<'de, Event<'de>, ParseError>>,
}

impl<'de, 's> Parser<'de, 's> {
    /// The nesting stack, innermost last.
    pub closed spec fn stack(&self) -> Seq<State> {
        Seq::new(self.state_top as nat, |i: int| self.state@[i].state())
    }

    /// The state of this parser, as values.
    pub closed spec fn model(&self) -> PState {
        PState {
            src: self.tokens.source(),
            pos: self.tokens.pos(),
            stack: self.stack(),
            cap: self.state@.len() as int,
            initial: self.initial_state,
            pending: match self.unused_token {
                Some(l) => Some((l.offset as int, l.value@)),
                None => None,
            },
            sent: self.initial_state_sent,
            stored: match self.unused_event {
                Some(r) => Some(outcome_view(r)),
                None => None,
            },
        }
    }

    pub closed spec fn wf(&self) -> bool {
        &&& self.state_top <= self.state@.len()
        &&& self.tokens.pos() <= self.tokens.source().len() < usize::MAX
        &&& self.unused_token matches Some(l) ==> at_position(
            l,
            self.tokens.source(),
            l.offset as int,
        )
        &&& self.unused_event matches Some(r) ==> outcome_located(r, self.tokens.source())
    }

    /// Create a `flavor`-flavored parser operating on the given `input`.
    ///
    /// The size of `state` bounds how deeply nested the input may be
    /// before the parser reports [ParseError::MaxRecursion].
    pub fn new(flavor: Flavor, input: &'de [u8], state: &'s mut [ParserState]) -> (r: Self)
        requires
            input@.len() < usize::MAX,
        ensures
            r.wf(),
            r.model() == start_state(flavor, input@, old(state)@.len() as int),
    {
        let initial_state = match flavor {
            Flavor::Value => State::Value,
            Flavor::List => State::ListItem,
            Flavor::Mapping => State::MapItem,
        };
        let tokens = Tokenizer::new(input);
        let r = Parser {
            tokens,
            initial_state,
            state,
            state_top: 0,
            unused_token: None,
            initial_state_sent: false,
            unused_event: None,
        };
        assert(r.stack() =~= Seq::<State>::empty());
        r
    }

    /// Return the location of the event to be parsed next.
    pub fn location(&self) -> (r: Located<'de, ()>)
        requires
            self.wf(),
        ensures
            at_position(r, self.model().src, location_of(self.model())),
    {
        match &self.unused_event {
            Some(Ok(v)) => v.wrap(()),
            Some(Err(e)) => e.wrap(()),
            None => self.tokens.location(),
        }
    }

    fn state(&self) -> (r: State)
        requires
            self.wf(),
        ensures
            r == current(self.model()),
    {
        if self.state_top > 0 {
            self.state[self.state_top - 1].0
        } else {
            self.initial_state
        }
    }

    fn only_stack_state(&self) -> (r: Option<State>)
        requires
            self.wf(),
        ensures
            r == (if self.model().stack.len() > 0 {
                Some(self.model().stack.last())
            } else {
                None::<State>
            }),
    {
        if self.state_top > 0 {
            Some(self.state[self.state_top - 1].0)
        } else {
            None
        }
    }

    fn transition(&mut self, s: State)
        requires
            old(self).wf(),
        ensures
            final(self).wf(),
            final(self).model() == transition(old(self).model(), s),
    {
        if self.state_top > 0 {
            let t = self.state_top - 1;
            self.state[t] = ParserState(s);
            assert(self.stack() =~= old(self).stack().update(t as int, s));
        } else {
            self.initial_state = s;
        }
    }

    fn push(&mut self, s: State) -> (r: Result<(), ParseError>)
        requires
            old(self).wf(),
        ensures
            final(self).wf(),
            match push(old(self).model(), s) {
                Ok(st) => r is Ok && final(self).model() == st,
                Err(e) => r matches Err(x) && x@ == e && final(self).model() == old(self).model(),
            },
    {
        if self.state_top < self.state.len() {
            let t = self.state_top;
            self.state[t] = ParserState(s);
            self.state_top = t + 1;
            assert(self.stack() =~= old(self).stack().push(s));
            Ok(())
        } else {
            Err(ParseError::MaxRecursion)
        }
    }

    fn pop(&mut self) -> (r: Result<(), ParseError>)
        requires
            old(self).wf(),
        ensures
            final(self).wf(),
            match pop(old(self).model()) {
                Ok(st) => r is Ok && final(self).model() == st,
                Err(e) => r matches Err(x) && x@ == e && final(self).model() == old(self).model(),
            },
    {
        if self.state_top > 0 {
            self.state_top = self.state_top - 1;
            assert(self.stack() =~= old(self).stack().drop_last());
            Ok(())
        } else {
            Err(ParseError::UnmatchedBraces)
        }
    }

    fn unexpected(&self, t: Token<'de>, expected: &'static [TokenKind]) -> (r: Result<
        Option<Event<'de>>,
        ParseError,
    >)
        ensures
            r matches Err(e) && e@ == SpecParseError::UnexpectedToken(kind_of(t@), expected@),
    {
        proof {
            lemma_kind_of(t);
        }
        Err(ParseError::UnexpectedToken(t.kind(), expected))
    }
}

pub proof fn lemma_kind_of<'de>(t: Token<'de>)
    ensures
        kind_of(t@) == t.spec_kind(),
{
}

} // verus!

verus! {

impl<'de, 's> Parser<'de, 's> {
    /// `transition(s)`, then `push(p)`, then report `ev`.
    fn transition_push(&mut self, s: State, p: State, ev: Option<Event<'de>>) -> (r: Result<
        Option<Event<'de>>,
        ParseError,
    >)
        requires
            old(self).wf(),
        ensures
            final(self).wf(),
            ({
                let (st, out) = then_push(
                    transition(old(self).model(), s),
                    p,
                    match ev {
                        Some(e) => Some(e@),
                        None => None,
                    },
                );
                final(self).model() == st && step_view(r) == out
            }),
    {
        self.transition(s);
        self.push(p)?;
        Ok(ev)
    }

    /// `push(p)`, then report `ev`.
    fn push_emit(&mut self, p: State, ev: Option<Event<'de>>) -> (r: Result<
        Option<Event<'de>>,
        ParseError,
    >)
        requires
            old(self).wf(),
        ensures
            final(self).wf(),
            ({
                let (st, out) = then_push(
                    old(self).model(),
                    p,
                    match ev {
                        Some(e) => Some(e@),
                        None => None,
                    },
                );
                final(self).model() == st && step_view(r) == out
            }),
    {
        self.push(p)?;
        Ok(ev)
    }

    /// `pop()`, then report `ev`.
    fn pop_emit(&mut self, ev: Option<Event<'de>>) -> (r: Result<Option<Event<'de>>, ParseError>)
        requires
            old(self).wf(),
        ensures
            final(self).wf(),
            ({
                let (st, out) = pop_then(
                    old(self).model(),
                    match ev {
                        Some(e) => Some(e@),
                        None => None,
                    },
                );
                final(self).model() == st && step_view(r) == out
            }),
    {
        self.pop()?;
        Ok(ev)
    }

    /// `pop()`, then `push(p)`, then report `ev`.
    fn pop_push(&mut self, p: State, ev: Option<Event<'de>>) -> (r: Result<
        Option<Event<'de>>,
        ParseError,
    >)
        requires
            old(self).wf(),
        ensures
            final(self).wf(),
            ({
                let (st, out) = pop_then_push(
                    old(self).model(),
                    p,
                    match ev {
                        Some(e) => Some(e@),
                        None => None,
                    },
                );
                final(self).model() == st && step_view(r) == out
            }),
    {
        self.pop()?;
        self.push(p)?;
        Ok(ev)
    }

    /// A step in state `Value`.
    fn step_value(&mut self, loc: &Located<'de, ()>, tok: Token<'de>) -> (r: Result<
        Option<Event<'de>>,
        ParseError,
    >)
        requires
            old(self).wf(),
            at_position(*loc, old(self).model().src, loc.offset as int),
            current(old(self).model()) == State::Value,
        ensures
            final(self).wf(),
            ({
                let (st, out) = step_value(old(self).model(), loc.offset as int, tok@);
                final(self).model() == st && step_view(r) == out
            }),
    {
        match tok {
                Token::Newline => Ok(None),
                Token::ParenOpen => self.transition_push(State::ValueClose, State::Value, None),
                Token::ListOpen => self.transition_push(
                    State::ValueClose,
                    State::ListItem,
                    Some(Event::ListOpen),
                ),
                Token::MapOpen => self.transition_push(
                    State::ValueClose,
                    State::MapItem,
                    Some(Event::MapOpen),
                ),
                Token::Ident(name) => self.transition_push(
                    State::ValueClose,
                    State::Enum,
                    Some(Event::EnumOpen(name)),
                ),
                Token::Value(v) => {
                    self.transition(State::ValueClose);
                    Ok(Some(Event::Value(v)))
                },
                t => self.unexpected(
                    t,
                    &[
                        TokenKind::Newline,
                        TokenKind::ParenOpen,
                        TokenKind::ListOpen,
                        TokenKind::MapOpen,
                        TokenKind::Ident,
                        TokenKind::Value,
                    ],
                ),
            }
    }

    /// A step in state `ValueClose`.
    fn step_value_close(&mut self, loc: &Located<'de, ()>, tok: Token<'de>) -> (r: Result<
        Option<Event<'de>>,
        ParseError,
    >)
        requires
            old(self).wf(),
            at_position(*loc, old(self).model().src, loc.offset as int),
            current(old(self).model()) == State::ValueClose,
        ensures
            final(self).wf(),
            ({
                let (st, out) = step_value_close(old(self).model(), loc.offset as int, tok@);
                final(self).model() == st && step_view(r) == out
            }),
    {
        match tok {
                Token::Newline => Ok(None),
                Token::ParenClose => self.pop_emit(None),
                t => self.unexpected(t, &[TokenKind::Newline, TokenKind::ParenClose]),
            }
    }

    /// A step in state `FieldEquals`.
    fn step_field_equals(&mut self, loc: &Located<'de, ()>, tok: Token<'de>) -> (r: Result<
        Option<Event<'de>>,
        ParseError,
    >)
        requires
            old(self).wf(),
            at_position(*loc, old(self).model().src, loc.offset as int),
            current(old(self).model()) == State::FieldEquals,
        ensures
            final(self).wf(),
            ({
                let (st, out) = step_field_equals(old(self).model(), loc.offset as int, tok@);
                final(self).model() == st && step_view(r) == out
            }),
    {
        match tok {
                Token::Equals => {
                    self.transition(State::FieldValue);
                    Ok(None)
                },
                t => {
                    let expected: &'static [TokenKind] = &[TokenKind::Equals];
                    assert(expected@ =~= expect_equals());
                    self.unexpected(t, expected)
                },
            }
    }

    /// A step in state `FieldValue`.
    fn step_field_value(&mut self, loc: &Located<'de, ()>, tok: Token<'de>) -> (r: Result<
        Option<Event<'de>>,
        ParseError,
    >)
        requires
            old(self).wf(),
            at_position(*loc, old(self).model().src, loc.offset as int),
            current(old(self).model()) == State::FieldValue,
        ensures
            final(self).wf(),
            ({
                let (st, out) = step_field_value(old(self).model(), loc.offset as int, tok@);
                final(self).model() == st && step_view(r) == out
            }),
    {
        match tok {
                Token::ParenOpen => self.pop_push(State::Value, None),
                Token::ListOpen => self.pop_push(State::ListItem, Some(Event::ListOpen)),
                Token::MapOpen => self.pop_push(State::MapItem, Some(Event::MapOpen)),
                Token::Ident(name) => {
                    self.pop()?;
                    // enum parents can only hold bare enums here, but
                    // full enums are fine in maps
                    if matches!(self.state(), State::Enum) {
                        self.push_emit(State::BareEnum, Some(Event::EnumOpen(name)))
                    } else {
                        self.push_emit(State::Enum, Some(Event::EnumOpen(name)))
                    }
                },
                Token::Value(v) => self.pop_emit(Some(Event::Value(v))),
                t => self.unexpected(
                    t,
                    &[
                        TokenKind::ParenOpen,
                        TokenKind::ListOpen,
                        TokenKind::MapOpen,
                        TokenKind::Ident,
                        TokenKind::Value,
                    ],
                ),
            }
    }

    /// A step in state `BareEnum`.
    fn step_bare_enum(&mut self, loc: &Located<'de, ()>, tok: Token<'de>) -> (r: Result<
        Option<Event<'de>>,
        ParseError,
    >)
        requires
            old(self).wf(),
            at_position(*loc, old(self).model().src, loc.offset as int),
            current(old(self).model()) == State::BareEnum,
        ensures
            final(self).wf(),
            ({
                let (st, out) = step_bare_enum(old(self).model(), loc.offset as int, tok@);
                final(self).model() == st && step_view(r) == out
            }),
    {
        {
                self.pop()?;
                self.unused_token = Some(loc.wrap(tok));
                Ok(Some(Event::EnumClose))
            }
    }

    /// A step in state `ListItem`.
    fn step_list_item(&mut self, loc: &Located<'de, ()>, tok: Token<'de>) -> (r: Result<
        Option<Event<'de>>,
        ParseError,
    >)
        requires
            old(self).wf(),
            at_position(*loc, old(self).model().src, loc.offset as int),
            current(old(self).model()) == State::ListItem,
        ensures
            final(self).wf(),
            ({
                let (st, out) = step_list_item(old(self).model(), loc.offset as int, tok@);
                final(self).model() == st && step_view(r) == out
            }),
    {
        match tok {
                Token::Newline => Ok(None),
                Token::ParenOpen => self.transition_push(State::ListSep, State::Value, None),
                Token::ListOpen => self.transition_push(
                    State::ListSep,
                    State::ListItem,
                    Some(Event::ListOpen),
                ),
                Token::ListClose => self.pop_emit(Some(Event::ListClose)),
                Token::MapOpen => self.transition_push(
                    State::ListSep,
                    State::MapItem,
                    Some(Event::MapOpen),
                ),
                Token::Ident(name) => self.transition_push(
                    State::ListSep,
                    State::Enum,
                    Some(Event::EnumOpen(name)),
                ),
                Token::Value(v) => {
                    self.transition(State::ListSep);
                    Ok(Some(Event::Value(v)))
                },
                t => self.unexpected(
                    t,
                    &[
                        TokenKind::Newline,
                        TokenKind::ParenOpen,
                        TokenKind::ListOpen,
                        TokenKind::ListClose,
                        TokenKind::MapOpen,
                        TokenKind::Ident,
                        TokenKind::Value,
                    ],
                ),
            }
    }

    /// A step in state `ListSep`.
    fn step_list_sep(&mut self, loc: &Located<'de, ()>, tok: Token<'de>) -> (r: Result<
        Option<Event<'de>>,
        ParseError,
    >)
        requires
            old(self).wf(),
            at_position(*loc, old(self).model().src, loc.offset as int),
            current(old(self).model()) == State::ListSep,
        ensures
            final(self).wf(),
            ({
                let (st, out) = step_list_sep(old(self).model(), loc.offset as int, tok@);
                final(self).model() == st && step_view(r) == out
            }),
    {
        match tok {
                Token::Newline | Token::Comma => {
                    self.transition(State::ListItem);
                    Ok(None)
                },
                Token::ListClose => self.pop_emit(Some(Event::ListClose)),
                t => self.unexpected(
                    t,
                    &[TokenKind::Newline, TokenKind::Comma, TokenKind::ListClose],
                ),
            }
    }

    /// A step in state `MapItem`.
    fn step_map_item(&mut self, loc: &Located<'de, ()>, tok: Token<'de>) -> (r: Result<
        Option<Event<'de>>,
        ParseError,
    >)
        requires
            old(self).wf(),
            at_position(*loc, old(self).model().src, loc.offset as int),
            current(old(self).model()) == State::MapItem,
        ensures
            final(self).wf(),
            ({
                let (st, out) = step_map_item(old(self).model(), loc.offset as int, tok@);
                final(self).model() == st && step_view(r) == out
            }),
    {
        match tok {
                Token::Newline => Ok(None),
                Token::MapClose => self.pop_emit(Some(Event::MapClose)),
                Token::Ident(name) => self.transition_push(
                    State::MapSep,
                    State::FieldEquals,
                    Some(Event::Key(name)),
                ),
                t => self.unexpected(
                    t,
                    &[TokenKind::Newline, TokenKind::MapClose, TokenKind::Ident],
                ),
            }
    }

    /// A step in state `MapSep`.
    fn step_map_sep(&mut self, loc: &Located<'de, ()>, tok: Token<'de>) -> (r: Result<
        Option<Event<'de>>,
        ParseError,
    >)
        requires
            old(self).wf(),
            at_position(*loc, old(self).model().src, loc.offset as int),
            current(old(self).model()) == State::MapSep,
        ensures
            final(self).wf(),
            ({
                let (st, out) = step_map_sep(old(self).model(), loc.offset as int, tok@);
                final(self).model() == st && step_view(r) == out
            }),
    {
        match tok {
                Token::Newline | Token::Comma => {
                    self.transition(State::MapItem);
                    Ok(None)
                },
                Token::MapClose => self.pop_emit(Some(Event::MapClose)),
                t => self.unexpected(
                    t,
                    &[TokenKind::Newline, TokenKind::Comma, TokenKind::MapClose],
                ),
            }
    }

    /// A step in state `Enum`.
    fn step_enum(&mut self, loc: &Located<'de, ()>, tok: Token<'de>) -> (r: Result<
        Option<Event<'de>>,
        ParseError,
    >)
        requires
            old(self).wf(),
            at_position(*loc, old(self).model().src, loc.offset as int),
            current(old(self).model()) == State::Enum,
        ensures
            final(self).wf(),
            ({
                let (st, out) = step_enum(old(self).model(), loc.offset as int, tok@);
                final(self).model() == st && step_view(r) == out
            }),
    {
        match tok {
                Token::Newline
                | Token::Comma
                | Token::ParenClose
                | Token::ListClose
                | Token::MapClose => {
                    self.pop()?;
                    self.unused_token = Some(loc.wrap(tok));
                    Ok(Some(Event::EnumClose))
                },
                Token::ParenOpen => self.push_emit(State::Value, None),
                Token::ListOpen => self.push_emit(State::ListItem, Some(Event::ListOpen)),
                Token::MapOpen => self.push_emit(State::MapItem, Some(Event::MapOpen)),
                Token::Ident(name) => {
                    // an identifier may be a key or a bare enum here: look
                    // for an equals sign after it
                    let sub = self.tokens.next_token();
                    match sub {
                        Ok(subtok) => {
                            if matches!(subtok.value, Token::Equals) {
                                self.push(State::FieldEquals)?;
                                self.unused_token = Some(subtok);
                                Ok(Some(Event::Key(name)))
                            } else {
                                self.push(State::BareEnum)?;
                                self.unused_token = Some(subtok);
                                Ok(Some(Event::EnumOpen(name)))
                            }
                        },
                        Err(e) => {
                            if matches!(e.value, TokenError::Eof) {
                                self.push(State::BareEnum)?;
                                Ok(Some(Event::EnumOpen(name)))
                            } else {
                                Err(convert_token_error(e.value))
                            }
                        },
                    }
                },
                Token::Value(v) => Ok(Some(Event::Value(v))),
                t => self.unexpected(
                    t,
                    &[
                        TokenKind::Newline,
                        TokenKind::Comma,
                        TokenKind::ParenClose,
                        TokenKind::ListClose,
                        TokenKind::MapClose,
                        TokenKind::ParenOpen,
                        TokenKind::ListOpen,
                        TokenKind::MapOpen,
                        TokenKind::Ident,
                        TokenKind::Value,
                    ],
                ),
            }
    }

    /// One step of the parser on the token `tok`, located at `loc`.
    fn step(&mut self, loc: &Located<'de, ()>, tok: Token<'de>) -> (r: Result<
        Option<Event<'de>>,
        ParseError,
    >)
        requires
            old(self).wf(),
            at_position(*loc, old(self).model().src, loc.offset as int),
        ensures
            final(self).wf(),
            ({
                let (st, out) = step(old(self).model(), loc.offset as int, tok@);
                final(self).model() == st && step_view(r) == out
            }),
    {
        proof {
            reveal(step);
        }
        match self.state() {
            State::Value => self.step_value(loc, tok),
            State::ValueClose => self.step_value_close(loc, tok),
            State::FieldEquals => self.step_field_equals(loc, tok),
            State::FieldValue => self.step_field_value(loc, tok),
            State::BareEnum => self.step_bare_enum(loc, tok),
            State::ListItem => self.step_list_item(loc, tok),
            State::ListSep => self.step_list_sep(loc, tok),
            State::MapItem => self.step_map_item(loc, tok),
            State::MapSep => self.step_map_sep(loc, tok),
            State::Enum => self.step_enum(loc, tok),
        }
    }
}

} // verus!

verus! {

/// A step that reports nothing keeps the pending token and the
/// tokenizer where they were.
pub proof fn lemma_step_continue(st: PState, at: int, t: SpecToken)
    ensures
        step(st, at, t).1 is Continue ==> step(st, at, t).0.pending == st.pending
            && step(st, at, t).0.pos == st.pos,
        step(st, at, t).0.src == st.src,
        step(st, at, t).0.cap == st.cap,
        step(st, at, t).0.sent == st.sent,
        step(st, at, t).0.stored == st.stored,
{
    reveal(step);
    match current(st) {
        State::Value => assert(step(st, at, t) == step_value(st, at, t)),
        State::ValueClose => assert(step(st, at, t) == step_value_close(st, at, t)),
        State::FieldEquals => assert(step(st, at, t) == step_field_equals(st, at, t)),
        State::FieldValue => assert(step(st, at, t) == step_field_value(st, at, t)),
        State::BareEnum => assert(step(st, at, t) == step_bare_enum(st, at, t)),
        State::ListItem => assert(step(st, at, t) == step_list_item(st, at, t)),
        State::ListSep => assert(step(st, at, t) == step_list_sep(st, at, t)),
        State::MapItem => assert(step(st, at, t) == step_map_item(st, at, t)),
        State::MapSep => assert(step(st, at, t) == step_map_sep(st, at, t)),
        State::Enum => assert(step(st, at, t) == step_enum(st, at, t)),
    }
}

impl<'de, 's> Parser<'de, 's> {
    /// The outcome at the end of the input, located at `loc`.
    fn at_eof(&mut self, loc: Located<'de, ()>) -> (r: LocResult<'de, Event<'de>, ParseError>)
        requires
            old(self).wf(),
        ensures
            final(self).wf(),
            ({
                let (st, o) = eof_outcome(old(self).model(), loc.offset as int);
                final(self).model() == st && outcome_view(r) == o
            }),
            r matches Ok(x) ==> x.source == loc.source && x.line == loc.line && x.column
                == loc.column && x.offset == loc.offset,
            r matches Err(x) ==> x.source == loc.source && x.line == loc.line && x.column
                == loc.column && x.offset == loc.offset,
    {
        let val = match self.only_stack_state() {
            Some(State::Enum) | Some(State::BareEnum) => {
                let _ = self.pop();
                Ok(Event::EnumClose)
            },
            Some(State::FieldEquals) | Some(State::FieldValue) => Err(ParseError::IncompleteField),
            Some(_) => Err(ParseError::UnmatchedBraces),
            None => match self.initial_state {
                State::ListItem | State::ListSep => {
                    self.initial_state = State::Value;
                    Ok(Event::ListClose)
                },
                State::MapItem | State::MapSep => {
                    self.initial_state = State::Value;
                    Ok(Event::MapClose)
                },
                _ => Err(ParseError::Eof),
            },
        };
        loc.replace(val).to_result()
    }

    /// Parses and returns the next [Event], ignoring any event or error
    /// stored by [Parser::is_eof] or [Parser::next].
    pub fn next_inner(&mut self) -> (r: LocResult<'de, Event<'de>, ParseError>)
        requires
            old(self).wf(),
        ensures
            final(self).wf(),
            final(self).model() == next_inner(old(self).model()).0,
            final(self).model().src == old(self).model().src,
            outcome_view(r) == next_inner(old(self).model()).1,
            outcome_located(r, old(self).model().src),
    {
        if !self.initial_state_sent {
            self.initial_state_sent = true;
            match self.initial_state {
                State::ListItem | State::ListSep => {
                    return Ok(self.location().wrap(Event::ListOpen));
                },
                State::MapItem | State::MapSep => {
                    return Ok(self.location().wrap(Event::MapOpen));
                },
                _ => {},
            }
        }
        let ghost st0 = self.model();
        assert(next_inner(old(self).model()) == run(st0));
        loop
            invariant
                self.wf(),
                self.model().src == st0.src,
                st0.src == old(self).model().src,
                run(self.model()) == run(st0),
                next_inner(old(self).model()) == run(st0),
            decreases measure(self.model()),
        {
            let ghost st = self.model();
            let tok = match self.unused_token {
                Some(t) => {
                    self.unused_token = None;
                    Ok(t)
                },
                None => self.tokens.next_token(),
            };
            match tok {
                Ok(t) => {
                    let (loc, t) = t.split();
                    let ghost st1 = self.model();
                    proof {
                        lemma_step_continue(st1, loc.offset as int, t@);
                        assert(take_token(st) == (TokOut::Tok(loc.offset as int, t@), st1));
                    }
                    match self.step(&loc, t) {
                        Ok(None) => {},
                        Ok(Some(ev)) => {
                            return Ok(loc.replace(ev));
                        },
                        Err(e) => {
                            return Err(loc.replace(e));
                        },
                    }
                },
                Err(e) => {
                    let (loc, e) = e.split();
                    if matches!(e, TokenError::Eof) {
                        return self.at_eof(loc);
                    }
                    return Err(loc.replace(convert_token_error(e)));
                },
            }
        }
    }

    /// Parses and returns the next [Event].
    ///
    /// Once an error is returned, it is returned again on every later
    /// call.
    pub fn next(&mut self) -> (r: LocResult<'de, Event<'de>, ParseError>)
        requires
            old(self).wf(),
        ensures
            final(self).wf(),
            final(self).model() == next(old(self).model()).0,
            final(self).model().src == old(self).model().src,
            outcome_view(r) == next(old(self).model()).1,
            outcome_located(r, old(self).model().src),
    {
        let ev = match self.unused_event {
            Some(e) => {
                self.unused_event = None;
                e
            },
            None => self.next_inner(),
        };
        if ev.is_err() {
            self.unused_event = Some(ev);
        }
        ev
    }

    /// The next event or error, or `None` at the end of the input: the
    /// way an iterator over the events goes on.
    pub fn next_item(&mut self) -> (r: Option<LocResult<'de, Event<'de>, ParseError>>)
        requires
            old(self).wf(),
        ensures
            final(self).wf(),
            final(self).model() == next(old(self).model()).0,
            match next(old(self).model()).1 {
                Outcome::Error(_, SpecParseError::Eof) => r is None,
                o => r matches Some(x) && outcome_view(x) == o && outcome_located(
                    x,
                    old(self).model().src,
                ),
            },
    {
        match self.next() {
            Ok(ev) => Some(Ok(ev)),
            Err(e) => if matches!(e.value, ParseError::Eof) {
                None
            } else {
                Some(Err(e))
            },
        }
    }

    /// Returns `true` if and only if there is no input left.
    ///
    /// This is `true` if and only if the next event will be
    /// `ParseError::Eof`.
    pub fn is_eof(&mut self) -> (r: bool)
        requires
            old(self).wf(),
        ensures
            final(self).wf(),
            final(self).model() == is_eof(old(self).model()).0,
            final(self).model().src == old(self).model().src,
            r == is_eof(old(self).model()).1,
    {
        match self.unused_event {
            Some(ev) => is_eof_result(&ev),
            None => {
                let ev = self.next();
                let eof = is_eof_result(&ev);
                self.unused_event = Some(ev);
                eof
            },
        }
    }
}

fn is_eof_result<'de>(ev: &LocResult<'de, Event<'de>, ParseError>) -> (r: bool)
    ensures
        r == is_eof_outcome(outcome_view(*ev)),
{
    match ev {
        Ok(_) => false,
        Err(e) => matches!(e.value, ParseError::Eof),
    }
}

} // verus!

verus! {

/// Asking whether the parser is at its end does not change what it
/// parses next, and the answer is whether that next outcome is `Eof`.
pub proof fn lemma_is_eof_peeks(st: PState)
    ensures
        next(is_eof(st).0) == next(st),
        is_eof(st).1 == is_eof_outcome(next(st).1),
{
    match st.stored {
        Some(o) => {},
        None => {
            if st.sent {
                lemma_run_keeps_stored(st);
            } else {
                lemma_run_keeps_stored(PState { sent: true, ..st });
            }
            let (st1, o) = next(st);
            let st2 = PState { stored: Some(o), ..st1 };
            match o {
                Outcome::Error(_, _) => {
                    assert(st2 == st1);
                },
                Outcome::Event(_, _) => {
                    assert(PState { stored: None, ..st2 } == st1);
                },
            }
        },
    }
}

proof fn lemma_step_keeps_stored(st: PState, at: int, t: SpecToken)
    ensures
        step(st, at, t).0.stored == st.stored,
{
    reveal(step);
    match current(st) {
        State::Value => assert(step(st, at, t).0.stored == st.stored),
        State::ValueClose => assert(step(st, at, t).0.stored == st.stored),
        State::FieldEquals => assert(step(st, at, t).0.stored == st.stored),
        State::FieldValue => assert(step(st, at, t).0.stored == st.stored),
        State::BareEnum => assert(step(st, at, t).0.stored == st.stored),
        State::ListItem => assert(step(st, at, t).0.stored == st.stored),
        State::ListSep => assert(step(st, at, t).0.stored == st.stored),
        State::MapItem => assert(step(st, at, t).0.stored == st.stored),
        State::MapSep => assert(step(st, at, t).0.stored == st.stored),
        State::Enum => assert(step(st, at, t).0.stored == st.stored),
    }
}

proof fn lemma_run_keeps_stored(st: PState)
    ensures
        run(st).0.stored == st.stored,
    decreases measure(st),
{
    let (tok, st1) = take_token(st);
    if let TokOut::Tok(o, t) = tok {
        lemma_step_keeps_stored(st1, o, t);
    }
    match tok {
        TokOut::Tok(o, t) => {
            let (st2, r) = step(st1, o, t);
            if r is Continue && 0 <= measure(st2) < measure(st) {
                lemma_run_keeps_stored(st2);
            }
        },
        _ => {},
    }
}

/// Once the parser reports an error, it reports that same error again
/// and again, and stays where it is.
pub proof fn lemma_errors_stick(st: PState)
    ensures
        next(st).1 is Error ==> next(next(st).0) == next(st),
{
    let (st1, o) = next(st);
    if o is Error {
        assert(PState { stored: Some(o), ..PState { stored: None, ..st1 } } == st1);
    }
}

} // verus!

verus! {

/// An event holds only well-formed string and bytes tokens.
pub open spec fn event_wf(e: SpecEvent) -> bool {
    match e {
        SpecEvent::Value(t) => grammar::token_wf(t),
        _ => true,
    }
}

pub open spec fn outcome_wf(o: Outcome) -> bool {
    match o {
        Outcome::Event(_, e) => event_wf(e),
        Outcome::Error(_, _) => true,
    }
}

/// The tokens and outcomes a parser keeps are well-formed.
pub open spec fn pstate_wf(st: PState) -> bool {
    &&& st.pending matches Some((_, t)) ==> grammar::token_wf(t)
    &&& st.stored matches Some(o) ==> outcome_wf(o)
}

proof fn lemma_tokenizer_next_wf(src: Seq<u8>, pos: int)
    ensures
        tokenizer_next(src, pos).0 matches TokOut::Tok(_, t) ==> grammar::token_wf(t),
{
    if 0 <= pos <= src.len() {
        grammar::lemma_token_wf(src, pos);
    }
}

proof fn lemma_step_wf(st: PState, at: int, t: SpecToken)
    requires
        pstate_wf(st),
        grammar::token_wf(t),
    ensures
        pstate_wf(step(st, at, t).0),
        step(st, at, t).1 matches Step::Emit(e) ==> event_wf(e),
{
    reveal(step);
    lemma_tokenizer_next_wf(st.src, st.pos);
    match current(st) {
        State::Value => assert(pstate_wf(step(st, at, t).0)),
        State::ValueClose => assert(pstate_wf(step(st, at, t).0)),
        State::FieldEquals => assert(pstate_wf(step(st, at, t).0)),
        State::FieldValue => assert(pstate_wf(step(st, at, t).0)),
        State::BareEnum => assert(pstate_wf(step(st, at, t).0)),
        State::ListItem => assert(pstate_wf(step(st, at, t).0)),
        State::ListSep => assert(pstate_wf(step(st, at, t).0)),
        State::MapItem => assert(pstate_wf(step(st, at, t).0)),
        State::MapSep => assert(pstate_wf(step(st, at, t).0)),
        State::Enum => assert(pstate_wf(step(st, at, t).0)),
    }
}

proof fn lemma_run_wf(st: PState)
    requires
        pstate_wf(st),
    ensures
        pstate_wf(run(st).0),
        outcome_wf(run(st).1),
    decreases measure(st),
{
    lemma_tokenizer_next_wf(st.src, st.pos);
    let (tok, st1) = take_token(st);
    if let TokOut::Tok(o, t) = tok {
        lemma_step_wf(st1, o, t);
        let (st2, r) = step(st1, o, t);
        if r is Continue && 0 <= measure(st2) < measure(st) {
            lemma_run_wf(st2);
        }
    }
}

/// The parser keeps and reports only well-formed string and bytes
/// tokens: every string or bytes value it reports is accepted by
/// [Escaped::new](crate::types::Escaped::new).
pub proof fn lemma_next_wf(st: PState)
    requires
        pstate_wf(st),
    ensures
        pstate_wf(next(st).0),
        outcome_wf(next(st).1),
        pstate_wf(is_eof(st).0),
{
    if st.sent {
        lemma_run_wf(st);
    } else {
        lemma_run_wf(PState { sent: true, ..st });
    }
    if st.stored is None {
        let (st1, o) = next(st);
        assert(pstate_wf(st1));
    }
}

} // verus!

verus! {

/// `1` while the root list or map is open, else `0`.
pub open spec fn open_root(st: PState) -> int {
    if st.initial == State::ListItem || st.initial == State::ListSep || st.initial
        == State::MapItem || st.initial == State::MapSep {
        1
    } else {
        0
    }
}

/// `1` until the opening of the root has been considered, else `0`.
pub open spec fn unsent(st: PState) -> int {
    if st.sent {
        0
    } else {
        1
    }
}

/// `1` while an event is stored, else `0`.
pub open spec fn stored_event(st: PState) -> int {
    if st.stored matches Some(Outcome::Event(_, _)) {
        1
    } else {
        0
    }
}

/// The tokenizer's position lies inside the source.
pub open spec fn pos_ok(st: PState) -> bool {
    0 <= st.pos <= st.src.len()
}

/// `a` is further along than `b`, looking only at the input left, the
/// open nestings and an open root.
pub open spec fn ahead_core(a: PState, b: PState) -> bool {
    ||| measure(a) < measure(b)
    ||| measure(a) == measure(b) && a.stack.len() < b.stack.len()
    ||| measure(a) == measure(b) && a.stack.len() == b.stack.len() && open_root(a) < open_root(b)
}

/// `a` is further along than `b`: the input left, the open nestings, an
/// open root, the opening of the root not yet considered and a stored
/// event, compared in that order.
pub open spec fn ahead(a: PState, b: PState) -> bool {
    ||| ahead_core(a, b)
    ||| measure(a) == measure(b) && a.stack.len() == b.stack.len() && open_root(a) == open_root(b)
        && unsent(a) < unsent(b)
    ||| measure(a) == measure(b) && a.stack.len() == b.stack.len() && open_root(a) == open_root(b)
        && unsent(a) == unsent(b) && stored_event(a) < stored_event(b)
}

proof fn lemma_tokenizer_next_advances(src: Seq<u8>, pos: int)
    requires
        0 <= pos <= src.len(),
    ensures
        tokenizer_next(src, pos).0 is Tok ==> pos < tokenizer_next(src, pos).1 <= src.len(),
        tokenizer_next(src, pos).0 is Fault ==> tokenizer_next(src, pos).1 == pos,
{
    if pos < src.len() {
        grammar::lemma_token_advances(src, pos);
    }
}

proof fn lemma_step_progress(st: PState, at: int, t: SpecToken)
    requires
        pos_ok(st),
        st.pending is None,
    ensures
        ({
            let st2 = step(st, at, t).0;
            &&& pos_ok(st2)
            &&& st2.src == st.src
            &&& st2.sent == st.sent
            &&& measure(st2) <= measure(st) + 1
            &&& measure(st2) == measure(st) + 1 ==> st2.stack.len() + 1 == st.stack.len()
        }),
{
    reveal(step);
    lemma_tokenizer_next_advances(st.src, st.pos);
    let st2 = step(st, at, t).0;
    match current(st) {
        State::Value => assert(pos_ok(st2) && measure(st2) <= measure(st)),
        State::ValueClose => assert(pos_ok(st2) && measure(st2) <= measure(st)),
        State::FieldEquals => assert(pos_ok(st2) && measure(st2) <= measure(st)),
        State::FieldValue => assert(pos_ok(st2) && measure(st2) <= measure(st)),
        State::BareEnum => assert(pos_ok(st2)),
        State::ListItem => assert(pos_ok(st2) && measure(st2) <= measure(st)),
        State::ListSep => assert(pos_ok(st2) && measure(st2) <= measure(st)),
        State::MapItem => assert(pos_ok(st2) && measure(st2) <= measure(st)),
        State::MapSep => assert(pos_ok(st2) && measure(st2) <= measure(st)),
        State::Enum => assert(pos_ok(st2)),
    }
}

} // verus!

verus! {

proof fn lemma_run_progress(st: PState)
    requires
        pos_ok(st),
    ensures
        ({
            let (st2, o) = run(st);
            &&& pos_ok(st2)
            &&& st2.src == st.src
            &&& st2.sent == st.sent
            &&& o is Event ==> ahead_core(st2, st)
            &&& measure(st2) <= measure(st)
        }),
    decreases measure(st),
{
    lemma_tokenizer_next_advances(st.src, st.pos);
    let (tok, st1) = take_token(st);
    match tok {
        TokOut::Fault(o, e) => {},
        TokOut::Tok(o, t) => {
            lemma_step_progress(st1, o, t);
            let (st2, r) = step(st1, o, t);
            if r is Continue && 0 <= measure(st2) < measure(st) {
                lemma_run_progress(st2);
            }
        },
    }
}

/// Every event the parser reports moves it further along: its events
/// come to an end.
pub proof fn lemma_next_progress(st: PState)
    requires
        pos_ok(st),
    ensures
        pos_ok(next(st).0),
        next(st).0.src == st.src,
        next(st).1 is Event ==> ahead(next(st).0, st),
        pos_ok(is_eof(st).0),
        is_eof(st).0.src == st.src,
{
    if st.sent {
        lemma_run_progress(st);
        lemma_run_keeps_stored(st);
    } else {
        lemma_run_progress(PState { sent: true, ..st });
        lemma_run_keeps_stored(PState { sent: true, ..st });
    }
    let (st1, o) = next(st);
    if st.stored is None {
        if let Some(o2) = is_eof(st).0.stored {
            assert(pos_ok(is_eof(st).0));
        }
    }
}

} // verus!
