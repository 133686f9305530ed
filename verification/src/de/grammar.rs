//! The lexical grammar of the format, as specification functions on
//! bytes. Each function reads the source `s` starting at position `i`
//! and says how far the piece it describes extends, what it means, or
//! where and why it fails.

use vstd::prelude::*;
use vstd::utf8::*;

use crate::de::token::TokenError;
use crate::ascii;
use crate::syntax::SpecToken;

verus! {

pub open spec fn byte_at(s: Seq<u8>, i: int, b: u8) -> bool {
    0 <= i < s.len() && s[i] == b
}

/// Classes of bytes that the grammar reads in runs.
#[derive(Clone, Copy)]
pub enum ByteClass {
    /// space or tab
    Blank,
    /// anything but carriage return or newline
    CommentBody,
    /// a digit in the given radix
    Digit(u32),
    /// ASCII letters, digits and underscore
    Word,
    /// anything but a double quote or a backslash
    Plain,
    /// anything but a single quote
    NotQuote,
}

/// The value of `b` as a hexadecimal digit, or 99 when it is none.
pub open spec fn digit_val(b: u8) -> int {
    if ascii::DIGIT_0 <= b <= ascii::DIGIT_9 {
        b - ascii::DIGIT_0
    } else if ascii::LOWER_A <= b <= ascii::LOWER_F {
        b - ascii::LOWER_A + 10
    } else if ascii::UPPER_A <= b <= ascii::UPPER_F {
        b - ascii::UPPER_A + 10
    } else {
        99
    }
}

pub open spec fn in_class(b: u8, c: ByteClass) -> bool {
    match c {
        ByteClass::Blank => b == ascii::SPACE || b == ascii::TAB,
        ByteClass::CommentBody => b != ascii::CR && b != ascii::LF,
        ByteClass::Digit(r) => digit_val(b) < r,
        ByteClass::Word => (ascii::LOWER_A <= b <= ascii::LOWER_Z) || (ascii::UPPER_A <= b <= ascii::UPPER_Z) || (ascii::DIGIT_0 <= b <= ascii::DIGIT_9)
            || b == ascii::UNDERSCORE,
        ByteClass::Plain => b != ascii::DQUOTE && b != ascii::BACKSLASH,
        ByteClass::NotQuote => b != ascii::SQUOTE,
    }
}

/// End of the run of bytes of class `c` that starts at `i`.
pub open spec fn run_end(s: Seq<u8>, i: int, c: ByteClass) -> int
    decreases s.len() - i,
{
    if 0 <= i < s.len() && in_class(s[i], c) {
        run_end(s, i + 1, c)
    } else {
        i
    }
}

pub open spec fn digit_at(s: Seq<u8>, i: int) -> bool {
    0 <= i < s.len() && in_class(s[i], ByteClass::Digit(10))
}

/// One piece of whitespace: a run of blanks, or a comment up to (not
/// including) the end of its line. A comment that meets a carriage
/// return not followed by a newline is not whitespace.
pub open spec fn ws_single(s: Seq<u8>, i: int) -> Option<int> {
    if 0 <= i < s.len() && in_class(s[i], ByteClass::Blank) {
        Some(run_end(s, i, ByteClass::Blank))
    } else if byte_at(s, i, ascii::HASH) {
        let j = run_end(s, i + 1, ByteClass::CommentBody);
        if byte_at(s, j, ascii::CR) && !byte_at(s, j + 1, ascii::LF) {
            None
        } else {
            Some(j)
        }
    } else {
        None
    }
}

/// End of any amount of whitespace starting at `i`.
pub open spec fn ws0(s: Seq<u8>, i: int) -> int
    decreases s.len() - i,
{
    match ws_single(s, i) {
        Some(j) => if i < j <= s.len() {
            ws0(s, j)
        } else {
            i
        },
        None => i,
    }
}

/// `\n` or `\r\n`.
pub open spec fn line_ending(s: Seq<u8>, i: int) -> Option<int> {
    if byte_at(s, i, ascii::LF) {
        Some(i + 1)
    } else if byte_at(s, i, ascii::CR) && byte_at(s, i + 1, ascii::LF) {
        Some(i + 2)
    } else {
        None
    }
}

/// End of any number of line endings, each followed by whitespace.
pub open spec fn newlines0(s: Seq<u8>, i: int) -> int
    decreases s.len() - i,
{
    match line_ending(s, i) {
        Some(j) => {
            let k = ws0(s, j);
            if i < k <= s.len() {
                newlines0(s, k)
            } else {
                i
            }
        },
        None => i,
    }
}

/// At least one line ending, each followed by whitespace.
pub open spec fn newlines1(s: Seq<u8>, i: int) -> Option<int> {
    match line_ending(s, i) {
        Some(j) => Some(newlines0(s, ws0(s, j))),
        None => None,
    }
}

/// Whitespace and newlines that may lead a document.
pub open spec fn leading_space(s: Seq<u8>, i: int) -> int {
    newlines0(s, ws0(s, i))
}

/// The single-byte symbols.
pub open spec fn symbol(s: Seq<u8>, i: int) -> Option<SpecToken> {
    if !(0 <= i < s.len()) {
        None
    } else if s[i] == ascii::COMMA {
        Some(SpecToken::Comma)
    } else if s[i] == ascii::EQUALS {
        Some(SpecToken::Equals)
    } else if s[i] == ascii::LPAREN {
        Some(SpecToken::ParenOpen)
    } else if s[i] == ascii::RPAREN {
        Some(SpecToken::ParenClose)
    } else if s[i] == ascii::LBRACKET {
        Some(SpecToken::ListOpen)
    } else if s[i] == ascii::RBRACKET {
        Some(SpecToken::ListClose)
    } else if s[i] == ascii::LBRACE {
        Some(SpecToken::MapOpen)
    } else if s[i] == ascii::RBRACE {
        Some(SpecToken::MapClose)
    } else {
        None
    }
}

/// What may follow a number or a word: the end of input, a line
/// ending, a symbol or whitespace.
pub open spec fn boundary(s: Seq<u8>, i: int) -> bool {
    ||| i >= s.len()
    ||| line_ending(s, i) is Some
    ||| symbol(s, i) is Some
    ||| ws_single(s, i) is Some
}

/// How reading a token at some position ends.
pub ghost enum Lex {
    /// a token, and the position just after it
    Tok(int, SpecToken),
    /// this kind of token does not start here
    NoMatch,
    /// the token starts here but is malformed: where, and why
    Fail(int, TokenError),
}

pub open spec fn newline_tok(s: Seq<u8>, i: int) -> Lex {
    match newlines1(s, i) {
        Some(e) => Lex::Tok(e, SpecToken::Newline),
        None => Lex::NoMatch,
    }
}

pub open spec fn comma_tok(s: Seq<u8>, i: int) -> Lex {
    if byte_at(s, i, ascii::COMMA) {
        Lex::Tok(newlines0(s, i + 1), SpecToken::Comma)
    } else {
        Lex::NoMatch
    }
}

/// `(` and `)` with only whitespace between them.
pub open spec fn unit_tok(s: Seq<u8>, i: int) -> Lex {
    if byte_at(s, i, ascii::LPAREN) && byte_at(s, ws0(s, i + 1), ascii::RPAREN) {
        Lex::Tok(ws0(s, i + 1) + 1, SpecToken::Unit)
    } else {
        Lex::NoMatch
    }
}

pub open spec fn symbol_tok(s: Seq<u8>, i: int) -> Lex {
    match symbol(s, i) {
        Some(t) => Lex::Tok(i + 1, t),
        None => Lex::NoMatch,
    }
}

/// The value of the digits `s[i..j]` in radix `r`.
pub open spec fn digits_value(s: Seq<u8>, i: int, j: int, r: int) -> int
    decreases j - i,
{
    if j <= i {
        0
    } else {
        digits_value(s, i, j - 1, r) * r + digit_val(s[j - 1])
    }
}

/// Digits `s[a..e]` in radix `r`, prefixed by `0` and one of the two
/// given letters, and followed by a boundary.
pub open spec fn prefixed_digits(s: Seq<u8>, p: int, lower: u8, upper: u8, r: u32) -> bool {
    &&& byte_at(s, p, ascii::DIGIT_0)
    &&& (byte_at(s, p + 1, lower) || byte_at(s, p + 1, upper))
    &&& run_end(s, p + 2, ByteClass::Digit(r)) > p + 2
    &&& boundary(s, run_end(s, p + 2, ByteClass::Digit(r)))
}

/// The digits of an integer (after its sign): where they start, where
/// they end, and their radix.
pub open spec fn int_body(s: Seq<u8>, p: int) -> Option<(int, int, u32)> {
    if prefixed_digits(s, p, ascii::LOWER_X, ascii::UPPER_X, 16) {
        Some((p + 2, run_end(s, p + 2, ByteClass::Digit(16)), 16))
    } else if prefixed_digits(s, p, ascii::LOWER_O, ascii::UPPER_O, 8) {
        Some((p + 2, run_end(s, p + 2, ByteClass::Digit(8)), 8))
    } else if prefixed_digits(s, p, ascii::LOWER_B, ascii::UPPER_B, 2) {
        Some((p + 2, run_end(s, p + 2, ByteClass::Digit(2)), 2))
    } else if run_end(s, p, ByteClass::Digit(10)) > p && boundary(
        s,
        run_end(s, p, ByteClass::Digit(10)),
    ) {
        Some((p, run_end(s, p, ByteClass::Digit(10)), 10))
    } else {
        None
    }
}

pub open spec fn sign_at(s: Seq<u8>, i: int) -> bool {
    byte_at(s, i, ascii::PLUS) || byte_at(s, i, ascii::MINUS)
}

pub open spec fn after_sign(s: Seq<u8>, i: int) -> int {
    if sign_at(s, i) {
        i + 1
    } else {
        i
    }
}

/// An integer: an optional sign, then digits. It fails when its value
/// does not fit in an `i64`.
pub open spec fn integer_tok(s: Seq<u8>, i: int) -> Lex {
    match int_body(s, after_sign(s, i)) {
        Some((a, e, r)) => {
            let v = digits_value(s, a, e, r as int);
            let x = if byte_at(s, i, ascii::MINUS) {
                -v
            } else {
                v
            };
            if i64::MIN <= x <= i64::MAX {
                Lex::Tok(e, SpecToken::Int(x))
            } else {
                Lex::Fail(i, TokenError::IntRange)
            }
        },
        None => Lex::NoMatch,
    }
}

/// End of the mantissa of a float (after its sign), or -1 when there is
/// none: digits with an optional fraction, or a point and digits.
pub open spec fn mantissa_end(s: Seq<u8>, p: int) -> int {
    if digit_at(s, p) {
        let q = run_end(s, p, ByteClass::Digit(10));
        if byte_at(s, q, ascii::DOT) {
            run_end(s, q + 1, ByteClass::Digit(10))
        } else {
            q
        }
    } else if byte_at(s, p, ascii::DOT) && digit_at(s, p + 1) {
        run_end(s, p + 1, ByteClass::Digit(10))
    } else {
        -1
    }
}

/// A float: sign, mantissa and an optional exponent. An exponent
/// marker that no digits follow is a failure at that place.
pub open spec fn float_tok(s: Seq<u8>, i: int) -> Lex {
    let m = mantissa_end(s, after_sign(s, i));
    if m < 0 {
        Lex::NoMatch
    } else if byte_at(s, m, ascii::LOWER_E) || byte_at(s, m, ascii::UPPER_E) {
        let r = after_sign(s, m + 1);
        if digit_at(s, r) {
            let e = run_end(s, r, ByteClass::Digit(10));
            if boundary(s, e) {
                Lex::Tok(e, SpecToken::Float(s.subrange(i, e)))
            } else {
                Lex::NoMatch
            }
        } else {
            Lex::Fail(r, TokenError::UnknownToken)
        }
    } else if boundary(s, m) {
        Lex::Tok(m, SpecToken::Float(s.subrange(i, m)))
    } else {
        Lex::NoMatch
    }
}

pub open spec fn hex_at(s: Seq<u8>, i: int) -> bool {
    0 <= i < s.len() && in_class(s[i], ByteClass::Digit(16))
}

/// The escape that follows a backslash in a string or character: where
/// it ends, and the character it stands for.
pub open spec fn char_escape(s: Seq<u8>, p: int) -> Option<(int, char)> {
    if !(0 <= p < s.len()) {
        None
    } else if s[p] == ascii::LOWER_N {
        Some((p + 1, '\n'))
    } else if s[p] == ascii::LOWER_R {
        Some((p + 1, '\r'))
    } else if s[p] == ascii::LOWER_T {
        Some((p + 1, '\t'))
    } else if s[p] == ascii::BACKSLASH {
        Some((p + 1, '\\'))
    } else if s[p] == ascii::DIGIT_0 {
        Some((p + 1, '\0'))
    } else if s[p] == ascii::DQUOTE {
        Some((p + 1, '"'))
    } else if s[p] == ascii::SQUOTE {
        Some((p + 1, '\''))
    } else if s[p] == ascii::LOWER_X && p + 2 < s.len() && ascii::DIGIT_0 <= s[p + 1] <= ascii::DIGIT_7 && hex_at(s, p + 2) {
        Some((p + 3, (digits_value(s, p + 1, p + 3, 16) as u32) as char))
    } else if s[p] == ascii::LOWER_U && byte_at(s, p + 1, ascii::LBRACE) {
        let run = run_end(s, p + 2, ByteClass::Digit(16));
        let k = if run < p + 8 {
            run
        } else {
            p + 8
        };
        let v = digits_value(s, p + 2, k, 16);
        if k > p + 2 && is_scalar(v as u32) && byte_at(s, k, ascii::RBRACE) {
            Some((k + 1, (v as u32) as char))
        } else {
            None
        }
    } else {
        None
    }
}

/// The escape that follows a backslash in a bytes literal.
pub open spec fn byte_escape(s: Seq<u8>, p: int) -> Option<(int, u8)> {
    if !(0 <= p < s.len()) {
        None
    } else if s[p] == ascii::LOWER_N {
        Some((p + 1, ascii::LF))
    } else if s[p] == ascii::LOWER_R {
        Some((p + 1, ascii::CR))
    } else if s[p] == ascii::LOWER_T {
        Some((p + 1, ascii::TAB))
    } else if s[p] == ascii::BACKSLASH {
        Some((p + 1, ascii::BACKSLASH))
    } else if s[p] == ascii::DIGIT_0 {
        Some((p + 1, 0u8))
    } else if s[p] == ascii::DQUOTE {
        Some((p + 1, ascii::DQUOTE))
    } else if s[p] == ascii::SQUOTE {
        Some((p + 1, ascii::SQUOTE))
    } else if s[p] == ascii::LOWER_X && hex_at(s, p + 1) && hex_at(s, p + 2) {
        Some((p + 3, digits_value(s, p + 1, p + 3, 16) as u8))
    } else {
        None
    }
}

/// The length of the longest prefix of `x[..k]` that is valid UTF-8.
pub open spec fn longest_valid_prefix(x: Seq<u8>, k: int) -> int
    decreases k,
{
    if k <= 0 {
        0
    } else if valid_utf8(x.subrange(0, k)) {
        k
    } else {
        longest_valid_prefix(x, k - 1)
    }
}

/// One piece of a string or bytes literal.
pub ghost enum Chunk {
    /// unescaped bytes up to the given position
    Plain(int),
    /// an escape up to the given position, standing for a character
    /// (as a code point) or a byte
    Item(int, int),
    /// no piece starts here
    Stop,
    /// a malformed piece: where, and why
    Fail(int, TokenError),
}

/// A piece of a string: plain text that must be valid UTF-8, or an escape.
pub open spec fn str_chunk(s: Seq<u8>, p: int) -> Chunk {
    let q = run_end(s, p, ByteClass::Plain);
    if q > p {
        let v = longest_valid_prefix(s.subrange(p, q), q - p);
        if v == q - p {
            Chunk::Plain(q)
        } else {
            Chunk::Fail(p + v, TokenError::InvalidUtf8)
        }
    } else if byte_at(s, p, ascii::BACKSLASH) {
        match char_escape(s, p + 1) {
            Some((e, c)) => Chunk::Item(e, c as int),
            None => Chunk::Fail(p + 1, TokenError::UnknownEscape),
        }
    } else {
        Chunk::Stop
    }
}

/// A piece of a bytes literal: plain bytes, or an escape.
pub open spec fn bytes_chunk(s: Seq<u8>, p: int) -> Chunk {
    let q = run_end(s, p, ByteClass::Plain);
    if q > p {
        Chunk::Plain(q)
    } else if byte_at(s, p, ascii::BACKSLASH) {
        match byte_escape(s, p + 1) {
            Some((e, b)) => Chunk::Item(e, b as int),
            None => Chunk::Fail(p + 1, TokenError::UnknownEscape),
        }
    } else {
        Chunk::Stop
    }
}

pub open spec fn chunk(s: Seq<u8>, p: int, text: bool) -> Chunk {
    if text {
        str_chunk(s, p)
    } else {
        bytes_chunk(s, p)
    }
}

/// End of the position a chunk reaches, when it is one.
pub open spec fn chunk_end(c: Chunk) -> Option<int> {
    match c {
        Chunk::Plain(q) => Some(q),
        Chunk::Item(e, _) => Some(e),
        _ => None,
    }
}

/// How a run of pieces ends: where the pieces stop, or a failure.
pub ghost enum Run {
    Stop(int),
    Fail(int, TokenError),
}

/// Read pieces from `p` until none starts.
pub open spec fn chunks(s: Seq<u8>, p: int, text: bool) -> Run
    decreases s.len() - p,
{
    match chunk(s, p, text) {
        Chunk::Fail(x, e) => Run::Fail(x, e),
        c => match chunk_end(c) {
            Some(q) => if p < q <= s.len() {
                chunks(s, q, text)
            } else {
                Run::Stop(p)
            },
            None => Run::Stop(p),
        },
    }
}

/// A string (`text`) or bytes literal whose contents start at `a`.
pub open spec fn quoted(s: Seq<u8>, a: int, text: bool) -> Lex {
    match chunks(s, a, text) {
        Run::Fail(x, e) => Lex::Fail(x, e),
        Run::Stop(q) => if byte_at(s, q, ascii::DQUOTE) {
            Lex::Tok(
                q + 1,
                if text {
                    SpecToken::Str(s.subrange(a, q))
                } else {
                    SpecToken::Bytes(s.subrange(a, q))
                },
            )
        } else {
            Lex::NoMatch
        },
    }
}

pub open spec fn string_tok(s: Seq<u8>, i: int) -> Lex {
    if byte_at(s, i, ascii::DQUOTE) {
        quoted(s, i + 1, true)
    } else {
        Lex::NoMatch
    }
}

pub open spec fn bytes_tok(s: Seq<u8>, i: int) -> Lex {
    if byte_at(s, i, ascii::LOWER_B) && byte_at(s, i + 1, ascii::DQUOTE) {
        quoted(s, i + 2, false)
    } else {
        Lex::NoMatch
    }
}

/// How the inside of a character literal ends.
pub ghost enum CharBody {
    /// the position of the closing quote, and the character
    Found(int, char),
    NoMatch,
    Fail(int, TokenError),
}

/// A character literal written as an escape.
pub open spec fn char_escaped(s: Seq<u8>, a: int) -> CharBody {
    if !byte_at(s, a, ascii::BACKSLASH) {
        CharBody::NoMatch
    } else {
        match char_escape(s, a + 1) {
            None => CharBody::Fail(a + 1, TokenError::UnknownEscape),
            Some((e, c)) => if byte_at(s, e, ascii::SQUOTE) {
                CharBody::Found(e, c)
            } else {
                CharBody::NoMatch
            },
        }
    }
}

/// A character literal written as up to four bytes of UTF-8 that
/// decode to exactly one character.
pub open spec fn char_plain(s: Seq<u8>, a: int) -> CharBody {
    let j = run_end(s, a, ByteClass::NotQuote);
    let content = s.subrange(a, j);
    if j >= s.len() {
        CharBody::Fail(a, TokenError::UnknownToken)
    } else if content.len() > 4 {
        CharBody::Fail(a, TokenError::InvalidCharLiteral)
    } else if !valid_utf8(content) {
        CharBody::Fail(a, TokenError::InvalidUtf8)
    } else if decode_utf8(content).len() != 1 {
        CharBody::Fail(a, TokenError::InvalidCharLiteral)
    } else {
        CharBody::Found(j, decode_utf8(content)[0])
    }
}

pub open spec fn char_tok(s: Seq<u8>, i: int) -> Lex {
    if !byte_at(s, i, ascii::SQUOTE) {
        Lex::NoMatch
    } else {
        match char_escaped(s, i + 1) {
            CharBody::Fail(x, e) => Lex::Fail(x, e),
            CharBody::Found(j, c) => Lex::Tok(j + 1, SpecToken::Char(c)),
            CharBody::NoMatch => match char_plain(s, i + 1) {
                CharBody::Found(j, c) => Lex::Tok(j + 1, SpecToken::Char(c)),
                CharBody::Fail(x, e) => Lex::Fail(x, e),
                CharBody::NoMatch => Lex::NoMatch,
            },
        }
    }
}

pub open spec fn is_word(x: Seq<u8>, w: Seq<u8>) -> bool {
    x =~= w
}

/// A word: an identifier, or one of `none`, `true` and `false`. It may
/// not start with a digit, and a leading backslash makes any word an
/// identifier.
pub open spec fn ident_tok(s: Seq<u8>, i: int) -> Lex {
    let p = if byte_at(s, i, ascii::BACKSLASH) {
        i + 1
    } else {
        i
    };
    let q = run_end(s, p, ByteClass::Word);
    if q > p && !digit_at(s, i) && boundary(s, q) {
        let text = s.subrange(i, q);
        Lex::Tok(
            q,
            if is_word(text, seq![ascii::LOWER_N, ascii::LOWER_O, ascii::LOWER_N, ascii::LOWER_E]) {
                SpecToken::NoneValue
            } else if is_word(text, seq![ascii::LOWER_T, ascii::LOWER_R, ascii::LOWER_U, ascii::LOWER_E]) {
                SpecToken::Bool(true)
            } else if is_word(text, seq![ascii::LOWER_F, ascii::LOWER_A, ascii::LOWER_L, ascii::LOWER_S, ascii::LOWER_E]) {
                SpecToken::Bool(false)
            } else if p > i {
                SpecToken::Ident(s.subrange(i + 1, q))
            } else {
                SpecToken::Ident(text)
            },
        )
    } else {
        Lex::NoMatch
    }
}

pub open spec fn first_match(a: Lex, b: Lex) -> Lex {
    match a {
        Lex::NoMatch => b,
        _ => a,
    }
}

/// The first kind of token that starts at `i`, in the order newline,
/// comma, unit, symbol, integer, float, character, string, bytes, word.
pub open spec fn token_body(s: Seq<u8>, i: int) -> Lex {
    first_match(
        newline_tok(s, i),
        first_match(
            comma_tok(s, i),
            first_match(
                unit_tok(s, i),
                first_match(
                    symbol_tok(s, i),
                    first_match(
                        integer_tok(s, i),
                        first_match(
                            float_tok(s, i),
                            first_match(
                                char_tok(s, i),
                                first_match(
                                    string_tok(s, i),
                                    first_match(bytes_tok(s, i), ident_tok(s, i)),
                                ),
                            ),
                        ),
                    ),
                ),
            ),
        ),
    )
}

/// A token and the whitespace after it.
pub open spec fn token(s: Seq<u8>, i: int) -> Lex {
    match token_body(s, i) {
        Lex::Tok(e, t) => Lex::Tok(ws0(s, e), t),
        r => r,
    }
}

} // verus!

verus! {

pub proof fn lemma_run_end(s: Seq<u8>, i: int, c: ByteClass)
    requires
        0 <= i <= s.len(),
    ensures
        i <= run_end(s, i, c) <= s.len(),
        forall|k: int| i <= k < run_end(s, i, c) ==> in_class(#[trigger] s[k], c),
        run_end(s, i, c) < s.len() ==> !in_class(s[run_end(s, i, c)], c),
    decreases s.len() - i,
{
    if i < s.len() && in_class(s[i], c) {
        lemma_run_end(s, i + 1, c);
    }
}

pub proof fn lemma_ws_single(s: Seq<u8>, i: int)
    requires
        0 <= i <= s.len(),
    ensures
        ws_single(s, i) matches Some(j) ==> i < j <= s.len(),
{
    if 0 <= i < s.len() && in_class(s[i], ByteClass::Blank) {
        lemma_run_end(s, i, ByteClass::Blank);
    } else if byte_at(s, i, ascii::HASH) {
        lemma_run_end(s, i + 1, ByteClass::CommentBody);
    }
}

pub proof fn lemma_ws0(s: Seq<u8>, i: int)
    requires
        0 <= i <= s.len(),
    ensures
        i <= ws0(s, i) <= s.len(),
    decreases s.len() - i,
{
    lemma_ws_single(s, i);
    if let Some(j) = ws_single(s, i) {
        lemma_ws0(s, j);
    }
}

pub proof fn lemma_newlines0(s: Seq<u8>, i: int)
    requires
        0 <= i <= s.len(),
    ensures
        i <= newlines0(s, i) <= s.len(),
    decreases s.len() - i,
{
    if let Some(j) = line_ending(s, i) {
        lemma_ws0(s, j);
        lemma_newlines0(s, ws0(s, j));
    }
}

} // verus!

verus! {

pub proof fn lemma_digits_value_nonneg(s: Seq<u8>, a: int, j: int, r: int)
    requires
        r >= 1,
    ensures
        0 <= digits_value(s, a, j, r),
    decreases j - a,
{
    if j > a {
        lemma_digits_value_nonneg(s, a, j - 1, r);
        let v = digits_value(s, a, j - 1, r);
        assert(v * r >= 0) by (nonlinear_arith)
            requires
                v >= 0,
                r >= 1,
        ;
    }
}

pub proof fn lemma_digits_value_mono(s: Seq<u8>, a: int, k: int, j: int, r: int)
    requires
        a <= k <= j,
        r >= 1,
    ensures
        0 <= digits_value(s, a, k, r) <= digits_value(s, a, j, r),
    decreases j - k,
{
    lemma_digits_value_nonneg(s, a, k, r);
    if k < j {
        lemma_digits_value_mono(s, a, k, j - 1, r);
        let v = digits_value(s, a, j - 1, r);
        assert(v * r >= v) by (nonlinear_arith)
            requires
                v >= 0,
                r >= 1,
        ;
    }
}

} // verus!

verus! {

/// `r^n - 1`: the largest value of `n` digits in radix `r`.
pub open spec fn digits_cap(n: int, r: int) -> int
    decreases n,
{
    if n <= 0 {
        0
    } else {
        digits_cap(n - 1, r) * r + (r - 1)
    }
}

pub proof fn lemma_digits_value_upper(s: Seq<u8>, a: int, j: int, r: int)
    requires
        a <= j <= s.len(),
        0 <= a,
        r >= 1,
        forall|k: int| a <= k < j ==> digit_val(#[trigger] s[k]) < r,
    ensures
        digits_value(s, a, j, r) <= digits_cap(j - a, r),
    decreases j - a,
{
    if j > a {
        lemma_digits_value_upper(s, a, j - 1, r);
        let v = digits_value(s, a, j - 1, r);
        let c = digits_cap(j - 1 - a, r);
        assert(v * r <= c * r) by (nonlinear_arith)
            requires
                v <= c,
                r >= 1,
        ;
        assert(digit_val(s[j - 1]) <= r - 1);
    }
}

/// Every byte of `s[lo..hi]` is ASCII.
pub open spec fn ascii_range(s: Seq<u8>, lo: int, hi: int) -> bool {
    forall|k: int| lo <= k < hi ==> #[trigger] s[k] <= 0x7f
}

pub proof fn lemma_longest_valid_prefix(x: Seq<u8>, k: int, v: int)
    requires
        0 <= v <= k <= x.len(),
        valid_utf8(x.subrange(0, v)),
        forall|j: int| v < j <= k ==> !valid_utf8(#[trigger] x.subrange(0, j)),
    ensures
        longest_valid_prefix(x, k) == v,
    decreases k,
{
    if k > v {
        lemma_longest_valid_prefix(x, k - 1, v);
    }
}

pub proof fn lemma_longest_valid_prefix_bound(x: Seq<u8>, k: int)
    requires
        0 <= k,
    ensures
        0 <= longest_valid_prefix(x, k) <= k,
    decreases k,
{
    if k > 0 && !valid_utf8(x.subrange(0, k)) {
        lemma_longest_valid_prefix_bound(x, k - 1);
    }
}

/// A malformed piece fails inside the input: before its end, or right
/// after a backslash.
pub proof fn lemma_chunk_fail(s: Seq<u8>, p: int, text: bool)
    requires
        0 <= p <= s.len(),
    ensures
        chunk(s, p, text) matches Chunk::Fail(x, _) ==> p <= x <= s.len() && (x < s.len()
            || byte_at(s, x - 1, ascii::BACKSLASH)),
{
    lemma_run_end(s, p, ByteClass::Plain);
    let q = run_end(s, p, ByteClass::Plain);
    if q > p {
        lemma_longest_valid_prefix_bound(s.subrange(p, q), q - p);
    }
}


} // verus!

verus! {

pub proof fn lemma_chunks_fail_not_eof(s: Seq<u8>, p: int, text: bool)
    ensures
        chunks(s, p, text) matches Run::Fail(_, e) ==> e != TokenError::Eof,
    decreases s.len() - p,
{
    match chunk(s, p, text) {
        Chunk::Fail(_, _) => {},
        c => match chunk_end(c) {
            Some(q) => if p < q <= s.len() {
                lemma_chunks_fail_not_eof(s, q, text);
            },
            None => {},
        },
    }
}

/// A token never fails with `Eof`: that error only marks the end of input.
pub proof fn lemma_token_fail_not_eof(s: Seq<u8>, i: int)
    ensures
        token(s, i) matches Lex::Fail(_, e) ==> e != TokenError::Eof,
{
    lemma_chunks_fail_not_eof(s, i + 1, true);
    lemma_chunks_fail_not_eof(s, i + 2, false);
}

} // verus!

verus! {

/// A run of a class read inside the window `s[a..q]` ends where the run
/// in `s` does, or at the end of the window.
pub proof fn lemma_run_end_window(s: Seq<u8>, a: int, q: int, i: int, c: ByteClass)
    requires
        0 <= a <= i <= q <= s.len(),
    ensures
        run_end(s.subrange(a, q), i - a, c) == (if run_end(s, i, c) < q {
            run_end(s, i, c)
        } else {
            q
        }) - a,
    decreases q - i,
{
    let t = s.subrange(a, q);
    lemma_run_end(s, i, c);
    if i < q && in_class(s[i], c) {
        lemma_run_end_window(s, a, q, i + 1, c);
        assert(t[i - a] == s[i]);
    } else if i < q {
        assert(t[i - a] == s[i]);
    }
}

/// Digits read inside a window have the value they have in `s`.
pub proof fn lemma_digits_value_window(s: Seq<u8>, a: int, q: int, x: int, y: int, r: int)
    requires
        0 <= a <= x <= y <= q <= s.len(),
    ensures
        digits_value(s.subrange(a, q), x - a, y - a, r) == digits_value(s, x, y, r),
    decreases y - x,
{
    if y > x {
        lemma_digits_value_window(s, a, q, x, y - 1, r);
        assert(s.subrange(a, q)[y - 1 - a] == s[y - 1]);
    }
}

/// An escape that ends inside a window reads the same there.
pub proof fn lemma_char_escape_window(s: Seq<u8>, a: int, q: int, p: int)
    requires
        0 <= a <= p,
        q <= s.len(),
        char_escape(s, p) matches Some((e, _)) && e <= q,
    ensures
        char_escape(s.subrange(a, q), p - a) == (match char_escape(s, p) {
            Some((e, c)) => Some((e - a, c)),
            None => None::<(int, char)>,
        }),
{
    let t = s.subrange(a, q);
    let (e, c) = char_escape(s, p).unwrap();
    assert(p < e) by {
        if s[p] == ascii::LOWER_U && byte_at(s, p + 1, ascii::LBRACE) {
            lemma_run_end(s, p + 2, ByteClass::Digit(16));
        }
    }
    assert(t[p - a] == s[p]);
    if s[p] == ascii::LOWER_X && p + 2 < s.len() && ascii::DIGIT_0 <= s[p + 1] <= ascii::DIGIT_7
        && hex_at(s, p + 2) {
        assert(t[p + 1 - a] == s[p + 1]);
        assert(t[p + 2 - a] == s[p + 2]);
        lemma_digits_value_window(s, a, q, p + 1, p + 3, 16);
    } else if s[p] == ascii::LOWER_U && byte_at(s, p + 1, ascii::LBRACE) {
        assert(t[p + 1 - a] == s[p + 1]);
        lemma_run_end(s, p + 2, ByteClass::Digit(16));
        lemma_run_end_window(s, a, q, p + 2, ByteClass::Digit(16));
        let run = run_end(s, p + 2, ByteClass::Digit(16));
        let k = if run < p + 8 {
            run
        } else {
            p + 8
        };
        lemma_digits_value_window(s, a, q, p + 2, k, 16);
        assert(t[k - a] == s[k]);
    }
}

/// A byte escape that ends inside a window reads the same there.
pub proof fn lemma_byte_escape_window(s: Seq<u8>, a: int, q: int, p: int)
    requires
        0 <= a <= p,
        q <= s.len(),
        byte_escape(s, p) matches Some((e, _)) && e <= q,
    ensures
        byte_escape(s.subrange(a, q), p - a) == (match byte_escape(s, p) {
            Some((e, b)) => Some((e - a, b)),
            None => None::<(int, u8)>,
        }),
{
    let t = s.subrange(a, q);
    assert(t[p - a] == s[p]);
    if s[p] == ascii::LOWER_X && hex_at(s, p + 1) && hex_at(s, p + 2) {
        assert(t[p + 1 - a] == s[p + 1]);
        assert(t[p + 2 - a] == s[p + 2]);
        lemma_digits_value_window(s, a, q, p + 1, p + 3, 16);
    }
}

/// Pieces read from `p` stop at or after `p`, inside the input.
pub proof fn lemma_chunks_stop_after(s: Seq<u8>, p: int, text: bool)
    requires
        0 <= p <= s.len(),
    ensures
        chunks(s, p, text) matches Run::Stop(q) ==> p <= q <= s.len(),
    decreases s.len() - p,
{
    match chunk(s, p, text) {
        Chunk::Fail(_, _) => {},
        c => match chunk_end(c) {
            Some(q) => if p < q <= s.len() {
                lemma_chunks_stop_after(s, q, text);
            },
            None => {},
        },
    }
}

/// Pieces that run from `p` to a stop at `q` run the same way inside the
/// window `s[a..q]`.
pub proof fn lemma_chunks_window(s: Seq<u8>, a: int, p: int, q: int, text: bool)
    requires
        0 <= a <= p <= q <= s.len(),
        chunks(s, p, text) == Run::Stop(q),
    ensures
        chunks(s.subrange(a, q), p - a, text) == Run::Stop(q - a),
    decreases q - p,
{
    let t = s.subrange(a, q);
    lemma_run_end(s, p, ByteClass::Plain);
    lemma_run_end_window(s, a, q, p, ByteClass::Plain);
    let c = chunk(s, p, text);
    match c {
        Chunk::Plain(q2) => {
            if p < q2 <= s.len() {
                lemma_chunks_stop_after(s, q2, text);
                assert(t.subrange(p - a, q2 - a) =~= s.subrange(p, q2));
                assert(chunk(t, p - a, text) == Chunk::Plain(q2 - a));
                lemma_chunks_window(s, a, q2, q, text);
            } else {
                assert(p == q);
            }
        },
        Chunk::Item(e, _) => {
            if p < e <= s.len() {
                lemma_chunks_stop_after(s, e, text);
                assert(t[p - a] == s[p]);
                if text {
                    lemma_char_escape_window(s, a, q, p + 1);
                } else {
                    lemma_byte_escape_window(s, a, q, p + 1);
                }
                assert(chunk(t, p - a, text) == (match c {
                    Chunk::Item(e, x) => Chunk::Item(e - a, x),
                    _ => c,
                }));
                lemma_chunks_window(s, a, e, q, text);
            } else {
                assert(p == q);
            }
        },
        Chunk::Stop => {
            assert(p == q);
        },
        Chunk::Fail(_, _) => {},
    }
    if p == q {
        assert(chunk(t, p - a, text) == Chunk::Stop);
    }
}

} // verus!

verus! {

/// A string or bytes token holds a well-formed literal body: its pieces
/// run from its start to its end. Other tokens hold nothing to check.
pub open spec fn token_wf(t: SpecToken) -> bool {
    match t {
        SpecToken::Str(b) => chunks(b, 0, true) == Run::Stop(b.len() as int),
        SpecToken::Bytes(b) => chunks(b, 0, false) == Run::Stop(b.len() as int),
        _ => true,
    }
}

proof fn lemma_quoted_wf(s: Seq<u8>, a: int, text: bool)
    requires
        0 <= a <= s.len(),
    ensures
        quoted(s, a, text) matches Lex::Tok(_, t) ==> token_wf(t),
{
    lemma_chunks_stop_after(s, a, text);
    if let Run::Stop(q) = chunks(s, a, text) {
        lemma_chunks_window(s, a, a, q, text);
    }
}

/// Every string or bytes token read from the source holds a well-formed
/// literal body.
pub proof fn lemma_token_wf(s: Seq<u8>, i: int)
    requires
        0 <= i <= s.len(),
    ensures
        token(s, i) matches Lex::Tok(_, t) ==> token_wf(t),
{
    if i + 1 <= s.len() {
        lemma_quoted_wf(s, i + 1, true);
    }
    if i + 2 <= s.len() {
        lemma_quoted_wf(s, i + 2, false);
    }
}

} // verus!

verus! {

proof fn lemma_char_escape_bounds(s: Seq<u8>, p: int)
    requires
        0 <= p,
    ensures
        char_escape(s, p) matches Some((e, _)) ==> p < e <= s.len(),
{
    if 0 <= p < s.len() && s[p] == ascii::LOWER_U && byte_at(s, p + 1, ascii::LBRACE) {
        lemma_run_end(s, p + 2, ByteClass::Digit(16));
    }
}

proof fn lemma_int_body_bounds(s: Seq<u8>, p: int)
    requires
        0 <= p <= s.len(),
    ensures
        int_body(s, p) matches Some((a, e, _)) ==> p <= a < e <= s.len(),
{
    if p + 2 <= s.len() {
        lemma_run_end(s, p + 2, ByteClass::Digit(16));
        lemma_run_end(s, p + 2, ByteClass::Digit(8));
        lemma_run_end(s, p + 2, ByteClass::Digit(2));
    }
    lemma_run_end(s, p, ByteClass::Digit(10));
}

proof fn lemma_float_bounds(s: Seq<u8>, i: int)
    requires
        0 <= i <= s.len(),
    ensures
        float_tok(s, i) matches Lex::Tok(e, _) ==> i < e <= s.len(),
{
    let p = after_sign(s, i);
    lemma_run_end(s, p, ByteClass::Digit(10));
    let q = run_end(s, p, ByteClass::Digit(10));
    if q + 1 <= s.len() {
        lemma_run_end(s, q + 1, ByteClass::Digit(10));
    }
    if p + 1 <= s.len() {
        lemma_run_end(s, p + 1, ByteClass::Digit(10));
    }
    let m = mantissa_end(s, p);
    if 0 <= m && m + 1 <= s.len() {
        let r = after_sign(s, m + 1);
        if r <= s.len() {
            lemma_run_end(s, r, ByteClass::Digit(10));
        }
    }
}

proof fn lemma_char_tok_bounds(s: Seq<u8>, i: int)
    requires
        0 <= i <= s.len(),
    ensures
        char_tok(s, i) matches Lex::Tok(e, _) ==> i < e <= s.len(),
{
    if byte_at(s, i, ascii::SQUOTE) {
        lemma_char_escape_bounds(s, i + 2);
        lemma_run_end(s, i + 1, ByteClass::NotQuote);
    }
}

/// A token read at `i` ends after `i`, inside the input.
pub proof fn lemma_token_advances(s: Seq<u8>, i: int)
    requires
        0 <= i <= s.len(),
    ensures
        token(s, i) matches Lex::Tok(e, _) ==> i < e <= s.len(),
{
    lemma_ws0(s, i);
    if i + 1 <= s.len() {
        lemma_ws0(s, i + 1);
        lemma_newlines0(s, i + 1);
        lemma_chunks_stop_after(s, i + 1, true);
        lemma_run_end(s, i + 1, ByteClass::Word);
    }
    if i + 2 <= s.len() {
        lemma_ws0(s, i + 2);
        lemma_chunks_stop_after(s, i + 2, false);
    }
    lemma_run_end(s, i, ByteClass::Word);
    if let Some(j) = line_ending(s, i) {
        lemma_ws0(s, j);
        lemma_newlines0(s, ws0(s, j));
    }
    lemma_int_body_bounds(s, after_sign(s, i));
    lemma_float_bounds(s, i);
    lemma_char_tok_bounds(s, i);
    if let Lex::Tok(e, _) = token_body(s, i) {
        if i < e <= s.len() {
            lemma_ws0(s, e);
        }
    }
}


/// Identifiers and keywords are made of exactly the ASCII letters of
/// both cases, the decimal digits and the underscore.
pub proof fn lemma_word_bytes(b: u8)
    ensures
        in_class(b, ByteClass::Word) <==> (97 <= b <= 122 || 65 <= b <= 90 || 48 <= b <= 57 || b
            == 95),
{
}

/// The value of a hexadecimal digit written as an ASCII byte, or `-1`.
pub open spec fn hex_digit_value(b: u8) -> int {
    if 48 <= b <= 57 {
        b - 48
    } else if 97 <= b <= 102 {
        b - 87
    } else if 65 <= b <= 70 {
        b - 55
    } else {
        -1
    }
}

/// Every escape of a string or character stands for the character that
/// Rust gives it: `\n`, `\r`, `\t`, `\\`, `\0`, `\"` and `\'` for a
/// newline, carriage return, tab, backslash, NUL, double quote and single
/// quote; `\xHL`, with `H` at most 7, for the ASCII character `0xHL`.
/// Each ends right after what it reads.
pub proof fn lemma_char_escapes(s: Seq<u8>, p: int)
    requires
        0 <= p < s.len(),
    ensures
        s[p] == 110 ==> char_escape(s, p) == Some((p + 1, '\n')),
        s[p] == 114 ==> char_escape(s, p) == Some((p + 1, '\r')),
        s[p] == 116 ==> char_escape(s, p) == Some((p + 1, '\t')),
        s[p] == 92 ==> char_escape(s, p) == Some((p + 1, '\\')),
        s[p] == 48 ==> char_escape(s, p) == Some((p + 1, '\0')),
        s[p] == 34 ==> char_escape(s, p) == Some((p + 1, '"')),
        s[p] == 39 ==> char_escape(s, p) == Some((p + 1, '\'')),
        s[p] == 120 && p + 2 < s.len() && 48 <= s[p + 1] <= 55 && hex_digit_value(s[p + 2]) >= 0
            ==> (char_escape(s, p) matches Some((e, c)) && e == p + 3 && c as int == 16 * (s[p + 1]
            - 48) + hex_digit_value(s[p + 2])),
{
    if s[p] == 120 && p + 2 < s.len() && 48 <= s[p + 1] <= 55 && hex_digit_value(s[p + 2]) >= 0 {
        reveal_with_fuel(digits_value, 3);
        assert(digits_value(s, p + 1, p + 3, 16) == 16 * (s[p + 1] - 48) + hex_digit_value(s[p + 2]));
    }
}

/// Every escape of a bytes literal stands for the byte that Rust gives
/// it: `\n`, `\r`, `\t`, `\\`, `\0`, `\"` and `\'` for 10, 13, 9, 92,
/// 0, 34 and 39; `\xHL` for the byte `0xHL`. Each ends right after what
/// it reads.
pub proof fn lemma_byte_escapes(s: Seq<u8>, p: int)
    requires
        0 <= p < s.len(),
    ensures
        s[p] == 110 ==> byte_escape(s, p) == Some((p + 1, 10u8)),
        s[p] == 114 ==> byte_escape(s, p) == Some((p + 1, 13u8)),
        s[p] == 116 ==> byte_escape(s, p) == Some((p + 1, 9u8)),
        s[p] == 92 ==> byte_escape(s, p) == Some((p + 1, 92u8)),
        s[p] == 48 ==> byte_escape(s, p) == Some((p + 1, 0u8)),
        s[p] == 34 ==> byte_escape(s, p) == Some((p + 1, 34u8)),
        s[p] == 39 ==> byte_escape(s, p) == Some((p + 1, 39u8)),
        s[p] == 120 && p + 2 < s.len() && hex_digit_value(s[p + 1]) >= 0 && hex_digit_value(
            s[p + 2],
        ) >= 0 ==> (byte_escape(s, p) matches Some((e, b)) && e == p + 3 && b == 16
            * hex_digit_value(s[p + 1]) + hex_digit_value(s[p + 2])),
{
    if s[p] == 120 && p + 2 < s.len() && hex_digit_value(s[p + 1]) >= 0 && hex_digit_value(s[p + 2]) >= 0 {
        reveal_with_fuel(digits_value, 3);
        assert(digits_value(s, p + 1, p + 3, 16) == 16 * hex_digit_value(s[p + 1]) + hex_digit_value(s[p + 2]));
    }
}

} // verus!
