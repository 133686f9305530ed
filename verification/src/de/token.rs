//! Turn source bytes into tokens.

use vstd::prelude::*;
use vstd::string::StrSliceExecFns;
use vstd::string::StringSliceAdditionalSpecFns;
use vstd::utf8::{decode_utf8, encode_utf8_decode_utf8, is_scalar, valid_utf8};

use crate::ascii;
use crate::de::grammar::{self, ByteClass, Lex};
use crate::syntax::{Int, Token, Value};
use crate::types::escaped::Escaped;
use crate::types::location::{column_after, newline_count, LocResult, Located};
use crate::utf8::{char_from_u32, lemma_ascii_valid_utf8, str_from_utf8, valid_prefix_len};

verus! {

/// Errors produced by [Tokenizer].
#[derive(Clone, Copy, Debug, PartialEq, Eq, Structural)]
pub enum TokenError {
    /// End of file (there is no more input to consume).
    Eof,
    /// The tokenizer found something it didn't recognize.
    UnknownToken,
    /// An integer literal was too big to fit into an `i64`.
    IntRange,
    /// There is invalid utf-8 inside a string literal.
    InvalidUtf8,
    /// There is an invalid escape sequence inside a string or bytes literal.
    UnknownEscape,
    /// There is an invalid character literal.
    InvalidCharLiteral,
}

/// How reading one kind of token at a position ended.
pub(crate) enum Scan<'a> {
    Tok(usize, Token<'a>),
    NoMatch,
    Fail(usize, TokenError),
}

impl<'a> Scan<'a> {
    pub(crate) open spec fn spec_lex(self) -> Lex {
        match self {
            Scan::Tok(e, t) => Lex::Tok(e as int, t@),
            Scan::NoMatch => Lex::NoMatch,
            Scan::Fail(p, e) => Lex::Fail(p as int, e),
        }
    }
}

fn digit_value(b: u8) -> (r: u32)
    ensures
        r == grammar::digit_val(b),
{
    if ascii::DIGIT_0 <= b && b <= ascii::DIGIT_9 {
        (b - ascii::DIGIT_0) as u32
    } else if ascii::LOWER_A <= b && b <= ascii::LOWER_F {
        (b - ascii::LOWER_A + 10) as u32
    } else if ascii::UPPER_A <= b && b <= ascii::UPPER_F {
        (b - ascii::UPPER_A + 10) as u32
    } else {
        99
    }
}

fn in_class(b: u8, c: ByteClass) -> (r: bool)
    ensures
        r == grammar::in_class(b, c),
{
    match c {
        ByteClass::Blank => b == ascii::SPACE || b == ascii::TAB,
        ByteClass::CommentBody => b != ascii::CR && b != ascii::LF,
        ByteClass::Digit(r) => digit_value(b) < r,
        ByteClass::Word => (ascii::LOWER_A <= b && b <= ascii::LOWER_Z) || (ascii::UPPER_A <= b
            && b <= ascii::UPPER_Z) || (ascii::DIGIT_0 <= b && b <= ascii::DIGIT_9) || b
            == ascii::UNDERSCORE,
        ByteClass::Plain => b != ascii::DQUOTE && b != ascii::BACKSLASH,
        ByteClass::NotQuote => b != ascii::SQUOTE,
    }
}

fn byte_at(s: &[u8], i: usize, b: u8) -> (r: bool)
    ensures
        r == grammar::byte_at(s@, i as int, b),
{
    i < s.len() && s[i] == b
}

fn run_end(s: &[u8], i: usize, c: ByteClass) -> (r: usize)
    requires
        i <= s.len(),
    ensures
        r == grammar::run_end(s@, i as int, c),
        i <= r <= s@.len(),
{
    let mut j = i;
    while j < s.len() && in_class(s[j], c)
        invariant
            i <= j <= s@.len(),
            grammar::run_end(s@, i as int, c) == grammar::run_end(s@, j as int, c),
        decreases s@.len() - j,
    {
        j = j + 1;
    }
    j
}

fn ws_single(s: &[u8], i: usize) -> (r: Option<usize>)
    requires
        i <= s.len(),
    ensures
        match r {
            Some(j) => grammar::ws_single(s@, i as int) == Some(j as int),
            None => grammar::ws_single(s@, i as int) is None,
        },
{
    proof {
        grammar::lemma_ws_single(s@, i as int);
    }
    if i < s.len() && in_class(s[i], ByteClass::Blank) {
        Some(run_end(s, i, ByteClass::Blank))
    } else if byte_at(s, i, ascii::HASH) {
        let j = run_end(s, i + 1, ByteClass::CommentBody);
        if byte_at(s, j, ascii::CR) && !byte_at(s, j + 1, ascii::LF) {
            None
        } else {
            Some(j)
        }
    } else {
        None
    }
}

fn ws0(s: &[u8], i: usize) -> (r: usize)
    requires
        i <= s.len(),
    ensures
        r == grammar::ws0(s@, i as int),
        i <= r <= s@.len(),
{
    let mut j = i;
    proof {
        grammar::lemma_ws0(s@, i as int);
    }
    loop
        invariant
            i <= j <= s@.len(),
            grammar::ws0(s@, i as int) == grammar::ws0(s@, j as int),
        decreases s@.len() - j,
    {
        proof {
            grammar::lemma_ws_single(s@, j as int);
        }
        match ws_single(s, j) {
            Some(k) => {
                j = k;
            },
            None => {
                return j;
            },
        }
    }
}

fn line_ending(s: &[u8], i: usize) -> (r: Option<usize>)
    requires
        i <= s.len(),
    ensures
        match r {
            Some(j) => grammar::line_ending(s@, i as int) == Some(j as int) && j <= s@.len(),
            None => grammar::line_ending(s@, i as int) is None,
        },
{
    if byte_at(s, i, ascii::LF) {
        Some(i + 1)
    } else if byte_at(s, i, ascii::CR) && byte_at(s, i + 1, ascii::LF) {
        Some(i + 2)
    } else {
        None
    }
}

fn newlines0(s: &[u8], i: usize) -> (r: usize)
    requires
        i <= s.len(),
    ensures
        r == grammar::newlines0(s@, i as int),
        i <= r <= s@.len(),
{
    let mut j = i;
    loop
        invariant
            i <= j <= s@.len(),
            grammar::newlines0(s@, i as int) == grammar::newlines0(s@, j as int),
        decreases s@.len() - j,
    {
        match line_ending(s, j) {
            Some(k) => {
                j = ws0(s, k);
            },
            None => {
                return j;
            },
        }
    }
}

/// Skip whitespace, comments and newlines that lead a document.
pub(crate) fn leading_space(s: &[u8], i: usize) -> (r: usize)
    requires
        i <= s.len(),
    ensures
        r == grammar::leading_space(s@, i as int),
        i <= r <= s@.len(),
{
    let j = ws0(s, i);
    newlines0(s, j)
}

fn symbol<'a>(s: &[u8], i: usize) -> (r: Option<Token<'a>>)
    requires
        i <= s.len(),
    ensures
        match r {
            Some(t) => grammar::symbol(s@, i as int) == Some(t@),
            None => grammar::symbol(s@, i as int) is None,
        },
{
    if i >= s.len() {
        return None;
    }
    let b = s[i];
    if b == ascii::COMMA {
        Some(Token::Comma)
    } else if b == ascii::EQUALS {
        Some(Token::Equals)
    } else if b == ascii::LPAREN {
        Some(Token::ParenOpen)
    } else if b == ascii::RPAREN {
        Some(Token::ParenClose)
    } else if b == ascii::LBRACKET {
        Some(Token::ListOpen)
    } else if b == ascii::RBRACKET {
        Some(Token::ListClose)
    } else if b == ascii::LBRACE {
        Some(Token::MapOpen)
    } else if b == ascii::RBRACE {
        Some(Token::MapClose)
    } else {
        None
    }
}

fn boundary(s: &[u8], i: usize) -> (r: bool)
    requires
        i <= s.len(),
    ensures
        r == grammar::boundary(s@, i as int),
{
    i >= s.len() || line_ending(s, i).is_some() || symbol(s, i).is_some() || ws_single(
        s,
        i,
    ).is_some()
}

fn newline_tok<'a>(s: &[u8], i: usize) -> (r: Scan<'a>)
    requires
        i <= s.len(),
    ensures
        r.spec_lex() == grammar::newline_tok(s@, i as int),
        r matches Scan::Tok(e, _) ==> i < e <= s@.len(),
        !(r is Fail),
{
    match line_ending(s, i) {
        Some(j) => {
            let k = ws0(s, j);
            Scan::Tok(newlines0(s, k), Token::Newline)
        },
        None => Scan::NoMatch,
    }
}

fn comma_tok<'a>(s: &[u8], i: usize) -> (r: Scan<'a>)
    requires
        i <= s.len(),
    ensures
        r.spec_lex() == grammar::comma_tok(s@, i as int),
        r matches Scan::Tok(e, _) ==> i < e <= s@.len(),
        !(r is Fail),
{
    if byte_at(s, i, ascii::COMMA) {
        Scan::Tok(newlines0(s, i + 1), Token::Comma)
    } else {
        Scan::NoMatch
    }
}

fn unit_tok<'a>(s: &[u8], i: usize) -> (r: Scan<'a>)
    requires
        i <= s.len(),
    ensures
        r.spec_lex() == grammar::unit_tok(s@, i as int),
        r matches Scan::Tok(e, _) ==> i < e <= s@.len(),
        !(r is Fail),
{
    if byte_at(s, i, ascii::LPAREN) {
        let w = ws0(s, i + 1);
        if byte_at(s, w, ascii::RPAREN) {
            return Scan::Tok(w + 1, Token::Value(Value::Unit));
        }
    }
    Scan::NoMatch
}

fn symbol_tok<'a>(s: &[u8], i: usize) -> (r: Scan<'a>)
    requires
        i <= s.len(),
    ensures
        r.spec_lex() == grammar::symbol_tok(s@, i as int),
        r matches Scan::Tok(e, _) ==> i < e <= s@.len(),
        !(r is Fail),
{
    match symbol(s, i) {
        Some(t) => Scan::Tok(i + 1, t),
        None => Scan::NoMatch,
    }
}

} // verus!

verus! {

impl<'de> Tokenizer<'de> {
    /// The value of the digits `src` in `radix`, negated unless
    /// `is_positive`; [TokenError::IntRange] when it does not fit in an
    /// [Int].
    fn from_ascii_radix(is_positive: bool, src: &[u8], radix: u32) -> (res: Result<Int, TokenError>)
        requires
            2 <= radix <= 16,
            src@.len() > 0,
            forall|k: int| 0 <= k < src@.len() ==> grammar::in_class(#[trigger] src@[k], ByteClass::Digit(radix)),
        ensures
            ({
                let v = grammar::digits_value(src@, 0, src@.len() as int, radix as int);
                let x = if is_positive {
                    v
                } else {
                    -v
                };
                match res {
                    Ok(y) => y == x,
                    Err(e) => e == TokenError::IntRange && !(i64::MIN <= x <= i64::MAX),
                }
            }),
    {
        let negative = !is_positive;
        let e = src.len();
        let mut acc: i64 = 0;
        let mut k: usize = 0;
        let rr = radix as i64;
        while k < e
            invariant
                k <= e == src@.len(),
                2 <= radix <= 16,
                negative == !is_positive,
                rr == radix,
                acc == (if negative {
                    -grammar::digits_value(src@, 0, k as int, radix as int)
                } else {
                    grammar::digits_value(src@, 0, k as int, radix as int)
                }),
            decreases e - k,
        {
            let d = digit_value(src[k]) as i64;
            let ghost v = grammar::digits_value(src@, 0, k as int, radix as int);
            let ghost w = grammar::digits_value(src@, 0, k + 1, radix as int);
            proof {
                assert(w == v * radix + d);
                grammar::lemma_digits_value_mono(src@, 0, 0, k as int, radix as int);
                grammar::lemma_digits_value_mono(src@, 0, k + 1, e as int, radix as int);
                assert(v * radix <= w);
                if negative {
                    assert(acc * rr == -(v * radix)) by (nonlinear_arith)
                        requires
                            acc == -v,
                            rr == radix,
                    ;
                } else {
                    assert(acc * rr == v * radix) by (nonlinear_arith)
                        requires
                            acc == v,
                            rr == radix,
                    ;
                }
            }
            let m = match acc.checked_mul(rr) {
                Some(m) => m,
                None => {
                    return Err(TokenError::IntRange);
                },
            };
            let next = if negative {
                acc_checked(m.checked_sub(d))
            } else {
                acc_checked(m.checked_add(d))
            };
            match next {
                Some(n) => {
                    acc = n;
                },
                None => {
                    return Err(TokenError::IntRange);
                },
            }
            k = k + 1;
        }
        Ok(acc)
    }
}

fn acc_checked(x: Option<i64>) -> (r: Option<i64>)
    ensures
        r == x,
{
    x
}

} // verus!

verus! {

fn sign_at(s: &[u8], i: usize) -> (r: bool)
    requires
        i <= s.len(),
    ensures
        r == grammar::sign_at(s@, i as int),
{
    byte_at(s, i, ascii::PLUS) || byte_at(s, i, ascii::MINUS)
}

fn prefixed_digits(s: &[u8], p: usize, lower: u8, upper: u8, r: u32) -> (res: bool)
    requires
        p <= s.len(),
    ensures
        res == grammar::prefixed_digits(s@, p as int, lower, upper, r),
{
    if byte_at(s, p, ascii::DIGIT_0) && (byte_at(s, p + 1, lower) || byte_at(s, p + 1, upper)) {
        let e = run_end(s, p + 2, ByteClass::Digit(r));
        e > p + 2 && boundary(s, e)
    } else {
        false
    }
}

fn int_body(s: &[u8], p: usize) -> (res: Option<(usize, usize, u32)>)
    requires
        p <= s.len(),
    ensures
        match res {
            Some((a, e, r)) => {
                &&& grammar::int_body(s@, p as int) == Some((a as int, e as int, r))
                &&& p <= a < e <= s@.len()
                &&& 2 <= r <= 16
                &&& forall|k: int|
                    a <= k < e ==> grammar::in_class(#[trigger] s@[k], ByteClass::Digit(r))
            },
            None => grammar::int_body(s@, p as int) is None,
        },
{
    let (a, r) = if prefixed_digits(s, p, ascii::LOWER_X, ascii::UPPER_X, 16) {
        (p + 2, 16)
    } else if prefixed_digits(s, p, ascii::LOWER_O, ascii::UPPER_O, 8) {
        (p + 2, 8)
    } else if prefixed_digits(s, p, ascii::LOWER_B, ascii::UPPER_B, 2) {
        (p + 2, 2)
    } else {
        let e = run_end(s, p, ByteClass::Digit(10));
        if e > p && boundary(s, e) {
            (p, 10)
        } else {
            return None;
        }
    };
    let e = run_end(s, a, ByteClass::Digit(r));
    proof {
        grammar::lemma_run_end(s@, a as int, ByteClass::Digit(r));
    }
    Some((a, e, r))
}

fn integer_tok<'a>(s: &[u8], i: usize) -> (r: Scan<'a>)
    requires
        i <= s.len(),
    ensures
        r.spec_lex() == grammar::integer_tok(s@, i as int),
        r matches Scan::Tok(e, _) ==> i < e <= s@.len(),
        r matches Scan::Fail(x, _) ==> i <= x <= s@.len(),
{
    let p = if sign_at(s, i) {
        i + 1
    } else {
        i
    };
    match int_body(s, p) {
        Some((a, e, r)) => {
            proof {
                grammar::lemma_digits_value_window(s@, a as int, e as int, a as int, e as int, r as int);
            }
            match Tokenizer::from_ascii_radix(!byte_at(s, i, ascii::MINUS), &s[a..e], r) {
                Ok(v) => Scan::Tok(e, Token::Value(Value::Int(v))),
                Err(_) => Scan::Fail(i, TokenError::IntRange),
            }
        },
        None => Scan::NoMatch,
    }
}

fn digit_at(s: &[u8], i: usize) -> (r: bool)
    requires
        i <= s.len(),
    ensures
        r == grammar::digit_at(s@, i as int),
{
    i < s.len() && in_class(s[i], ByteClass::Digit(10))
}

/// A `&str` holding `s[lo..hi]`, which is ASCII.
fn ascii_str<'a>(s: &'a [u8], lo: usize, hi: usize) -> (r: &'a str)
    requires
        lo <= hi <= s.len(),
        grammar::ascii_range(s@, lo as int, hi as int),
    ensures
        r.spec_bytes() == s@.subrange(lo as int, hi as int),
{
    let b = &s[lo..hi];
    proof {
        lemma_ascii_valid_utf8(b@);
    }
    match str_from_utf8(b) {
        Ok(t) => t,
        Err(_) => {
            proof {
                assert(false);
            }
            ""
        },
    }
}

fn float_tok<'a>(s: &'a [u8], i: usize) -> (r: Scan<'a>)
    requires
        i <= s.len(),
    ensures
        r.spec_lex() == grammar::float_tok(s@, i as int),
        r matches Scan::Tok(e, _) ==> i < e <= s@.len(),
        r matches Scan::Fail(x, _) ==> i <= x <= s@.len(),
{
    let p = if sign_at(s, i) {
        i + 1
    } else {
        i
    };
    let m = if digit_at(s, p) {
        let q = run_end(s, p, ByteClass::Digit(10));
        proof {
            grammar::lemma_run_end(s@, p as int, ByteClass::Digit(10));
        }
        if byte_at(s, q, ascii::DOT) {
            proof {
                grammar::lemma_run_end(s@, q + 1, ByteClass::Digit(10));
            }
            run_end(s, q + 1, ByteClass::Digit(10))
        } else {
            q
        }
    } else if byte_at(s, p, ascii::DOT) && digit_at(s, p + 1) {
        proof {
            grammar::lemma_run_end(s@, p + 1, ByteClass::Digit(10));
        }
        run_end(s, p + 1, ByteClass::Digit(10))
    } else {
        return Scan::NoMatch;
    };
    // every byte of the mantissa is a sign, a digit or a point
    assert(grammar::ascii_range(s@, i as int, m as int)) by {
        assert forall|k: int| i <= k < m implies #[trigger] s@[k] <= 0x7f by {
            if k >= p && s@[k] != ascii::DOT {
                assert(grammar::in_class(s@[k], ByteClass::Digit(10)));
            }
        }
    }
    let end = if byte_at(s, m, ascii::LOWER_E) || byte_at(s, m, ascii::UPPER_E) {
        let r = if sign_at(s, m + 1) {
            m + 2
        } else {
            m + 1
        };
        if !digit_at(s, r) {
            return Scan::Fail(r, TokenError::UnknownToken);
        }
        let e = run_end(s, r, ByteClass::Digit(10));
        proof {
            grammar::lemma_run_end(s@, r as int, ByteClass::Digit(10));
            assert forall|k: int| i <= k < e implies #[trigger] s@[k] <= 0x7f by {
                if k >= r {
                    assert(grammar::in_class(s@[k], ByteClass::Digit(10)));
                }
            }
        }
        e
    } else {
        m
    };
    if !boundary(s, end) {
        return Scan::NoMatch;
    }
    Scan::Tok(end, Token::Value(Value::Float(ascii_str(s, i, end))))
}

fn matches_word(s: &[u8], lo: usize, hi: usize, w: &[u8]) -> (r: bool)
    requires
        lo <= hi <= s.len(),
    ensures
        r == grammar::is_word(s@.subrange(lo as int, hi as int), w@),
{
    if hi - lo != w.len() {
        return false;
    }
    let mut k: usize = 0;
    while k < w.len()
        invariant
            hi - lo == w@.len(),
            lo <= hi <= s@.len(),
            0 <= k <= w@.len(),
            forall|j: int| 0 <= j < k ==> s@[lo + j] == w@[j],
        decreases w@.len() - k,
    {
        if s[lo + k] != w[k] {
            return false;
        }
        k = k + 1;
    }
    assert(s@.subrange(lo as int, hi as int) =~= w@);
    true
}

fn ident_tok<'a>(s: &'a [u8], i: usize) -> (r: Scan<'a>)
    requires
        i <= s.len(),
    ensures
        r.spec_lex() == grammar::ident_tok(s@, i as int),
        r matches Scan::Tok(e, _) ==> i < e <= s@.len(),
        !(r is Fail),
{
    let p = if byte_at(s, i, ascii::BACKSLASH) {
        i + 1
    } else {
        i
    };
    let q = run_end(s, p, ByteClass::Word);
    if !(q > p && !digit_at(s, i) && boundary(s, q)) {
        return Scan::NoMatch;
    }
    proof {
        grammar::lemma_run_end(s@, p as int, ByteClass::Word);
        assert forall|k: int| i <= k < q implies #[trigger] s@[k] <= 0x7f by {
            if k >= p {
                assert(grammar::in_class(s@[k], ByteClass::Word));
            }
        }
    }
    let none: [u8; 4] = [ascii::LOWER_N, ascii::LOWER_O, ascii::LOWER_N, ascii::LOWER_E];
    let yes: [u8; 4] = [ascii::LOWER_T, ascii::LOWER_R, ascii::LOWER_U, ascii::LOWER_E];
    let no: [u8; 5] = [ascii::LOWER_F, ascii::LOWER_A, ascii::LOWER_L, ascii::LOWER_S, ascii::LOWER_E];
    assert(none@ == seq![ascii::LOWER_N, ascii::LOWER_O, ascii::LOWER_N, ascii::LOWER_E]);
    assert(yes@ == seq![ascii::LOWER_T, ascii::LOWER_R, ascii::LOWER_U, ascii::LOWER_E]);
    assert(no@ == seq![ascii::LOWER_F, ascii::LOWER_A, ascii::LOWER_L, ascii::LOWER_S, ascii::LOWER_E]);
    let tok = if matches_word(s, i, q, none.as_slice()) {
        Token::Value(Value::NoneValue)
    } else if matches_word(s, i, q, yes.as_slice()) {
        Token::Value(Value::Bool(true))
    } else if matches_word(s, i, q, no.as_slice()) {
        Token::Value(Value::Bool(false))
    } else if p > i {
        Token::Ident(ascii_str(s, i + 1, q))
    } else {
        Token::Ident(ascii_str(s, i, q))
    };
    Scan::Tok(q, tok)
}

} // verus!

verus! {

fn hex_at(s: &[u8], i: usize) -> (r: bool)
    requires
        i <= s.len(),
    ensures
        r == grammar::hex_at(s@, i as int),
{
    i < s.len() && in_class(s[i], ByteClass::Digit(16))
}

/// The escape after a backslash in a string or character literal.
pub(crate) fn char_escape(s: &[u8], p: usize) -> (r: Option<(usize, char)>)
    requires
        p <= s.len(),
    ensures
        match r {
            Some((e, c)) => grammar::char_escape(s@, p as int) == Some((e as int, c)) && p < e
                <= s@.len() && grammar::ascii_range(s@, p as int, e as int),
            None => grammar::char_escape(s@, p as int) is None,
        },
{
    if p >= s.len() {
        return None;
    }
    let b = s[p];
    if b == ascii::LOWER_N {
        Some((p + 1, '\n'))
    } else if b == ascii::LOWER_R {
        Some((p + 1, '\r'))
    } else if b == ascii::LOWER_T {
        Some((p + 1, '\t'))
    } else if b == ascii::BACKSLASH {
        Some((p + 1, '\\'))
    } else if b == ascii::DIGIT_0 {
        Some((p + 1, '\0'))
    } else if b == ascii::DQUOTE {
        Some((p + 1, '"'))
    } else if b == ascii::SQUOTE {
        Some((p + 1, '\''))
    } else if b == ascii::LOWER_X && s.len() - p > 2 && ascii::DIGIT_0 <= s[p + 1] && s[p + 1]
        <= ascii::DIGIT_7 && hex_at(s, p + 2) {
        let v = digit_value(s[p + 1]) * 16 + digit_value(s[p + 2]);
        proof {
            reveal_with_fuel(grammar::digits_value, 3);
            assert(v == grammar::digits_value(s@, p + 1, p + 3, 16));
            assert(is_scalar(v));
        }
        match char_from_u32(v) {
            Some(c) => {
                proof {
                    vstd::utf8::char_u32_cast(c, v);
                }
                Some((p + 3, c))
            },
            None => None,
        }
    } else if b == ascii::LOWER_U && byte_at(s, p + 1, ascii::LBRACE) {
        let run = run_end(s, p + 2, ByteClass::Digit(16));
        proof {
            grammar::lemma_run_end(s@, p + 2, ByteClass::Digit(16));
        }
        let k = if run - p < 8 {
            run
        } else {
            p + 8
        };
        if k <= p + 2 {
            return None;
        }
        proof {
            grammar::lemma_digits_value_upper(s@, p + 2, k as int, 16);
            grammar::lemma_digits_value_mono(s@, p + 2, k as int, k as int, 16);
            assert(grammar::digits_cap(k - (p + 2), 16) <= 0xffffff) by {
                reveal_with_fuel(grammar::digits_cap, 7);
                assert(grammar::digits_cap(6, 16) == 0xffffff);
                if k - (p + 2) < 6 {
                    assert(grammar::digits_cap(k - (p + 2), 16) <= grammar::digits_cap(6, 16)) by {
                        lemma_digits_cap_mono(k - (p + 2), 6, 16);
                    }
                }
            }
        }
        proof {
            grammar::lemma_digits_value_window(s@, p + 2, k as int, p + 2, k as int, 16);
        }
        let v = match Tokenizer::from_ascii_radix(true, &s[p + 2..k], 16) {
            Ok(v) => v as u32,
            Err(_) => {
                return None;
            },
        };
        if !byte_at(s, k, ascii::RBRACE) {
            return None;
        }
        match char_from_u32(v) {
            Some(c) => {
                proof {
                    vstd::utf8::char_u32_cast(c, v);
                    assert forall|j: int| p <= j < k + 1 implies #[trigger] s@[j] <= 0x7f by {
                        if p + 2 <= j < k {
                            assert(grammar::in_class(s@[j], ByteClass::Digit(16)));
                        }
                    }
                }
                Some((k + 1, c))
            },
            None => None,
        }
    } else {
        None
    }
}

proof fn lemma_digits_cap_mono(m: int, n: int, r: int)
    requires
        0 <= m <= n,
        r >= 1,
    ensures
        grammar::digits_cap(m, r) <= grammar::digits_cap(n, r),
    decreases n - m,
{
    if m < n {
        lemma_digits_cap_mono(m, n - 1, r);
        lemma_digits_cap_nonneg(n - 1, r);
        let c = grammar::digits_cap(n - 1, r);
        assert(c * r >= c) by (nonlinear_arith)
            requires
                c >= 0,
                r >= 1,
        ;
    }
}

proof fn lemma_digits_cap_nonneg(n: int, r: int)
    requires
        r >= 1,
    ensures
        grammar::digits_cap(n, r) >= 0,
    decreases n,
{
    if n > 0 {
        lemma_digits_cap_nonneg(n - 1, r);
        let c = grammar::digits_cap(n - 1, r);
        assert(c * r >= 0) by (nonlinear_arith)
            requires
                c >= 0,
                r >= 1,
        ;
    }
}

/// The escape after a backslash in a bytes literal.
pub(crate) fn byte_escape(s: &[u8], p: usize) -> (r: Option<(usize, u8)>)
    requires
        p <= s.len(),
    ensures
        match r {
            Some((e, b)) => grammar::byte_escape(s@, p as int) == Some((e as int, b)) && p < e
                <= s@.len(),
            None => grammar::byte_escape(s@, p as int) is None,
        },
{
    if p >= s.len() {
        return None;
    }
    let b = s[p];
    if b == ascii::LOWER_N {
        Some((p + 1, ascii::LF))
    } else if b == ascii::LOWER_R {
        Some((p + 1, ascii::CR))
    } else if b == ascii::LOWER_T {
        Some((p + 1, ascii::TAB))
    } else if b == ascii::BACKSLASH {
        Some((p + 1, ascii::BACKSLASH))
    } else if b == ascii::DIGIT_0 {
        Some((p + 1, 0u8))
    } else if b == ascii::DQUOTE {
        Some((p + 1, ascii::DQUOTE))
    } else if b == ascii::SQUOTE {
        Some((p + 1, ascii::SQUOTE))
    } else if b == ascii::LOWER_X && hex_at(s, p + 1) && hex_at(s, p + 2) {
        let v = digit_value(s[p + 1]) * 16 + digit_value(s[p + 2]);
        proof {
            reveal_with_fuel(grammar::digits_value, 3);
            assert(v == grammar::digits_value(s@, p + 1, p + 3, 16));
        }
        Some((p + 3, v as u8))
    } else {
        None
    }
}

} // verus!

verus! {

/// One piece of a string or bytes literal, as read by [str_chunk] and
/// [bytes_chunk].
pub enum Piece<I> {
    Plain(usize),
    Item(usize, I),
    Stop,
    Fail(usize, TokenError),
}

pub(crate) open spec fn str_piece(r: Piece<char>) -> grammar::Chunk {
    match r {
        Piece::Plain(q) => grammar::Chunk::Plain(q as int),
        Piece::Item(e, c) => grammar::Chunk::Item(e as int, c as int),
        Piece::Stop => grammar::Chunk::Stop,
        Piece::Fail(x, e) => grammar::Chunk::Fail(x as int, e),
    }
}

pub(crate) open spec fn bytes_piece(r: Piece<u8>) -> grammar::Chunk {
    match r {
        Piece::Plain(q) => grammar::Chunk::Plain(q as int),
        Piece::Item(e, b) => grammar::Chunk::Item(e as int, b as int),
        Piece::Stop => grammar::Chunk::Stop,
        Piece::Fail(x, e) => grammar::Chunk::Fail(x as int, e),
    }
}

pub open spec fn piece_fits<I>(r: Piece<I>, p: int, len: int) -> bool {
    match r {
        Piece::Plain(q) => p < q <= len,
        Piece::Item(e, _) => p < e <= len,
        Piece::Stop => true,
        Piece::Fail(x, _) => p <= x <= len,
    }
}

/// One piece of a string literal starting at `p`.
pub(crate) fn str_chunk(s: &[u8], p: usize) -> (r: Piece<char>)
    requires
        p <= s.len(),
    ensures
        str_piece(r) == grammar::str_chunk(s@, p as int),
        piece_fits(r, p as int, s@.len() as int),
        r matches Piece::Plain(q) ==> valid_utf8(s@.subrange(p as int, q as int)),
        r matches Piece::Item(e, _) ==> grammar::ascii_range(s@, p as int, e as int),
{
    let q = run_end(s, p, ByteClass::Plain);
    if q > p {
        let v = valid_prefix_len(s, p, q);
        proof {
            let x = s@.subrange(p as int, q as int);
            assert(x.subrange(0, v as int) =~= s@.subrange(p as int, p + v));
            assert forall|j: int| v < j <= q - p implies !valid_utf8(#[trigger] x.subrange(0, j)) by {
                assert(x.subrange(0, j) =~= s@.subrange(p as int, p + j));
            }
            grammar::lemma_longest_valid_prefix(x, q - p, v as int);
            assert(x.subrange(0, q - p) =~= x);
        }
        if v == q - p {
            Piece::Plain(q)
        } else {
            Piece::Fail(p + v, TokenError::InvalidUtf8)
        }
    } else if byte_at(s, p, ascii::BACKSLASH) {
        match char_escape(s, p + 1) {
            Some((e, c)) => Piece::Item(e, c),
            None => Piece::Fail(p + 1, TokenError::UnknownEscape),
        }
    } else {
        Piece::Stop
    }
}

/// One piece of a bytes literal starting at `p`.
pub(crate) fn bytes_chunk(s: &[u8], p: usize) -> (r: Piece<u8>)
    requires
        p <= s.len(),
    ensures
        bytes_piece(r) == grammar::bytes_chunk(s@, p as int),
        piece_fits(r, p as int, s@.len() as int),
{
    let q = run_end(s, p, ByteClass::Plain);
    if q > p {
        Piece::Plain(q)
    } else if byte_at(s, p, ascii::BACKSLASH) {
        match byte_escape(s, p + 1) {
            Some((e, b)) => Piece::Item(e, b),
            None => Piece::Fail(p + 1, TokenError::UnknownEscape),
        }
    } else {
        Piece::Stop
    }
}

/// How a run of pieces ended.
pub(crate) enum RunEnd {
    Stop(usize),
    Fail(usize, TokenError),
}

pub(crate) open spec fn run_view(r: RunEnd) -> grammar::Run {
    match r {
        RunEnd::Stop(q) => grammar::Run::Stop(q as int),
        RunEnd::Fail(x, e) => grammar::Run::Fail(x as int, e),
    }
}

/// Read pieces of a string (`text`) or bytes literal from `a` until
/// none starts.
pub(crate) fn chunks(s: &[u8], a: usize, text: bool) -> (r: RunEnd)
    requires
        a <= s.len(),
    ensures
        run_view(r) == grammar::chunks(s@, a as int, text),
        r matches RunEnd::Stop(q) ==> a <= q <= s@.len() && (text ==> valid_utf8(
            s@.subrange(a as int, q as int),
        )),
        r matches RunEnd::Fail(x, _) ==> a <= x <= s@.len(),
{
    let mut p = a;
    proof {
        assert(s@.subrange(a as int, a as int) =~= Seq::<u8>::empty());
        lemma_ascii_valid_utf8(Seq::<u8>::empty());
    }
    loop
        invariant
            a <= p <= s@.len(),
            grammar::chunks(s@, a as int, text) == grammar::chunks(s@, p as int, text),
            text ==> valid_utf8(s@.subrange(a as int, p as int)),
        decreases s@.len() - p,
    {
        let next = if text {
            match str_chunk(s, p) {
                Piece::Plain(q) => {
                    proof {
                        crate::utf8::lemma_concat_valid(
                            s@.subrange(a as int, p as int),
                            s@.subrange(p as int, q as int),
                        );
                        assert(s@.subrange(a as int, p as int) + s@.subrange(p as int, q as int)
                            =~= s@.subrange(a as int, q as int));
                    }
                    q
                },
                Piece::Item(e, _) => {
                    proof {
                        lemma_ascii_valid_utf8(s@.subrange(p as int, e as int));
                        crate::utf8::lemma_concat_valid(
                            s@.subrange(a as int, p as int),
                            s@.subrange(p as int, e as int),
                        );
                        assert(s@.subrange(a as int, p as int) + s@.subrange(p as int, e as int)
                            =~= s@.subrange(a as int, e as int));
                    }
                    e
                },
                Piece::Stop => {
                    return RunEnd::Stop(p);
                },
                Piece::Fail(x, e) => {
                    return RunEnd::Fail(x, e);
                },
            }
        } else {
            match bytes_chunk(s, p) {
                Piece::Plain(q) => q,
                Piece::Item(e, _) => e,
                Piece::Stop => {
                    return RunEnd::Stop(p);
                },
                Piece::Fail(x, e) => {
                    return RunEnd::Fail(x, e);
                },
            }
        };
        p = next;
    }
}

/// A `&str` holding `s[lo..hi]`, which is valid UTF-8.
fn valid_str<'a>(s: &'a [u8], lo: usize, hi: usize) -> (r: &'a str)
    requires
        lo <= hi <= s.len(),
        valid_utf8(s@.subrange(lo as int, hi as int)),
    ensures
        r.spec_bytes() == s@.subrange(lo as int, hi as int),
{
    match str_from_utf8(&s[lo..hi]) {
        Ok(t) => t,
        Err(_) => {
            proof {
                assert(false);
            }
            ""
        },
    }
}

fn quoted<'a>(s: &'a [u8], a: usize, text: bool) -> (r: Scan<'a>)
    requires
        a <= s.len(),
    ensures
        r.spec_lex() == grammar::quoted(s@, a as int, text),
        r matches Scan::Tok(e, _) ==> a < e <= s@.len(),
        r matches Scan::Fail(x, _) ==> a <= x <= s@.len(),
{
    match chunks(s, a, text) {
        RunEnd::Fail(x, e) => Scan::Fail(x, e),
        RunEnd::Stop(q) => if byte_at(s, q, ascii::DQUOTE) {
            let v = if text {
                Value::Str(Escaped::new_unchecked(valid_str(s, a, q)))
            } else {
                Value::Bytes(Escaped::new_unchecked(&s[a..q]))
            };
            Scan::Tok(q + 1, Token::Value(v))
        } else {
            Scan::NoMatch
        },
    }
}

fn string_tok<'a>(s: &'a [u8], i: usize) -> (r: Scan<'a>)
    requires
        i <= s.len(),
    ensures
        r.spec_lex() == grammar::string_tok(s@, i as int),
        r matches Scan::Tok(e, _) ==> i < e <= s@.len(),
        r matches Scan::Fail(x, _) ==> i <= x <= s@.len(),
{
    if byte_at(s, i, ascii::DQUOTE) {
        quoted(s, i + 1, true)
    } else {
        Scan::NoMatch
    }
}

fn bytes_tok<'a>(s: &'a [u8], i: usize) -> (r: Scan<'a>)
    requires
        i <= s.len(),
    ensures
        r.spec_lex() == grammar::bytes_tok(s@, i as int),
        r matches Scan::Tok(e, _) ==> i < e <= s@.len(),
        r matches Scan::Fail(x, _) ==> i <= x <= s@.len(),
{
    if byte_at(s, i, ascii::LOWER_B) && byte_at(s, i + 1, ascii::DQUOTE) {
        quoted(s, i + 2, false)
    } else {
        Scan::NoMatch
    }
}

fn char_tok<'a>(s: &'a [u8], i: usize) -> (r: Scan<'a>)
    requires
        i <= s.len(),
    ensures
        r.spec_lex() == grammar::char_tok(s@, i as int),
        r matches Scan::Tok(e, _) ==> i < e <= s@.len(),
        r matches Scan::Fail(x, _) ==> i <= x <= s@.len(),
{
    if !byte_at(s, i, ascii::SQUOTE) {
        return Scan::NoMatch;
    }
    let a = i + 1;
    if byte_at(s, a, ascii::BACKSLASH) {
        match char_escape(s, a + 1) {
            None => {
                return Scan::Fail(a + 1, TokenError::UnknownEscape);
            },
            Some((e, c)) => {
                if byte_at(s, e, ascii::SQUOTE) {
                    return Scan::Tok(e + 1, Token::Value(Value::Char(c)));
                }
            },
        }
    }
    let j = run_end(s, a, ByteClass::NotQuote);
    if j >= s.len() {
        return Scan::Fail(a, TokenError::UnknownToken);
    }
    if j - a > 4 {
        return Scan::Fail(a, TokenError::InvalidCharLiteral);
    }
    match str_from_utf8(&s[a..j]) {
        Err(_) => Scan::Fail(a, TokenError::InvalidUtf8),
        Ok(t) => {
            proof {
                encode_utf8_decode_utf8(t@);
            }
            if t.unicode_len() != 1 {
                Scan::Fail(a, TokenError::InvalidCharLiteral)
            } else {
                Scan::Tok(j + 1, Token::Value(Value::Char(t.get_char(0))))
            }
        },
    }
}

fn first_match<'a>(a: Scan<'a>, b: Scan<'a>) -> (r: Scan<'a>)
    ensures
        r.spec_lex() == grammar::first_match(a.spec_lex(), b.spec_lex()),
        r == (if a is NoMatch {
            b
        } else {
            a
        }),
{
    match a {
        Scan::NoMatch => b,
        _ => a,
    }
}

impl<'a> Scan<'a> {
    fn matched(&self) -> (r: bool)
        ensures
            r == !(*self is NoMatch),
    {
        !matches!(self, Scan::NoMatch)
    }
}

/// The token body `r` read at `i`, with the whitespace after it.
fn with_trailing_space<'a>(s: &'a [u8], i: usize, r: Scan<'a>) -> (res: Scan<'a>)
    requires
        i <= s.len(),
        r matches Scan::Tok(e, _) ==> i < e <= s@.len(),
        r matches Scan::Fail(x, _) ==> i <= x <= s@.len(),
    ensures
        res.spec_lex() == (match r.spec_lex() {
            Lex::Tok(e, t) => Lex::Tok(grammar::ws0(s@, e), t),
            l => l,
        }),
        res matches Scan::Tok(e, _) ==> i < e <= s@.len(),
        res matches Scan::Fail(x, _) ==> i <= x <= s@.len(),
{
    match r {
        Scan::Tok(e, t) => Scan::Tok(ws0(s, e), t),
        r => r,
    }
}

/// Read the token that starts at `i`, and the whitespace after it.
pub(crate) fn token<'a>(s: &'a [u8], i: usize) -> (r: Scan<'a>)
    requires
        i <= s.len(),
    ensures
        r.spec_lex() == grammar::token(s@, i as int),
        r matches Scan::Tok(e, _) ==> i < e <= s@.len(),
        r matches Scan::Fail(x, _) ==> i <= x <= s@.len(),
{
    let r = newline_tok(s, i);
    if r.matched() {
        return with_trailing_space(s, i, r);
    }
    let r = comma_tok(s, i);
    if r.matched() {
        return with_trailing_space(s, i, r);
    }
    let r = unit_tok(s, i);
    if r.matched() {
        return with_trailing_space(s, i, r);
    }
    let r = symbol_tok(s, i);
    if r.matched() {
        return with_trailing_space(s, i, r);
    }
    let r = integer_tok(s, i);
    if r.matched() {
        return with_trailing_space(s, i, r);
    }
    let r = float_tok(s, i);
    if r.matched() {
        return with_trailing_space(s, i, r);
    }
    let r = char_tok(s, i);
    if r.matched() {
        return with_trailing_space(s, i, r);
    }
    let r = string_tok(s, i);
    if r.matched() {
        return with_trailing_space(s, i, r);
    }
    let r = bytes_tok(s, i);
    if r.matched() {
        return with_trailing_space(s, i, r);
    }
    with_trailing_space(s, i, ident_tok(s, i))
}

} // verus!

verus! {

/// `l` points at byte offset `p` of the source `s`: it carries `s`, and
/// its line and column are those of that offset.
pub open spec fn at_position<'de, T>(l: Located<'de, T>, s: Seq<u8>, p: int) -> bool {
    &&& l.source matches Some(src) && src@ == s
    &&& l.offset == p
    &&& l.line == 1 + newline_count(s.subrange(0, p))
    &&& l.column == column_after(s.subrange(0, p), 0)
}

/// Turn source into a stream of [Tokens](Token).
#[derive(Debug)]
pub struct Tokenizer<'de> {
    input: &'de [u8],
    location: Located<'de, ()>,
}

impl<'de> Tokenizer<'de> {
    #[verifier::type_invariant]
    spec fn inv(&self) -> bool {
        &&& self.input@.len() < usize::MAX
        &&& 0 <= self.location.offset <= self.input@.len()
        &&& at_position(self.location, self.input@, self.location.offset as int)
    }

    /// The source being tokenized.
    pub closed spec fn source(&self) -> Seq<u8> {
        self.input@
    }

    /// The offset of the next token.
    pub closed spec fn pos(&self) -> int {
        self.location.offset as int
    }

    /// The location of the next token.
    pub closed spec fn spec_location(&self) -> Located<'de, ()> {
        self.location
    }

    /// Create a tokenizer operating on the given `input`. Leading
    /// whitespace, comments and newlines are skipped.
    pub fn new(input: &'de [u8]) -> (r: Self)
        requires
            input@.len() < usize::MAX,
        ensures
            r.source() == input@,
            r.pos() == grammar::leading_space(input@, 0),
            r.pos() <= r.source().len(),
    {
        let mut location = Located::new().with_source(Some(input));
        let e = leading_space(input, 0);
        proof {
            assert(input@.subrange(0, 0) =~= Seq::<u8>::empty());
            assert(input@.subrange(0, e as int) =~= input@.subrange(0, input@.len() - input@.subrange(e as int, input@.len() as int).len()));
            lemma_position_bounds(input@, e as int);
            assert(column_after(input@.subrange(0, e as int), 0) == column_after(
                Seq::<u8>::empty() + input@.subrange(0, e as int),
                0,
            )) by {
                assert(Seq::<u8>::empty() + input@.subrange(0, e as int) =~= input@.subrange(0, e as int));
            }
            crate::types::location::lemma_column_after_concat(
                Seq::<u8>::empty(),
                input@.subrange(0, e as int),
                0,
            );
        }
        location.advance(input, &input[e..input.len()]);
        Tokenizer { input, location }
    }

    /// Return the location of the token to be parsed next.
    pub fn location(&self) -> (r: Located<'de, ()>)
        ensures
            r == self.spec_location(),
            at_position(r, self.source(), self.pos()),
    {
        proof {
            use_type_invariant(self);
        }
        self.location
    }

    /// Return `true` if and only if there is no more input left.
    ///
    /// This is `true` if and only if the next token will be
    /// `TokenError::Eof`.
    pub fn is_eof(&self) -> (r: bool)
        ensures
            r == (self.pos() == self.source().len()),
    {
        proof {
            use_type_invariant(self);
        }
        self.location.offset >= self.input.len()
    }

    /// The location of offset `p`, moved forward from the location of
    /// the next token.
    fn location_at(&self, p: usize) -> (r: Located<'de, ()>)
        requires
            self.pos() <= p <= self.source().len(),
        ensures
            at_position(r, self.source(), p as int),
    {
        proof {
            use_type_invariant(self);
        }
        let i = self.location.offset;
        let mut loc = self.location;
        let start = &self.input[i..self.input.len()];
        let end = &self.input[p..self.input.len()];
        proof {
            let s = self.input@;
            assert(start@.subrange(0, start@.len() - end@.len()) =~= s.subrange(i as int, p as int));
            assert(end@ =~= start@.subrange(start@.len() - end@.len(), start@.len() as int));
            lemma_advance_position(s, i as int, p as int);
        }
        loc.advance(start, end);
        loc
    }

    /// Parse and return the next token in the stream.
    ///
    /// At the end of the input this is `TokenError::Eof`. A token that
    /// fails is reported where it failed; the tokenizer then stays where
    /// it was.
    pub fn next_token(&mut self) -> (r: LocResult<'de, Token<'de>, TokenError>)
        ensures
            final(self).source() == old(self).source(),
            old(self).pos() <= final(self).pos() <= final(self).source().len(),
            old(self).source().len() < usize::MAX,
            r is Ok ==> final(self).pos() > old(self).pos(),
            (r matches Err(x) && x.value == TokenError::Eof) == (old(self).pos() == old(
                self,
            ).source().len()),
            ({
                let s = old(self).source();
                let i = old(self).pos();
                if i == s.len() {
                    &&& r matches Err(x) && x.value == TokenError::Eof && at_position(x, s, i)
                    &&& final(self).pos() == i
                } else {
                    match grammar::token(s, i) {
                        Lex::Tok(e, t) => {
                            &&& r matches Ok(x) && x.value@ == t && at_position(x, s, i)
                            &&& final(self).pos() == e
                        },
                        Lex::NoMatch => {
                            &&& r matches Err(x) && x.value == TokenError::UnknownToken
                                && at_position(x, s, i)
                            &&& final(self).pos() == i
                        },
                        Lex::Fail(p, err) => {
                            &&& r matches Err(x) && x.value == err && at_position(x, s, p)
                            &&& final(self).pos() == i
                        },
                    }
                }
            }),
    {
        proof {
            use_type_invariant(&*self);
            grammar::lemma_token_fail_not_eof(self.input@, self.location.offset as int);
        }
        let i = self.location.offset;
        if i >= self.input.len() {
            return Err(self.location.wrap(TokenError::Eof));
        }
        match token(self.input, i) {
            Scan::Tok(e, t) => {
                let r = self.location.wrap(t);
                let loc = self.location_at(e);
                self.location = loc;
                Ok(r)
            },
            Scan::NoMatch => Err(self.location.wrap(TokenError::UnknownToken)),
            Scan::Fail(x, err) => {
                let loc = self.location_at(x);
                Err(loc.replace(err))
            },
        }
    }

    /// The next token, or `None` at the end of the input (the way an
    /// iterator over the tokens ends).
    pub fn next(&mut self) -> (r: Option<LocResult<'de, Token<'de>, TokenError>>)
        ensures
            final(self).source() == old(self).source(),
            (r is None) == (old(self).pos() == old(self).source().len()),
            r is None ==> final(self).pos() == old(self).pos(),
            r matches Some(x) ==> (match grammar::token(old(self).source(), old(self).pos()) {
                Lex::Tok(e, t) => x matches Ok(y) && y.value@ == t && at_position(
                    y,
                    old(self).source(),
                    old(self).pos(),
                ) && final(self).pos() == e,
                Lex::NoMatch => x matches Err(y) && y.value == TokenError::UnknownToken
                    && at_position(y, old(self).source(), old(self).pos()) && final(self).pos()
                    == old(self).pos(),
                Lex::Fail(p, err) => x matches Err(y) && y.value == err && at_position(
                    y,
                    old(self).source(),
                    p,
                ) && final(self).pos() == old(self).pos(),
            }),
    {
        proof {
            grammar::lemma_token_fail_not_eof(old(self).source(), old(self).pos());
        }
        match self.next_token() {
            Ok(t) => Some(Ok(t)),
            Err(e) => if matches!(e.value, TokenError::Eof) {
                None
            } else {
                Some(Err(e))
            },
        }
    }
}

impl<'de> Clone for Tokenizer<'de> {
    fn clone(&self) -> (r: Self)
        ensures
            r.source() == self.source(),
            r.pos() == self.pos(),
            r.spec_location() == self.spec_location(),
    {
        proof {
            use_type_invariant(self);
        }
        Tokenizer { input: self.input, location: self.location }
    }
}

proof fn lemma_position_bounds(s: Seq<u8>, p: int)
    requires
        0 <= p <= s.len(),
    ensures
        newline_count(s.subrange(0, p)) <= p,
        column_after(s.subrange(0, p), 0) <= p,
{
    crate::types::location::lemma_newline_count_bound(s.subrange(0, p));
    crate::types::location::lemma_column_after_bound(s.subrange(0, p), 0);
}

/// Moving from offset `i` to `p` gives the line and column of `p`.
/// Moving from offset `i` to offset `p` of `s` moves a location over the
/// bytes between: its line grows by their newlines, and its column is the
/// column reached after them. So the tokenizer's location after a token
/// is its location before, moved over the bytes the token consumed.
pub proof fn lemma_advance_position(s: Seq<u8>, i: int, p: int)
    requires
        0 <= i <= p <= s.len(),
    ensures
        newline_count(s.subrange(0, i)) + newline_count(s.subrange(i, p)) == newline_count(
            s.subrange(0, p),
        ),
        column_after(s.subrange(i, p), column_after(s.subrange(0, i), 0)) == column_after(
            s.subrange(0, p),
            0,
        ),
        newline_count(s.subrange(0, p)) <= p,
        column_after(s.subrange(0, p), 0) <= p,
        column_after(s.subrange(0, i), 0) <= i,
{
    assert(s.subrange(0, i) + s.subrange(i, p) =~= s.subrange(0, p));
    crate::types::location::lemma_newline_count_concat(s.subrange(0, i), s.subrange(i, p));
    crate::types::location::lemma_column_after_concat(s.subrange(0, i), s.subrange(i, p), 0);
    lemma_position_bounds(s, p);
    lemma_position_bounds(s, i);
}

} // verus!
