//! String and bytes values that still contain their escape sequences.

use vstd::prelude::*;
use vstd::string::StringSliceAdditionalSpecFns;
use vstd::utf8::*;

use crate::ascii;
use crate::de::grammar::{self, Chunk, Run};
use crate::de::token::{self, Piece, TokenError};
use crate::types::location::{column_after, newline_count, Located};
use crate::utf8::{lemma_ascii_valid_utf8, lemma_concat_valid, str_from_utf8};

verus! {

/// Errors encountered by [Escaped].
#[derive(Clone, Copy, Debug, PartialEq, Eq, Structural)]
pub enum UnescapeError {
    /// The string or bytes has an unknown escape sequence.
    UnknownEscape,
    /// The buffer used to unescape the string or bytes is full.
    BufferFull,
}

/// A fragment of an escaped string or bytes from [Escaped::fragments].
#[derive(Clone, Copy, Debug, PartialEq, Eq)]
pub enum EscapedFragment<Slice, Item> {
    /// A slice of unescaped data (e.g. `&str` or `&[u8]`).
    Slice(Slice),
    /// A single item (e.g. `char` or `u8`).
    Item(Item),
}

/// Types that are suitable to be wrapped in [Escaped]: string slices,
/// whose items are `char`s, and byte slices, whose items are bytes.
pub trait Escapable<Item>: Sized {
    /// What the value unescapes to: `str` or `[u8]`.
    type Target: ?Sized;

    /// `true` for text, whose plain pieces must be UTF-8.
    spec fn is_text() -> bool;

    /// The bytes of the wrapped value, escapes included.
    spec fn spec_content(&self) -> Seq<u8>;

    /// The bytes of a target slice.
    spec fn spec_target(t: &Self::Target) -> Seq<u8>;

    /// The code of an item: a `char`'s scalar value, or a byte's value.
    spec fn spec_item(item: Item) -> int;

    /// Text is always valid UTF-8.
    proof fn lemma_content(&self)
        ensures
            Self::is_text() ==> valid_utf8(self.spec_content()),
    ;

    /// An item of text unescapes to valid UTF-8.
    proof fn lemma_item(item: Item)
        ensures
            Self::is_text() ==> valid_utf8(item_bytes(Self::spec_item(item), true)),
    ;

    /// The bytes of the wrapped value.
    fn as_bytes(&self) -> (r: &[u8])
        ensures
            r@ == self.spec_content(),
    ;

    /// One piece of escaped data starting at `p`.
    fn chunk(input: &[u8], p: usize) -> (r: Piece<Item>)
        requires
            p <= input@.len(),
        ensures
            token::piece_fits(r, p as int, input@.len() as int),
            match r {
                Piece::Plain(q) => grammar::chunk(input@, p as int, Self::is_text())
                    == Chunk::Plain(q as int) && (Self::is_text() ==> valid_utf8(
                    input@.subrange(p as int, q as int),
                )),
                Piece::Item(e, c) => grammar::chunk(input@, p as int, Self::is_text())
                    == Chunk::Item(e as int, Self::spec_item(c)),
                Piece::Stop => grammar::chunk(input@, p as int, Self::is_text()) == Chunk::Stop,
                Piece::Fail(x, e) => grammar::chunk(input@, p as int, Self::is_text())
                    == Chunk::Fail(x as int, e),
            },
    ;

    /// The target slice holding `input[lo..hi]`.
    fn slice(input: &[u8], lo: usize, hi: usize) -> (r: &Self::Target)
        requires
            lo <= hi <= input@.len(),
            Self::is_text() ==> valid_utf8(input@.subrange(lo as int, hi as int)),
        ensures
            Self::spec_target(r) == input@.subrange(lo as int, hi as int),
    ;

    /// Number of bytes an item unescapes to.
    fn item_len(item: Item) -> (r: usize)
        ensures
            r == item_bytes(Self::spec_item(item), Self::is_text()).len(),
    ;

    /// Write the bytes of an item into `buf` at `at`.
    fn item_write(item: Item, buf: &mut [u8], at: usize)
        requires
            at + item_bytes(Self::spec_item(item), Self::is_text()).len() <= old(buf)@.len(),
        ensures
            final(buf)@ == old(buf)@.subrange(0, at as int) + item_bytes(
                Self::spec_item(item),
                Self::is_text(),
            ) + old(buf)@.subrange(
                at + item_bytes(Self::spec_item(item), Self::is_text()).len(),
                old(buf)@.len() as int,
            ),
    ;

    /// The target slice holding all of `slice`.
    fn finalize(slice: &[u8]) -> (r: &Self::Target)
        requires
            Self::is_text() ==> valid_utf8(slice@),
        ensures
            Self::spec_target(r) == slice@,
    ;
}

/// The bytes an item with the given code unescapes to: its UTF-8
/// encoding for text, the byte itself otherwise.
pub open spec fn item_bytes(code: int, text: bool) -> Seq<u8> {
    if text {
        encode_scalar(code as u32)
    } else {
        seq![code as u8]
    }
}

impl<'s> Escapable<char> for &'s str {
    type Target = str;

    open spec fn is_text() -> bool {
        true
    }

    open spec fn spec_content(&self) -> Seq<u8> {
        (**self).spec_bytes()
    }

    open spec fn spec_target(t: &str) -> Seq<u8> {
        t.spec_bytes()
    }

    open spec fn spec_item(item: char) -> int {
        item as int
    }

    proof fn lemma_content(&self) {
        encode_utf8_valid_utf8((**self)@);
    }

    proof fn lemma_item(item: char) {
        encode_utf8_valid_utf8(seq![item]);
        assert(encode_utf8(seq![item]) =~= encode_scalar(item as u32)) by {
            reveal_with_fuel(encode_utf8, 2);
            assert(seq![item].drop_first() =~= Seq::<char>::empty());
        }
    }

    fn as_bytes(&self) -> (r: &[u8]) {
        (**self).as_bytes()
    }

    fn chunk(input: &[u8], p: usize) -> (r: Piece<char>) {
        token::str_chunk(input, p)
    }

    fn slice(input: &[u8], lo: usize, hi: usize) -> (r: &str) {
        match str_from_utf8(&input[lo..hi]) {
            Ok(t) => t,
            Err(_) => {
                proof {
                    assert(false);
                }
                ""
            },
        }
    }

    fn item_len(item: char) -> (r: usize) {
        let v = item as u32;
        proof {
            char_is_scalar(item);
        }
        if v <= 0x7f {
            1
        } else if v <= 0x7ff {
            2
        } else if v <= 0xffff {
            3
        } else {
            4
        }
    }

    fn item_write(item: char, buf: &mut [u8], at: usize) {
        let v = item as u32;
        proof {
            char_is_scalar(item);
        }
        let ghost enc = encode_scalar(v);
        let ghost before = buf@;
        if v <= 0x7f {
            buf[at] = (v & 0x7F) as u8;
        } else if v <= 0x7ff {
            buf[at] = 0xC0 | ((v >> 6) & 0x1F) as u8;
            buf[at + 1] = 0x80 | (v & 0x3F) as u8;
        } else if v <= 0xffff {
            buf[at] = 0xE0 | ((v >> 12) & 0x0F) as u8;
            buf[at + 1] = 0x80 | ((v >> 6) & 0x3F) as u8;
            buf[at + 2] = 0x80 | (v & 0x3F) as u8;
        } else {
            buf[at] = 0xF0 | ((v >> 18) & 0x7) as u8;
            buf[at + 1] = 0x80 | ((v >> 12) & 0x3F) as u8;
            buf[at + 2] = 0x80 | ((v >> 6) & 0x3F) as u8;
            buf[at + 3] = 0x80 | (v & 0x3F) as u8;
        }
        proof {
            assert(buf@ =~= before.subrange(0, at as int) + enc + before.subrange(
                at + enc.len(),
                before.len() as int,
            ));
        }
    }

    fn finalize(slice: &[u8]) -> (r: &str) {
        match str_from_utf8(slice) {
            Ok(t) => t,
            Err(_) => {
                proof {
                    assert(false);
                }
                ""
            },
        }
    }
}

impl<'s> Escapable<u8> for &'s [u8] {
    type Target = [u8];

    open spec fn is_text() -> bool {
        false
    }

    open spec fn spec_content(&self) -> Seq<u8> {
        (**self)@
    }

    open spec fn spec_target(t: &[u8]) -> Seq<u8> {
        t@
    }

    open spec fn spec_item(item: u8) -> int {
        item as int
    }

    proof fn lemma_content(&self) {
    }

    proof fn lemma_item(item: u8) {
    }

    fn as_bytes(&self) -> (r: &[u8]) {
        *self
    }

    fn chunk(input: &[u8], p: usize) -> (r: Piece<u8>) {
        token::bytes_chunk(input, p)
    }

    fn slice(input: &[u8], lo: usize, hi: usize) -> (r: &[u8]) {
        &input[lo..hi]
    }

    fn item_len(item: u8) -> (r: usize) {
        1
    }

    fn item_write(item: u8, buf: &mut [u8], at: usize) {
        let ghost before = buf@;
        buf[at] = item;
        proof {
            assert(buf@ =~= before.subrange(0, at as int) + seq![item] + before.subrange(
                at + 1,
                before.len() as int,
            ));
        }
    }

    fn finalize(slice: &[u8]) -> (r: &[u8]) {
        slice
    }
}

impl Escapable<char> for String {
    type Target = str;

    open spec fn is_text() -> bool {
        true
    }

    open spec fn spec_content(&self) -> Seq<u8> {
        encode_utf8(self@)
    }

    open spec fn spec_target(t: &str) -> Seq<u8> {
        t.spec_bytes()
    }

    open spec fn spec_item(item: char) -> int {
        item as int
    }

    proof fn lemma_content(&self) {
        encode_utf8_valid_utf8(self@);
    }

    proof fn lemma_item(item: char) {
        <&str as Escapable<char>>::lemma_item(item);
    }

    fn as_bytes(&self) -> (r: &[u8]) {
        self.as_str().as_bytes()
    }

    fn chunk(input: &[u8], p: usize) -> (r: Piece<char>) {
        <&str as Escapable<char>>::chunk(input, p)
    }

    fn slice(input: &[u8], lo: usize, hi: usize) -> (r: &str) {
        <&str as Escapable<char>>::slice(input, lo, hi)
    }

    fn item_len(item: char) -> (r: usize) {
        <&str as Escapable<char>>::item_len(item)
    }

    fn item_write(item: char, buf: &mut [u8], at: usize) {
        <&str as Escapable<char>>::item_write(item, buf, at)
    }

    fn finalize(slice: &[u8]) -> (r: &str) {
        <&str as Escapable<char>>::finalize(slice)
    }
}

impl Escapable<u8> for Vec<u8> {
    type Target = [u8];

    open spec fn is_text() -> bool {
        false
    }

    open spec fn spec_content(&self) -> Seq<u8> {
        self@
    }

    open spec fn spec_target(t: &[u8]) -> Seq<u8> {
        t@
    }

    open spec fn spec_item(item: u8) -> int {
        item as int
    }

    proof fn lemma_content(&self) {
    }

    proof fn lemma_item(item: u8) {
    }

    fn as_bytes(&self) -> (r: &[u8]) {
        self.as_slice()
    }

    fn chunk(input: &[u8], p: usize) -> (r: Piece<u8>) {
        <&[u8] as Escapable<u8>>::chunk(input, p)
    }

    fn slice(input: &[u8], lo: usize, hi: usize) -> (r: &[u8]) {
        &input[lo..hi]
    }

    fn item_len(item: u8) -> (r: usize) {
        1
    }

    fn item_write(item: u8, buf: &mut [u8], at: usize) {
        <&[u8] as Escapable<u8>>::item_write(item, buf, at)
    }

    fn finalize(slice: &[u8]) -> (r: &[u8]) {
        slice
    }
}

/// Whether reading the pieces of `s` stops before its end, at a byte
/// that no piece starts with (such as a bare double quote).
pub open spec fn stuck(s: Seq<u8>, text: bool) -> bool {
    grammar::chunks(s, 0, text) matches Run::Stop(q) && q != s.len()
}

/// Whether `s` is anything but empty or a single plain piece.
pub open spec fn spec_has_escapes(s: Seq<u8>, text: bool) -> bool {
    s.len() > 0 && grammar::chunk(s, 0, text) != Chunk::Plain(s.len() as int)
}

/// A fragment as a plain value: the bytes of a slice, the code of an
/// item, or the offset of an unknown escape.
pub ghost enum FragmentView {
    Slice(Seq<u8>),
    Item(int),
    Error(int),
}

/// The fragments of `s` from position `p` on: one per piece, ending at
/// the end of `s`, at the first malformed piece (included), or where no
/// piece starts.
pub open spec fn fragments_from(s: Seq<u8>, p: int, text: bool) -> Seq<FragmentView>
    decreases s.len() - p,
{
    if !(0 <= p < s.len()) {
        seq![]
    } else {
        match grammar::chunk(s, p, text) {
            Chunk::Plain(q) => if p < q <= s.len() {
                seq![FragmentView::Slice(s.subrange(p, q))] + fragments_from(s, q, text)
            } else {
                seq![]
            },
            Chunk::Item(e, c) => if p < e <= s.len() {
                seq![FragmentView::Item(c)] + fragments_from(s, e, text)
            } else {
                seq![]
            },
            Chunk::Fail(x, _) => seq![FragmentView::Error(x)],
            Chunk::Stop => seq![],
        }
    }
}

/// How unescaping ends.
pub ghost enum Unescaped {
    /// everything was unescaped, into these bytes
    Done(Seq<u8>),
    /// an unknown escape at this offset
    Error(int),
    /// the buffer is too small
    Full,
    /// a byte that no piece starts with was reached
    Stuck,
}

/// Unescape `s` from position `p` on, into a buffer of `cap` bytes that
/// already holds `out`.
pub open spec fn unescape_from(s: Seq<u8>, p: int, text: bool, out: Seq<u8>, cap: int) -> Unescaped
    decreases s.len() - p,
{
    if !(0 <= p < s.len()) {
        Unescaped::Done(out)
    } else {
        match grammar::chunk(s, p, text) {
            Chunk::Plain(q) => if p < q <= s.len() {
                let more = out + s.subrange(p, q);
                if more.len() > cap {
                    Unescaped::Full
                } else {
                    unescape_from(s, q, text, more, cap)
                }
            } else {
                Unescaped::Stuck
            },
            Chunk::Item(e, c) => if p < e <= s.len() {
                let more = out + item_bytes(c, text);
                if more.len() > cap {
                    Unescaped::Full
                } else {
                    unescape_from(s, e, text, more, cap)
                }
            } else {
                Unescaped::Stuck
            },
            Chunk::Fail(x, _) => Unescaped::Error(x),
            Chunk::Stop => Unescaped::Stuck,
        }
    }
}

/// `l` reports an unknown escape at offset `x` of `s`.
pub open spec fn escape_error_at<'a>(l: Located<'a, UnescapeError>, s: Seq<u8>, x: int) -> bool {
    &&& l.offset == x
    &&& l.line == 1 + newline_count(s.subrange(0, x))
    &&& l.column == column_after(s.subrange(0, x), 0)
    &&& l.value == UnescapeError::UnknownEscape
}

/// `l` sits at the very start, with the given value.
pub open spec fn at_start<'a>(l: Located<'a, UnescapeError>, v: UnescapeError) -> bool {
    l.line == 1 && l.column == 0 && l.offset == 0 && l.value == v
}

/// Copy `src[lo..hi]` into `buf` at `at`.
fn copy_into(buf: &mut [u8], at: usize, src: &[u8], lo: usize, hi: usize)
    requires
        lo <= hi <= src@.len(),
        at + (hi - lo) <= old(buf)@.len(),
    ensures
        final(buf)@ == old(buf)@.subrange(0, at as int) + src@.subrange(lo as int, hi as int)
            + old(buf)@.subrange(at + (hi - lo), old(buf)@.len() as int),
{
    let ghost before = buf@;
    let n = buf.len();
    let mut k: usize = 0;
    while k < hi - lo
        invariant
            n == before.len(),
            lo <= hi <= src@.len(),
            at + (hi - lo) <= before.len(),
            k <= hi - lo,
            buf@.len() == before.len(),
            buf@ =~= before.subrange(0, at as int) + src@.subrange(lo as int, lo + k)
                + before.subrange(at + k, before.len() as int),
        decreases hi - lo - k,
    {
        buf[at + k] = src[lo + k];
        k = k + 1;
    }
}

/// The location of offset `x` of `src`, holding `value`.
fn location_in<'a>(src: &'a [u8], x: usize, value: UnescapeError) -> (r: Located<'a, UnescapeError>)
    requires
        x <= src@.len(),
        x < src@.len() || grammar::byte_at(src@, x - 1, ascii::BACKSLASH),
    ensures
        r.source == Some(src),
        r.offset == x,
        r.line == 1 + newline_count(src@.subrange(0, x as int)),
        r.column == column_after(src@.subrange(0, x as int), 0),
        r.value == value,
{
    let mut loc = Located::new().with_source(Some(src)).replace(value);
    let ghost head = src@.subrange(0, x as int);
    proof {
        if x < src@.len() {
            crate::types::location::lemma_newline_count_bound(head);
        } else {
            crate::types::location::lemma_newline_count_bound(head.drop_last());
        }
        assert(src@.subrange(x as int, src@.len() as int) =~= src@.subrange(
            src@.len() - (src@.len() - x),
            src@.len() as int,
        ));
    }
    loc.advance(src, &src[x..src.len()]);
    loc
}

/// A string or bytes value that contains escape sequences.
#[derive(Clone, Copy, Debug, Default, Eq, PartialEq, Ord, PartialOrd, Hash)]
pub struct Escaped<T>(T);

impl<T> Escaped<T> {
    /// The wrapped value, escapes included.
    pub closed spec fn inner(self) -> T {
        self.0
    }

    /// Create a new escaped string or bytes from an underlying value,
    /// without checking it.
    pub fn new_unchecked(s: T) -> (r: Self)
        ensures
            r.inner() == s,
    {
        Escaped(s)
    }

    /// The bytes of the wrapped value.
    pub open spec fn content<I>(self) -> Seq<u8> where T: Escapable<I> {
        self.inner().spec_content()
    }

    /// Create a new escaped string or bytes from an underlying value.
    ///
    /// This is checked for validity: if the value has a bad escape
    /// sequence, or a byte no piece can start with, this fails. The
    /// error carries no source.
    pub fn new<I>(s: T) -> (r: Result<Self, Located<'static, UnescapeError>>)
        where T: Escapable<I>,
        ensures
            match grammar::chunks(s.spec_content(), 0, T::is_text()) {
                Run::Stop(q) => if q == s.spec_content().len() {
                    r matches Ok(e) && e.inner() == s
                } else {
                    r matches Err(l) && l.source is None && at_start(l, UnescapeError::UnknownEscape)
                },
                Run::Fail(x, _) => r matches Err(l) && l.source is None && escape_error_at(
                    l,
                    s.spec_content(),
                    x,
                ),
            },
    {
        let escaped = Escaped(s);
        match escaped.check() {
            Ok(()) => Ok(escaped),
            Err(l) => Err(l.without_source()),
        }
    }

    /// Read the pieces of `input` from its start until none starts.
    pub(crate) fn scan<I>(input: &[u8]) -> (r: token::RunEnd)
        where T: Escapable<I>,
        ensures
            token::run_view(r) == grammar::chunks(input@, 0, T::is_text()),
            r matches token::RunEnd::Stop(q) ==> q <= input@.len(),
            r matches token::RunEnd::Fail(x, _) ==> x <= input@.len() && (x < input@.len()
                || grammar::byte_at(input@, x - 1, ascii::BACKSLASH)),
    {
        let mut p: usize = 0;
        loop
            invariant
                p <= input@.len(),
                grammar::chunks(input@, 0, T::is_text()) == grammar::chunks(input@, p as int, T::is_text()),
            decreases input@.len() - p,
        {
            proof {
                grammar::lemma_chunk_fail(input@, p as int, T::is_text());
            }
            match T::chunk(input, p) {
                Piece::Plain(q) => {
                    p = q;
                },
                Piece::Item(e, _) => {
                    p = e;
                },
                Piece::Stop => {
                    return token::RunEnd::Stop(p);
                },
                Piece::Fail(x, e) => {
                    return token::RunEnd::Fail(x, e);
                },
            }
        }
    }

    fn check<'a, I>(&'a self) -> (r: Result<(), Located<'a, UnescapeError>>)
        where T: Escapable<I>,
        ensures
            match grammar::chunks(self.content(), 0, T::is_text()) {
                Run::Stop(q) => if q == self.content().len() {
                    r is Ok
                } else {
                    r matches Err(l) && at_start(l, UnescapeError::UnknownEscape)
                },
                Run::Fail(x, _) => r matches Err(l) && escape_error_at(l, self.content(), x),
            },
    {
        let input = T::as_bytes(&self.0);
        match Self::scan::<I>(input) {
            token::RunEnd::Stop(q) => if q == input.len() {
                Ok(())
            } else {
                Err(Located::new().with_source(Some(input)).replace(UnescapeError::UnknownEscape))
            },
            token::RunEnd::Fail(x, _) => Err(location_in(input, x, UnescapeError::UnknownEscape)),
        }
    }

    /// Returns `true` if the contained value needs to be unescaped.
    ///
    /// This is also `true` if the contained value has errors;
    /// [unescape](Self::unescape) then says which.
    pub fn has_escapes<I>(&self) -> (r: bool)
        where T: Escapable<I>,
        ensures
            r == spec_has_escapes(self.content(), T::is_text()),
    {
        let bytes = T::as_bytes(&self.0);
        if bytes.len() == 0 {
            false
        } else {
            match T::chunk(bytes, 0) {
                Piece::Plain(q) => q != bytes.len(),
                _ => true,
            }
        }
    }

    /// `f` is the fragment `v` of the content `s`.
    pub open spec fn fragment_is<'a, I>(
        f: Result<EscapedFragment<&'a T::Target, I>, Located<'a, UnescapeError>>,
        v: FragmentView,
        s: Seq<u8>,
    ) -> bool where T: Escapable<I> {
        match f {
            Ok(EscapedFragment::Slice(t)) => v == FragmentView::Slice(T::spec_target(t)),
            Ok(EscapedFragment::Item(c)) => v == FragmentView::Item(T::spec_item(c)),
            Err(l) => v == FragmentView::Error(l.offset as int) && escape_error_at(
                l,
                s,
                l.offset as int,
            ) && (l.source matches Some(src) && src@ == s),
        }
    }

    /// The fragments inside this string or bytes: valid slices (`&str`
    /// or `&[u8]`) and unescaped items (`char` or `u8`), in order.
    ///
    /// A value made with [new_unchecked](Self::new_unchecked) may hold
    /// an unknown escape: its error is then the last entry.
    pub fn fragments<'a, I>(&'a self) -> (r: Vec<
        Result<EscapedFragment<&'a T::Target, I>, Located<'a, UnescapeError>>,
    >)
        where T: Escapable<I>,
        requires
            !stuck(self.content(), T::is_text()),
        ensures
            r@.len() == fragments_from(self.content(), 0, T::is_text()).len(),
            forall|i: int|
                0 <= i < r@.len() ==> Self::fragment_is(
                    #[trigger] r@[i],
                    fragments_from(self.content(), 0, T::is_text())[i],
                    self.content(),
                ),
    {
        let input = T::as_bytes(&self.0);
        let ghost s = input@;
        let ghost text = T::is_text();
        let mut out: Vec<Result<EscapedFragment<&'a T::Target, I>, Located<'a, UnescapeError>>> =
            Vec::new();
        let ghost mut seen: Seq<FragmentView> = seq![];
        let mut p: usize = 0;
        proof {
            assert(seen + fragments_from(s, 0, text) =~= fragments_from(s, 0, text));
        }
        while p < input.len()
            invariant_except_break
                grammar::chunks(s, 0, text) == grammar::chunks(s, p as int, text),
                fragments_from(s, 0, text) == seen + fragments_from(s, p as int, text),
            invariant
                s == input@,
                s == self.content(),
                text == T::is_text(),
                !stuck(s, text),
                p <= s.len(),
                out@.len() == seen.len(),
                forall|i: int| 0 <= i < out@.len() ==> Self::fragment_is(#[trigger] out@[i], seen[i], s),
            ensures
                fragments_from(s, 0, text) == seen,
            decreases s.len() - p,
        {
            proof {
                grammar::lemma_chunk_fail(s, p as int, text);
            }
            match T::chunk(input, p) {
                Piece::Plain(q) => {
                    out.push(Ok(EscapedFragment::Slice(T::slice(input, p, q))));
                    proof {
                        seen = seen.push(FragmentView::Slice(s.subrange(p as int, q as int)));
                    }
                    p = q;
                },
                Piece::Item(e, c) => {
                    out.push(Ok(EscapedFragment::Item(c)));
                    proof {
                        seen = seen.push(FragmentView::Item(T::spec_item(c)));
                    }
                    p = e;
                },
                Piece::Stop => {
                    proof {
                        assert(false);
                    }
                    break;
                },
                Piece::Fail(x, _) => {
                    out.push(Err(location_in(input, x, UnescapeError::UnknownEscape)));
                    proof {
                        seen = seen.push(FragmentView::Error(x as int));
                    }
                    break;
                },
            }
        }
        out
    }

    /// Un-escape this string or bytes, using the provided scratch buffer.
    ///
    /// Returns the unused rest of the buffer and the unescaped value
    /// (`&str` or `&[u8]`). This fails on a bad escape, or when the
    /// buffer is too small; it always copies, even when there is nothing
    /// to unescape.
    pub fn unescape<'a, 'buf, I>(&'a self, buffer: &'buf mut [u8]) -> (r: Result<
        (&'buf mut [u8], &'buf T::Target),
        Located<'a, UnescapeError>,
    >)
        where T: Escapable<I>, I: Copy,
        requires
            !(unescape_from(self.content(), 0, T::is_text(), seq![], old(buffer)@.len() as int) is Stuck),
        ensures
            match unescape_from(self.content(), 0, T::is_text(), seq![], old(buffer)@.len() as int) {
                Unescaped::Done(out) => r matches Ok((rest, t)) && T::spec_target(t) == out
                    && rest@.len() == old(buffer)@.len() - out.len() && final(buffer)@ == out
                    + final(rest)@,
                Unescaped::Error(x) => r matches Err(l) && escape_error_at(l, self.content(), x) && (
                l.source matches Some(src) && src@ == self.content()),
                Unescaped::Full => r matches Err(l) && at_start(l, UnescapeError::BufferFull) && (
                l.source matches Some(src) && src@ == self.content()),
                Unescaped::Stuck => false,
            },
    {
        let input = T::as_bytes(&self.0);
        let ghost s = input@;
        let ghost text = T::is_text();
        let ghost cap = buffer@.len() as int;
        let mut i: usize = 0;
        let mut p: usize = 0;
        proof {
            assert(buffer@.subrange(0, 0) =~= Seq::<u8>::empty());
            lemma_ascii_valid_utf8(Seq::<u8>::empty());
        }
        while p < input.len()
            invariant
                s == input@,
                s == self.content(),
                text == T::is_text(),
                p <= s.len(),
                i <= buffer@.len(),
                buffer@.len() == cap,
                cap == old(buffer)@.len(),
                unescape_from(s, 0, text, seq![], cap) == unescape_from(
                    s,
                    p as int,
                    text,
                    buffer@.subrange(0, i as int),
                    cap,
                ),
                !(unescape_from(s, 0, text, seq![], cap) is Stuck),
                text ==> valid_utf8(buffer@.subrange(0, i as int)),
            decreases s.len() - p,
        {
            proof {
                grammar::lemma_chunk_fail(s, p as int, text);
            }
            let ghost done = buffer@.subrange(0, i as int);
            match T::chunk(input, p) {
                Piece::Plain(q) => {
                    let amt = q - p;
                    if amt > buffer.len() - i {
                        assert(unescape_from(s, p as int, text, done, cap) == Unescaped::Full);
                        return Err(
                            Located::new().with_source(Some(input)).replace(
                                UnescapeError::BufferFull,
                            ),
                        );
                    }
                    copy_into(buffer, i, input, p, q);
                    proof {
                        assert(buffer@.subrange(0, i + amt) =~= done + s.subrange(p as int, q as int));
                        if text {
                            lemma_concat_valid(done, s.subrange(p as int, q as int));
                        }
                    }
                    i = i + amt;
                    p = q;
                },
                Piece::Item(e, c) => {
                    let amt = T::item_len(c);
                    if amt > buffer.len() - i {
                        assert(unescape_from(s, p as int, text, done, cap) == Unescaped::Full);
                        return Err(
                            Located::new().with_source(Some(input)).replace(
                                UnescapeError::BufferFull,
                            ),
                        );
                    }
                    T::item_write(c, buffer, i);
                    proof {
                        let b = item_bytes(T::spec_item(c), text);
                        assert(buffer@.subrange(0, i + amt) =~= done + b);
                        if text {
                            T::lemma_item(c);
                            lemma_concat_valid(done, b);
                        }
                    }
                    i = i + amt;
                    p = e;
                },
                Piece::Stop => {
                    proof {
                        assert(false);
                    }
                    return Err(
                        Located::new().with_source(Some(input)).replace(
                            UnescapeError::UnknownEscape,
                        ),
                    );
                },
                Piece::Fail(x, _) => {
                    assert(unescape_from(s, p as int, text, done, cap) == Unescaped::Error(x as int));
                    return Err(location_in(input, x, UnescapeError::UnknownEscape));
                },
            }
        }
        let (result, unused) = buffer.split_at_mut(i);
        Ok((unused, T::finalize(result)))
    }

    /// Extract the wrapped value.
    pub fn as_escaped(self) -> (r: T)
        ensures
            r == self.inner(),
    {
        self.0
    }
}

} // verus!

verus! {

impl<T> core::ops::Deref for Escaped<T> {
    type Target = T;

    fn deref(&self) -> (r: &T)
        ensures
            *r == self.inner(),
    {
        &self.0
    }
}

/// The bytes that fragments unescape to, in order; an error stands for
/// nothing.
pub open spec fn fragment_bytes(f: Seq<FragmentView>, text: bool) -> Seq<u8>
    decreases f.len(),
{
    if f.len() == 0 {
        seq![]
    } else {
        (match f[0] {
            FragmentView::Slice(b) => b,
            FragmentView::Item(c) => item_bytes(c, text),
            FragmentView::Error(_) => seq![],
        }) + fragment_bytes(f.drop_first(), text)
    }
}

/// An escape never unescapes to more bytes than it takes up.
pub proof fn lemma_item_fits(s: Seq<u8>, p: int, text: bool)
    requires
        0 <= p <= s.len(),
    ensures
        grammar::chunk(s, p, text) matches Chunk::Item(e, c) ==> item_bytes(c, text).len() <= e
            - p,
{
}

proof fn lemma_unescape_ends(s: Seq<u8>, p: int, text: bool, out: Seq<u8>, cap: int)
    requires
        0 <= p <= s.len(),
        out.len() + (s.len() - p) <= cap,
    ensures
        match grammar::chunks(s, p, text) {
            Run::Stop(q) => if q == s.len() {
                unescape_from(s, p, text, out, cap) == Unescaped::Done(
                    out + fragment_bytes(fragments_from(s, p, text), text),
                ) && out.len() + fragment_bytes(fragments_from(s, p, text), text).len() <= out.len()
                    + (s.len() - p)
            } else {
                unescape_from(s, p, text, out, cap) is Stuck
            },
            Run::Fail(x, _) => unescape_from(s, p, text, out, cap) == Unescaped::Error(x)
                && fragments_from(s, p, text).last() == FragmentView::Error(x),
        },
    decreases s.len() - p,
{
    if p < s.len() {
        lemma_item_fits(s, p, text);
        grammar::lemma_run_end(s, p, grammar::ByteClass::Plain);
        match grammar::chunk(s, p, text) {
            Chunk::Plain(q) => if p < q <= s.len() {
                let b = s.subrange(p, q);
                lemma_unescape_ends(s, q, text, out + b, cap);
                let rest = fragments_from(s, q, text);
                let f = seq![FragmentView::Slice(b)] + rest;
                assert(f.drop_first() =~= rest);
                assert(out + b + fragment_bytes(rest, text) =~= out + (b + fragment_bytes(
                    rest,
                    text,
                )));
            },
            Chunk::Item(e, c) => if p < e <= s.len() {
                let b = item_bytes(c, text);
                lemma_unescape_ends(s, e, text, out + b, cap);
                let rest = fragments_from(s, e, text);
                let f = seq![FragmentView::Item(c)] + rest;
                assert(f.drop_first() =~= rest);
                assert(out + b + fragment_bytes(rest, text) =~= out + (b + fragment_bytes(
                    rest,
                    text,
                )));
            },
            _ => {},
        }
    } else {
        assert(out + Seq::<u8>::empty() =~= out);
    }
}

/// A value that [Escaped::new] accepts unescapes into any buffer at
/// least as long as itself, to exactly the bytes of its fragments, which
/// are no more than it has; a value rejected for an unknown escape fails
/// to unescape at the same offset, where its fragments end with that
/// error.
pub proof fn lemma_new_agrees_with_unescape<I, T: Escapable<I>>(e: Escaped<T>, cap: int)
    requires
        e.content().len() <= cap,
    ensures
        ({
            let s = e.content();
            let text = T::is_text();
            match grammar::chunks(s, 0, text) {
                Run::Stop(q) => if q == s.len() {
                    &&& unescape_from(s, 0, text, seq![], cap) == Unescaped::Done(
                        fragment_bytes(fragments_from(s, 0, text), text),
                    )
                    &&& fragment_bytes(fragments_from(s, 0, text), text).len() <= s.len()
                } else {
                    stuck(s, text)
                },
                Run::Fail(x, _) => unescape_from(s, 0, text, seq![], cap) == Unescaped::Error(x)
                    && fragments_from(s, 0, text).last() == FragmentView::Error(x),
            }
        }),
{
    let s = e.content();
    let text = T::is_text();
    lemma_unescape_ends(s, 0, text, seq![], cap);
    let b = fragment_bytes(fragments_from(s, 0, text), text);
    assert(Seq::<u8>::empty() + b =~= b);
    match grammar::chunks(s, 0, text) {
        Run::Stop(q) => if q == s.len() {
            assert(unescape_from(s, 0, text, seq![], cap) == Unescaped::Done(b));
        } else {
            assert(stuck(s, text));
        },
        Run::Fail(x, _) => {
            assert(unescape_from(s, 0, text, seq![], cap) == Unescaped::Error(x));
        },
    }
}

/// A value without escapes unescapes, into any buffer at least as long
/// as itself, to its own bytes.
pub proof fn lemma_no_escapes_unescapes_to_itself<I, T: Escapable<I>>(e: Escaped<T>, cap: int)
    requires
        !spec_has_escapes(e.content(), T::is_text()),
        e.content().len() <= cap,
    ensures
        unescape_from(e.content(), 0, T::is_text(), seq![], cap) == Unescaped::Done(e.content()),
        !stuck(e.content(), T::is_text()),
{
    let s = e.content();
    let text = T::is_text();
    if s.len() > 0 {
        grammar::lemma_run_end(s, s.len() as int, grammar::ByteClass::Plain);
        assert(Seq::<u8>::empty() + s.subrange(0, s.len() as int) =~= s);
        assert(grammar::chunk(s, s.len() as int, text) == Chunk::Stop);
        assert(unescape_from(s, s.len() as int, text, s, cap) == Unescaped::Done(s));
        assert(unescape_from(s, 0, text, seq![], cap) == unescape_from(s, s.len() as int, text, s, cap));
    } else {
        assert(s =~= Seq::<u8>::empty());
        assert(grammar::chunk(s, 0, text) == Chunk::Stop);
    }
}


/// How fragments lie over the bytes `s` from `p` on: each slice is a
/// non-empty run of exactly those bytes, followed by an item or the end;
/// each item is the escape that starts with a backslash at that place and
/// decodes to it; the last fragment ends at the end of `s`.
pub open spec fn tiles(s: Seq<u8>, p: int, fs: Seq<FragmentView>, text: bool) -> bool
    decreases fs.len(),
{
    if fs.len() == 0 {
        p == s.len()
    } else {
        match fs[0] {
            FragmentView::Slice(b) => {
                &&& b.len() > 0
                &&& p + b.len() <= s.len()
                &&& s.subrange(p, p + b.len()) == b
                &&& (fs.len() > 1 ==> fs[1] is Item)
                &&& tiles(s, p + b.len(), fs.drop_first(), text)
            },
            FragmentView::Item(c) => match grammar::chunk(s, p, text) {
                Chunk::Item(e, d) => {
                    &&& d == c
                    &&& p < e <= s.len()
                    &&& grammar::byte_at(s, p, ascii::BACKSLASH)
                    &&& tiles(s, e, fs.drop_first(), text)
                },
                _ => false,
            },
            FragmentView::Error(_) => false,
        }
    }
}

/// A plain piece runs as far as plain bytes go, so no plain piece
/// follows it.
proof fn lemma_plain_maximal(s: Seq<u8>, p: int, text: bool)
    requires
        0 <= p <= s.len(),
    ensures
        grammar::chunk(s, p, text) matches Chunk::Plain(q) ==> q == grammar::run_end(
            s,
            p,
            grammar::ByteClass::Plain,
        ) && !(grammar::chunk(s, q, text) is Plain),
{
    grammar::lemma_run_end(s, p, grammar::ByteClass::Plain);
    let q = grammar::run_end(s, p, grammar::ByteClass::Plain);
    assert(grammar::run_end(s, q, grammar::ByteClass::Plain) == q);
}

/// Where the pieces run to the end and no plain piece starts, the
/// fragments are empty at the end and start with an item before it.
proof fn lemma_fragments_after_plain(s: Seq<u8>, q: int, text: bool)
    requires
        0 <= q <= s.len(),
        grammar::chunks(s, q, text) == Run::Stop(s.len() as int),
        !(grammar::chunk(s, q, text) is Plain),
    ensures
        (fragments_from(s, q, text).len() == 0) == (q == s.len()),
        q < s.len() ==> fragments_from(s, q, text)[0] is Item,
{
}

proof fn lemma_tiles_from(s: Seq<u8>, p: int, text: bool)
    requires
        0 <= p <= s.len(),
        grammar::chunks(s, p, text) == Run::Stop(s.len() as int),
    ensures
        tiles(s, p, fragments_from(s, p, text), text),
    decreases s.len() - p,
{
    if p < s.len() {
        lemma_plain_maximal(s, p, text);
        match grammar::chunk(s, p, text) {
            Chunk::Plain(q) => {
                let rest = fragments_from(s, q, text);
                let fs = fragments_from(s, p, text);
                lemma_tiles_from(s, q, text);
                lemma_fragments_after_plain(s, q, text);
                assert(fs.drop_first() =~= rest);
            },
            Chunk::Item(e, c) => {
                let rest = fragments_from(s, e, text);
                let fs = fragments_from(s, p, text);
                lemma_tiles_from(s, e, text);
                assert(fs.drop_first() =~= rest);
            },
            _ => {},
        }
    }
}

/// The fragments of a value that [Escaped::new] accepts hold no error
/// and tile its bytes in order: each slice is a non-empty run of its
/// bytes, never followed by another slice; each item is the backslash
/// escape at that place that decodes to it; together they cover every
/// byte.
pub proof fn lemma_fragments_tile<I, T: Escapable<I>>(e: Escaped<T>)
    requires
        grammar::chunks(e.content(), 0, T::is_text()) == Run::Stop(e.content().len() as int),
    ensures
        tiles(e.content(), 0, fragments_from(e.content(), 0, T::is_text()), T::is_text()),
{
    lemma_tiles_from(e.content(), 0, T::is_text());
}

/// Fragments that end in a failure are not empty, and end with the error.
proof fn lemma_fail_fragments(s: Seq<u8>, p: int, text: bool)
    requires
        0 <= p <= s.len(),
        grammar::chunks(s, p, text) is Fail,
    ensures
        fragments_from(s, p, text).len() > 0,
        fragments_from(s, p, text).last() is Error,
    decreases s.len() - p,
{
    grammar::lemma_run_end(s, p, grammar::ByteClass::Plain);
    match grammar::chunk(s, p, text) {
        Chunk::Plain(q) => {
            lemma_fail_fragments(s, q, text);
        },
        Chunk::Item(e, c) => {
            lemma_fail_fragments(s, e, text);
        },
        _ => {},
    }
}

/// [Escaped::has_escapes] is `true` exactly when some fragment is not a
/// plain slice: an unescaped item or an unknown escape.
pub proof fn lemma_has_escapes_agrees<I, T: Escapable<I>>(e: Escaped<T>)
    requires
        !stuck(e.content(), T::is_text()),
    ensures
        spec_has_escapes(e.content(), T::is_text()) == exists|i: int|
            0 <= i < fragments_from(e.content(), 0, T::is_text()).len() && !(#[trigger] fragments_from(
                e.content(),
                0,
                T::is_text(),
            )[i] is Slice),
{
    let s = e.content();
    let text = T::is_text();
    let fs = fragments_from(s, 0, text);
    lemma_plain_maximal(s, 0, text);
    grammar::lemma_run_end(s, 0, grammar::ByteClass::Plain);
    match grammar::chunks(s, 0, text) {
        Run::Fail(x, _) => {
            lemma_fail_fragments(s, 0, text);
            assert(!(fs[fs.len() - 1] is Slice));
        },
        Run::Stop(_) => {
            if s.len() > 0 {
                match grammar::chunk(s, 0, text) {
                    Chunk::Plain(q) => {
                        lemma_fragments_after_plain(s, q, text);
                        if q < s.len() {
                            assert(fs[1] == fragments_from(s, q, text)[0]);
                            assert(!(fs[1] is Slice));
                        } else {
                            assert(fs.len() == 1);
                        }
                    },
                    Chunk::Item(_, _) => {
                        assert(!(fs[0] is Slice));
                    },
                    _ => {},
                }
            }
        },
    }
}

proof fn lemma_unescape_fits_from(s: Seq<u8>, p: int, text: bool, out: Seq<u8>, cap: int)
    requires
        0 <= p <= s.len(),
        grammar::chunks(s, p, text) == Run::Stop(s.len() as int),
        out.len() <= cap,
    ensures
        unescape_from(s, p, text, out, cap) == (if out.len() + fragment_bytes(
            fragments_from(s, p, text),
            text,
        ).len() <= cap {
            Unescaped::Done(out + fragment_bytes(fragments_from(s, p, text), text))
        } else {
            Unescaped::Full
        }),
    decreases s.len() - p,
{
    let fs = fragments_from(s, p, text);
    if p < s.len() {
        match grammar::chunk(s, p, text) {
            Chunk::Plain(q) => {
                let b = s.subrange(p, q);
                let rest = fragments_from(s, q, text);
                assert(fs.drop_first() =~= rest);
                assert(fragment_bytes(fs, text) == b + fragment_bytes(rest, text));
                if (out + b).len() <= cap {
                    lemma_unescape_fits_from(s, q, text, out + b, cap);
                    assert(out + b + fragment_bytes(rest, text) =~= out + (b + fragment_bytes(
                        rest,
                        text,
                    )));
                }
            },
            Chunk::Item(e, c) => {
                let b = item_bytes(c, text);
                let rest = fragments_from(s, e, text);
                assert(fs.drop_first() =~= rest);
                assert(fragment_bytes(fs, text) == b + fragment_bytes(rest, text));
                if (out + b).len() <= cap {
                    lemma_unescape_fits_from(s, e, text, out + b, cap);
                    assert(out + b + fragment_bytes(rest, text) =~= out + (b + fragment_bytes(
                        rest,
                        text,
                    )));
                }
            },
            _ => {},
        }
    } else {
        assert(out + fragment_bytes(fs, text) =~= out);
    }
}

/// A value that [Escaped::new] accepts unescapes into a buffer of `cap`
/// bytes exactly when the bytes of its fragments fit, and then to those
/// bytes; otherwise the buffer is full.
pub proof fn lemma_unescape_fits<I, T: Escapable<I>>(e: Escaped<T>, cap: int)
    requires
        grammar::chunks(e.content(), 0, T::is_text()) == Run::Stop(e.content().len() as int),
        0 <= cap,
    ensures
        ({
            let b = fragment_bytes(fragments_from(e.content(), 0, T::is_text()), T::is_text());
            unescape_from(e.content(), 0, T::is_text(), seq![], cap) == if b.len() <= cap {
                Unescaped::Done(b)
            } else {
                Unescaped::Full
            }
        }),
{
    let s = e.content();
    let text = T::is_text();
    lemma_unescape_fits_from(s, 0, text, seq![], cap);
    assert(Seq::<u8>::empty() + fragment_bytes(fragments_from(s, 0, text), text) =~= fragment_bytes(
        fragments_from(s, 0, text),
        text,
    ));
}
} // verus!

verus! {

/// Unescaping a value whose pieces run to its end never gets stuck,
/// whatever the size of the buffer.
pub proof fn lemma_well_formed_never_stuck(s: Seq<u8>, p: int, text: bool, out: Seq<u8>, cap: int)
    requires
        0 <= p <= s.len(),
        grammar::chunks(s, p, text) == Run::Stop(s.len() as int),
    ensures
        !(unescape_from(s, p, text, out, cap) is Stuck),
    decreases s.len() - p,
{
    if p < s.len() {
        match grammar::chunk(s, p, text) {
            Chunk::Plain(q) => if p < q <= s.len() {
                lemma_well_formed_never_stuck(s, q, text, out + s.subrange(p, q), cap);
            },
            Chunk::Item(e, c) => if p < e <= s.len() {
                lemma_well_formed_never_stuck(s, e, text, out + item_bytes(c, text), cap);
            },
            _ => {},
        }
    }
}

} // verus!
