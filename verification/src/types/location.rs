//! Values annotated with the place in the source they came from.

use vstd::prelude::*;
use vstd::std_specs::cmp::PartialEqSpec;
use vstd::std_specs::cmp::PartialEqSpecImpl;
use vstd::string::StringSliceAdditionalSpecFns;

use vstd::string::StringExecFns;

use crate::fmt::{decimal, push_decimal, push_spaces, spaces};
use crate::utf8::str_from_utf8;

verus! {

/// A [Result] where both the [Ok] and [Err] contain a [Located].
pub type LocResult<'de, T, E> = Result<Located<'de, T>, Located<'de, E>>;

/// A value annotated with its source location.
///
/// `line` starts at 1, `column` at 0, and `offset` is the byte offset
/// into `source`. The lifetime `'a` is that of the source itself.
#[derive(Clone, Copy, Debug)]
pub struct Located<'a, T> {
    /// The entire source for the location this value is attached to.
    pub source: Option<&'a [u8]>,
    /// Line number, starting at 1.
    pub line: usize,
    /// Column number, starting at 0.
    pub column: usize,
    /// Offset into `self.source`.
    pub offset: usize,
    /// The value wrapped by this `Located`.
    pub value: T,
}

/// Number of newline bytes in `s`.
pub open spec fn newline_count(s: Seq<u8>) -> nat
    decreases s.len(),
{
    if s.len() == 0 {
        0
    } else {
        newline_count(s.drop_last()) + if s.last() == 10u8 {
            1nat
        } else {
            0nat
        }
    }
}

/// The column reached after reading `s`, starting at column `col`: the
/// number of bytes after the last newline of `s`, or `col + s.len()`
/// when `s` holds no newline.
pub open spec fn column_after(s: Seq<u8>, col: nat) -> nat
    decreases s.len(),
{
    if s.len() == 0 {
        col
    } else if s.last() == 10u8 {
        0
    } else {
        column_after(s.drop_last(), col) + 1
    }
}

/// Index of the last newline in `s[..k]`, or -1 when there is none.
pub open spec fn last_newline_before(s: Seq<u8>, k: int) -> int
    decreases k,
{
    if k <= 0 {
        -1
    } else if s[k - 1] == 10u8 {
        k - 1
    } else {
        last_newline_before(s, k - 1)
    }
}

/// Index of the first newline in `s[k..]`, or `s.len()` when there is none.
pub open spec fn first_newline_from(s: Seq<u8>, k: int) -> int
    decreases s.len() - k,
{
    if k >= s.len() {
        s.len() as int
    } else if s[k] == 10u8 {
        k
    } else {
        first_newline_from(s, k + 1)
    }
}

/// The line of `s` that holds byte offset `k`, without its newline.
pub open spec fn line_around(s: Seq<u8>, k: int) -> Seq<u8> {
    s.subrange(last_newline_before(s, k) + 1, first_newline_from(s, k))
}

pub proof fn lemma_last_newline_bounds(s: Seq<u8>, k: int)
    requires
        0 <= k <= s.len(),
    ensures
        -1 <= last_newline_before(s, k) < k,
    decreases k,
{
    if k > 0 && s[k - 1] != 10u8 {
        lemma_last_newline_bounds(s, k - 1);
    }
}

pub proof fn lemma_first_newline_bounds(s: Seq<u8>, k: int)
    requires
        0 <= k <= s.len(),
    ensures
        k <= first_newline_from(s, k) <= s.len(),
    decreases s.len() - k,
{
    if k < s.len() && s[k] != 10u8 {
        lemma_first_newline_bounds(s, k + 1);
    }
}

/// No newline lies between the last newline before `k` and `k`.
proof fn lemma_no_newline_after_last(s: Seq<u8>, k: int)
    requires
        0 <= k <= s.len(),
    ensures
        forall|j: int| last_newline_before(s, k) < j < k ==> #[trigger] s[j] != 10u8,
    decreases k,
{
    if k > 0 && s[k - 1] != 10u8 {
        lemma_no_newline_after_last(s, k - 1);
    }
}

/// No newline lies between `k` and the first newline from `k`.
proof fn lemma_no_newline_before_first(s: Seq<u8>, k: int)
    requires
        0 <= k <= s.len(),
    ensures
        forall|j: int| k <= j < first_newline_from(s, k) ==> #[trigger] s[j] != 10u8,
    decreases s.len() - k,
{
    if k < s.len() && s[k] != 10u8 {
        lemma_no_newline_before_first(s, k + 1);
    }
}

/// The line around an offset, which [Located::source_line_bytes]
/// returns, holds no newline.
pub proof fn lemma_source_line_has_no_newline(s: Seq<u8>, k: int)
    requires
        0 <= k <= s.len(),
    ensures
        forall|i: int| 0 <= i < line_around(s, k).len() ==> #[trigger] line_around(s, k)[i] != 10u8,
{
    lemma_last_newline_bounds(s, k);
    lemma_first_newline_bounds(s, k);
    lemma_no_newline_after_last(s, k);
    lemma_no_newline_before_first(s, k);
    let a = last_newline_before(s, k) + 1;
    assert forall|i: int| 0 <= i < line_around(s, k).len() implies #[trigger] line_around(s, k)[i]
        != 10u8 by {
        assert(line_around(s, k)[i] == s[a + i]);
    }
}

pub proof fn lemma_newline_count_bound(s: Seq<u8>)
    ensures
        newline_count(s) <= s.len(),
    decreases s.len(),
{
    if s.len() > 0 {
        lemma_newline_count_bound(s.drop_last());
    }
}

pub proof fn lemma_column_after_bound(s: Seq<u8>, col: nat)
    ensures
        column_after(s, col) <= col + s.len(),
    decreases s.len(),
{
    if s.len() > 0 {
        lemma_column_after_bound(s.drop_last(), col);
    }
}

/// Index `k`'s last newline looks only at the bytes before `k`.
proof fn lemma_last_newline_prefix(s: Seq<u8>, t: Seq<u8>, k: int)
    requires
        0 <= k <= s.len(),
        k <= t.len(),
        forall|i: int| 0 <= i < k ==> s[i] == t[i],
    ensures
        last_newline_before(s, k) == last_newline_before(t, k),
    decreases k,
{
    if k > 0 {
        lemma_last_newline_prefix(s, t, k - 1);
    }
}

/// The column after reading `s` is the number of bytes after its last
/// newline, or `col` moved by all of `s` when it holds none; `s` holds
/// no newline exactly when it has no last newline.
pub proof fn lemma_column_after_last_newline(s: Seq<u8>, col: nat)
    ensures
        (newline_count(s) == 0) == (last_newline_before(s, s.len() as int) == -1),
        last_newline_before(s, s.len() as int) == -1 ==> column_after(s, col) == col + s.len(),
        last_newline_before(s, s.len() as int) >= 0 ==> column_after(s, col) == s.len()
            - last_newline_before(s, s.len() as int) - 1,
    decreases s.len(),
{
    if s.len() > 0 {
        let t = s.drop_last();
        lemma_column_after_last_newline(t, col);
        lemma_last_newline_prefix(s, t, t.len() as int);
        lemma_last_newline_bounds(t, t.len() as int);
    }
}

/// Reading `a` then `b` counts the newlines of both.
pub proof fn lemma_newline_count_concat(a: Seq<u8>, b: Seq<u8>)
    ensures
        newline_count(a + b) == newline_count(a) + newline_count(b),
    decreases b.len(),
{
    if b.len() > 0 {
        lemma_newline_count_concat(a, b.drop_last());
        assert((a + b).drop_last() =~= a + b.drop_last());
    } else {
        assert(a + b =~= a);
    }
}

/// Reading `a` then `b` reaches the column that reading `b` from the
/// column after `a` reaches.
pub proof fn lemma_column_after_concat(a: Seq<u8>, b: Seq<u8>, col: nat)
    ensures
        column_after(a + b, col) == column_after(b, column_after(a, col)),
    decreases b.len(),
{
    if b.len() > 0 {
        lemma_column_after_concat(a, b.drop_last(), col);
        assert((a + b).drop_last() =~= a + b.drop_last());
    } else {
        assert(a + b =~= a);
    }
}

impl Located<'static, ()> {
    /// Create a new, empty location, positioned at the start.
    pub fn new() -> (r: Self)
        ensures
            r.source is None,
            r.line == 1,
            r.column == 0,
            r.offset == 0,
    {
        Located { source: None, line: 1, column: 0, offset: 0, value: () }
    }
}

impl<'de, T> Located<'de, T> {
    /// Get the line of source attached to this value.
    ///
    /// This is `None` if the source is missing or the line is not valid
    /// UTF-8.
    pub fn source_line(&self) -> (r: Option<&'de str>)
        ensures
            match self.spec_source_line_bytes() {
                Some(b) => match r {
                    Some(s) => vstd::utf8::valid_utf8(b) && s.spec_bytes() == b,
                    None => !vstd::utf8::valid_utf8(b),
                },
                None => r is None,
            },
    {
        match self.source_line_bytes() {
            Some(b) => match str_from_utf8(b) {
                Ok(s) => Some(s),
                Err(_) => None,
            },
            None => None,
        }
    }

    /// The bytes of the line that holds `offset`, when there is a source
    /// and `offset` lies within it.
    pub open spec fn spec_source_line_bytes(&self) -> Option<Seq<u8>> {
        match self.source {
            Some(src) => if self.offset <= src@.len() {
                Some(line_around(src@, self.offset as int))
            } else {
                None
            },
            None => None,
        }
    }

    /// Get the line of source attached to this value, as bytes.
    ///
    /// This is `None` if the source is missing or `offset` lies past it.
    pub fn source_line_bytes(&self) -> (r: Option<&'de [u8]>)
        ensures
            match self.spec_source_line_bytes() {
                Some(b) => r matches Some(x) && x@ == b,
                None => r is None,
            },
    {
        let source = match self.source {
            Some(s) => s,
            None => return None,
        };
        if self.offset > source.len() {
            return None;
        }
        let off = self.offset;
        let mut start = off;
        while start > 0 && source[start - 1] != 10u8
            invariant
                start <= off <= source@.len(),
                last_newline_before(source@, off as int) == last_newline_before(
                    source@,
                    start as int,
                ),
            decreases start,
        {
            start = start - 1;
        }
        let mut end = off;
        while end < source.len() && source[end] != 10u8
            invariant
                off <= end <= source@.len(),
                first_newline_from(source@, off as int) == first_newline_from(
                    source@,
                    end as int,
                ),
            decreases source@.len() - end,
        {
            end = end + 1;
        }
        proof {
            lemma_last_newline_bounds(source@, start as int);
            lemma_first_newline_bounds(source@, end as int);
        }
        Some(&source[start..end])
    }

    /// Move this location forward over the part of `start` that precedes
    /// its trailing part `end`.
    pub fn advance(&mut self, start: &'de [u8], end: &'de [u8])
        requires
            end@.len() <= start@.len(),
            end@ == start@.subrange(start@.len() - end@.len(), start@.len() as int),
            old(self).line + newline_count(start@.subrange(0, start@.len() - end@.len()))
                <= usize::MAX,
            newline_count(start@.subrange(0, start@.len() - end@.len())) == 0 ==> old(self).column
                + start@.len() - end@.len() <= usize::MAX,
            old(self).offset + start@.len() - end@.len() <= usize::MAX,
        ensures
            ({
                let new = start@.subrange(0, start@.len() - end@.len());
                &&& final(self).line == old(self).line + newline_count(new)
                &&& final(self).column == column_after(new, old(self).column as nat)
                &&& final(self).offset == old(self).offset + new.len()
            }),
            final(self).source == old(self).source,
            final(self).value == old(self).value,
    {
        let amt = start.len() - end.len();
        let ghost new = start@.subrange(0, amt as int);
        let mut newlines: usize = 0;
        let mut last_newline: Option<usize> = None;
        let mut i: usize = 0;
        proof {
            lemma_newline_count_bound(new);
        }
        while i < amt
            invariant
                i <= amt <= start@.len(),
                new == start@.subrange(0, amt as int),
                newline_count(new) <= amt,
                newlines == newline_count(new.subrange(0, i as int)),
                newlines <= newline_count(new),
                match last_newline {
                    Some(j) => j == last_newline_before(new, i as int),
                    None => last_newline_before(new, i as int) == -1,
                },
            decreases amt - i,
        {
            proof {
                assert(new.subrange(0, i + 1).drop_last() =~= new.subrange(0, i as int));
                lemma_newline_count_concat(new.subrange(0, i + 1), new.subrange(i + 1, amt as int));
                assert(new.subrange(0, i + 1) + new.subrange(i + 1, amt as int) =~= new);
            }
            if start[i] == 10u8 {
                newlines = newlines + 1;
                last_newline = Some(i);
            }
            i = i + 1;
        }
        proof {
            assert(new.subrange(0, amt as int) =~= new);
            lemma_column_after_last_newline(new, old(self).column as nat);
        }
        match last_newline {
            Some(j) => {
                proof {
                    lemma_last_newline_bounds(new, amt as int);
                }
                self.line = self.line + newlines;
                self.column = amt - j - 1;
            },
            None => {
                self.column = self.column + amt;
            },
        }
        self.offset = self.offset + amt;
    }

    /// Wrap the given object in this location, returning a new `Located`.
    pub fn wrap<U>(&self, value: U) -> (r: Located<'de, U>)
        ensures
            r.source == self.source,
            r.line == self.line,
            r.column == self.column,
            r.offset == self.offset,
            r.value == value,
    {
        Located {
            source: self.source,
            line: self.line,
            column: self.column,
            offset: self.offset,
            value,
        }
    }

    /// Replace the value contained in this `Located`.
    pub fn replace<U>(self, value: U) -> (r: Located<'de, U>)
        ensures
            r.source == self.source,
            r.line == self.line,
            r.column == self.column,
            r.offset == self.offset,
            r.value == value,
    {
        Located {
            source: self.source,
            line: self.line,
            column: self.column,
            offset: self.offset,
            value,
        }
    }

    /// Split this `Located` into a pure location and the contained value.
    pub fn split(self) -> (r: (Located<'de, ()>, T))
        ensures
            r.0.source == self.source,
            r.0.line == self.line,
            r.0.column == self.column,
            r.0.offset == self.offset,
            r.1 == self.value,
    {
        (
            Located {
                source: self.source,
                line: self.line,
                column: self.column,
                offset: self.offset,
                value: (),
            },
            self.value,
        )
    }

    /// Run a function on the contained value, and replace it with the result.
    pub fn map<U, F: FnOnce(T) -> U>(self, f: F) -> (r: Located<'de, U>)
        requires
            f.requires((self.value,)),
        ensures
            r.source == self.source,
            r.line == self.line,
            r.column == self.column,
            r.offset == self.offset,
            f.ensures((self.value,), r.value),
    {
        let v = f(self.value);
        Located {
            source: self.source,
            line: self.line,
            column: self.column,
            offset: self.offset,
            value: v,
        }
    }

    /// Attach a source to this `Located`.
    pub fn with_source<'a>(self, source: Option<&'a [u8]>) -> (r: Located<'a, T>)
        ensures
            r.source == source,
            r.line == self.line,
            r.column == self.column,
            r.offset == self.offset,
            r.value == self.value,
    {
        Located {
            source,
            line: self.line,
            column: self.column,
            offset: self.offset,
            value: self.value,
        }
    }

    /// Drop the source from this `Located`.
    pub fn without_source(self) -> (r: Located<'static, T>)
        ensures
            r.source is None,
            r.line == self.line,
            r.column == self.column,
            r.offset == self.offset,
            r.value == self.value,
    {
        Located {
            source: None,
            line: self.line,
            column: self.column,
            offset: self.offset,
            value: self.value,
        }
    }
}

/// How a located value is shown, given the text of the value: its line
/// and column, then the value, on one line; when the source line is
/// known, that line and a caret under the column on two more.
pub open spec fn display_text(
    line: nat,
    column: nat,
    value: Seq<char>,
    source_line: Option<Seq<char>>,
) -> Seq<char> {
    let head = "at source location "@ + decimal(line) + ":"@ + decimal(column) + ", "@ + value
        + "\n"@;
    match source_line {
        Some(l) => head + "  | "@ + l + "\n"@ + "    "@ + spaces(column) + "^\n"@,
        None => head,
    }
}

impl<'de, T> Located<'de, T> {
    /// The source line as text, when it is known and valid UTF-8.
    pub open spec fn spec_source_line(&self) -> Option<Seq<char>> {
        match self.spec_source_line_bytes() {
            Some(b) => if vstd::utf8::valid_utf8(b) {
                Some(vstd::utf8::decode_utf8(b))
            } else {
                None
            },
            None => None,
        }
    }

    /// Show this location with `value`, the text of the wrapped value:
    /// `at source location LINE:COLUMN, VALUE`, then the source line and
    /// a caret under the column when the source line is known.
    pub fn display_with(&self, value: &str) -> (r: String)
        ensures
            r@ == display_text(self.line as nat, self.column as nat, value@, self.spec_source_line()),
    {
        let mut s = String::new();
        s.append("at source location ");
        push_decimal(&mut s, self.line);
        s.append(":");
        push_decimal(&mut s, self.column);
        s.append(", ");
        s.append(value);
        s.append("\n");
        match self.source_line() {
            Some(l) => {
                proof {
                    vstd::utf8::encode_utf8_decode_utf8(l@);
                }
                s.append("  | ");
                s.append(l);
                s.append("\n");
                s.append("    ");
                push_spaces(&mut s, self.column);
                s.append("^\n");
            },
            None => {},
        }
        s
    }
}

/// A located result as a result of located values.
pub open spec fn result_located<'de, T, E>(l: Located<'de, Result<T, E>>) -> LocResult<'de, T, E> {
    match l.value {
        Ok(t) => Ok(
            Located { source: l.source, line: l.line, column: l.column, offset: l.offset, value: t },
        ),
        Err(e) => Err(
            Located { source: l.source, line: l.line, column: l.column, offset: l.offset, value: e },
        ),
    }
}

/// A result of located values as a located result.
pub open spec fn located_result<'de, T, E>(r: LocResult<'de, T, E>) -> Located<'de, Result<T, E>> {
    match r {
        Ok(t) => Located {
            source: t.source,
            line: t.line,
            column: t.column,
            offset: t.offset,
            value: Ok(t.value),
        },
        Err(e) => Located {
            source: e.source,
            line: e.line,
            column: e.column,
            offset: e.offset,
            value: Err(e.value),
        },
    }
}

/// [Located::from_result] and [Located::to_result] undo each other.
pub proof fn lemma_result_round_trip<'de, T, E>(
    r: LocResult<'de, T, E>,
    l: Located<'de, Result<T, E>>,
)
    ensures
        result_located(located_result(r)) == r,
        located_result(result_located(l)) == l,
{
}

impl<'de, T, E> Located<'de, Result<T, E>> {
    /// Turn a `Result<Located<...>>` into a `Located<Result<...>>`.
    pub fn from_result(result: LocResult<'de, T, E>) -> (r: Self)
        ensures
            r == located_result(result),
    {
        match result {
            Ok(t) => Located {
                source: t.source,
                line: t.line,
                column: t.column,
                offset: t.offset,
                value: Ok(t.value),
            },
            Err(e) => Located {
                source: e.source,
                line: e.line,
                column: e.column,
                offset: e.offset,
                value: Err(e.value),
            },
        }
    }

    /// Turn a `Located<Result<...>>` into a `Result<Located<...>>`.
    pub fn to_result(self) -> (r: LocResult<'de, T, E>)
        ensures
            r == result_located(self),
    {
        match self.value {
            Ok(t) => Ok(Located {
                source: self.source,
                line: self.line,
                column: self.column,
                offset: self.offset,
                value: t,
            }),
            Err(e) => Err(Located {
                source: self.source,
                line: self.line,
                column: self.column,
                offset: self.offset,
                value: e,
            }),
        }
    }
}

impl<'de, T: Default> Default for Located<'de, T> {
    fn default() -> (r: Self)
        ensures
            r.source is None,
            r.line == 1,
            r.column == 0,
            r.offset == 0,
    {
        Located { source: None, line: 1, column: 0, offset: 0, value: T::default() }
    }
}

impl<'de, T> core::ops::Deref for Located<'de, T> {
    type Target = T;

    fn deref(&self) -> (r: &T)
        ensures
            *r == self.value,
    {
        &self.value
    }
}

impl<'de, T: PartialEq + PartialEqSpec> PartialEq for Located<'de, T> {
    fn eq(&self, other: &Self) -> (r: bool) {
        self.line == other.line && self.column == other.column && self.offset == other.offset
            && self.value == other.value
    }
}

impl<'de, T: PartialEq + PartialEqSpec> PartialEqSpecImpl for Located<'de, T> {
    open spec fn obeys_eq_spec() -> bool {
        T::obeys_eq_spec()
    }

    /// Locations compare equal when line, column, offset and value do;
    /// the attached source is not compared.
    open spec fn eq_spec(&self, other: &Self) -> bool {
        self.line == other.line && self.column == other.column && self.offset == other.offset
            && self.value.eq_spec(&other.value)
    }
}

impl<'de, T: Eq + PartialEqSpec> Eq for Located<'de, T> {

}

} // verus!
