//! Source locations over text: a value annotated with where it sits in a
//! `&str` source.

use vstd::prelude::*;
use vstd::string::StringSliceAdditionalSpecFns;
use vstd::utf8::*;

use crate::types::location::{
    column_after, first_newline_from, last_newline_before, lemma_first_newline_bounds,
    lemma_last_newline_bounds, line_around, newline_count,
};
use vstd::string::StringExecFns;

use crate::fmt::{decimal, push_decimal, push_spaces, spaces};
use crate::utf8::lemma_boundary_after_ascii;

verus! {

/// A value annotated with its location in a text source.
///
/// `line` starts at 1 and `column` at 0; the offset into the source is
/// kept private.
#[derive(Clone, Debug)]
pub struct Located<'de, T> {
    /// The entire source this location points into.
    pub source: Option<&'de str>,
    /// Line number, starting at 1.
    pub line: usize,
    /// Column number, starting at 0.
    pub column: usize,
    offset: usize,
    value: T,
}

impl<'de> Located<'de, ()> {
    /// A location at the start of `source`.
    pub fn from_source(source: &'de str) -> (r: Self)
        ensures
            r.spec_source() == Some(source),
            r.spec_line() == 1,
            r.spec_column() == 0,
            r.spec_offset() == 0,
    {
        Located { source: Some(source), line: 1, column: 0, offset: 0, value: () }
    }
}

impl<'de, T> Located<'de, T> {
    /// The source this location points into.
    pub closed spec fn spec_source(self) -> Option<&'de str> {
        self.source
    }

    /// Line number.
    pub closed spec fn spec_line(self) -> usize {
        self.line
    }

    /// Column number.
    pub closed spec fn spec_column(self) -> usize {
        self.column
    }

    /// Byte offset into the source.
    pub closed spec fn spec_offset(self) -> usize {
        self.offset
    }

    /// The wrapped value.
    pub closed spec fn spec_value(self) -> T {
        self.value
    }

    /// The bytes of `start` that precede its last `end.len()` bytes.
    pub open spec fn passed(start: &str, end: &str) -> Seq<u8> {
        start.spec_bytes().subrange(0, start.spec_bytes().len() - end.spec_bytes().len())
    }

    /// Move this location over the part of `start` that precedes its
    /// last `end.len()` bytes. Nothing happens when `end` is longer than
    /// `start`.
    pub fn advance(&mut self, start: &'de str, end: &'de str)
        requires
            start.spec_bytes().len() >= end.spec_bytes().len() ==> {
                let new = Self::passed(start, end);
                &&& is_char_boundary(start.spec_bytes(), new.len() as int)
                &&& old(self).spec_line() + newline_count(new) <= usize::MAX
                &&& newline_count(new) == 0 ==> old(self).spec_column() + new.len() <= usize::MAX
                &&& old(self).spec_offset() + new.len() <= usize::MAX
            },
        ensures
            if start.spec_bytes().len() < end.spec_bytes().len() {
                *final(self) == *old(self)
            } else {
                let new = Self::passed(start, end);
                &&& final(self).spec_line() == old(self).spec_line() + newline_count(new)
                &&& final(self).spec_column() == column_after(new, old(self).spec_column() as nat)
                &&& final(self).spec_offset() == old(self).spec_offset() + new.len()
                &&& final(self).spec_source() == old(self).spec_source()
                &&& final(self).spec_value() == old(self).spec_value()
            },
    {
        let sb = start.as_bytes();
        let eb = end.as_bytes();
        if sb.len() < eb.len() {
            return ;
        }
        let amt = sb.len() - eb.len();
        let ghost new = sb@.subrange(0, amt as int);
        let ghost c0 = self.column as nat;
        assert(new == Self::passed(start, end));
        let mut newlines: usize = 0;
        let mut last_newline: Option<usize> = None;
        let mut i: usize = 0;
        while i < amt
            invariant
                i <= amt <= sb@.len(),
                new == sb@.subrange(0, amt as int),
                newlines == newline_count(new.subrange(0, i as int)),
                newline_count(new) <= usize::MAX,
                match last_newline {
                    Some(l) => l < i && column_after(new.subrange(0, i as int), c0) == i - l - 1,
                    None => newlines == 0 && column_after(new.subrange(0, i as int), c0) == c0
                        + i,
                },
            decreases amt - i,
        {
            proof {
                assert(new.subrange(0, i + 1).drop_last() =~= new.subrange(0, i as int));
                crate::types::location::lemma_newline_count_concat(
                    new.subrange(0, i + 1),
                    new.subrange(i + 1, amt as int),
                );
                assert(new.subrange(0, i + 1) + new.subrange(i + 1, amt as int) =~= new);
            }
            if sb[i] == 10u8 {
                newlines = newlines + 1;
                last_newline = Some(i);
            }
            i = i + 1;
        }
        proof {
            assert(new.subrange(0, amt as int) =~= new);
        }
        match last_newline {
            Some(l) => {
                self.line = self.line + newlines;
                self.column = amt - l - 1;
            },
            None => {
                self.column = self.column + amt;
            },
        }
        self.offset = self.offset + amt;
    }

    /// Replace the wrapped value, returning the new `Located` and the old
    /// value.
    pub fn replace<U>(self, value: U) -> (r: (Located<'de, U>, T))
        ensures
            r.0.spec_source() == self.spec_source(),
            r.0.spec_line() == self.spec_line(),
            r.0.spec_column() == self.spec_column(),
            r.0.spec_offset() == self.spec_offset(),
            r.0.spec_value() == value,
            r.1 == self.spec_value(),
    {
        (
            Located {
                source: self.source,
                line: self.line,
                column: self.column,
                offset: self.offset,
                value,
            },
            self.value,
        )
    }

    /// Wrap a value at this location.
    pub fn wrap<U>(&self, value: U) -> (r: Located<'de, U>)
        ensures
            r.spec_source() == self.spec_source(),
            r.spec_line() == self.spec_line(),
            r.spec_column() == self.spec_column(),
            r.spec_offset() == self.spec_offset(),
            r.spec_value() == value,
    {
        Located {
            source: self.source,
            line: self.line,
            column: self.column,
            offset: self.offset,
            value,
        }
    }

    /// Wrap a value at this location, then move this location as
    /// [advance](Self::advance) does.
    pub fn advance_and_wrap<U>(&mut self, start: &'de str, end: &'de str, value: U) -> (r:
        Located<'de, U>)
        requires
            start.spec_bytes().len() >= end.spec_bytes().len() ==> {
                let new = Self::passed(start, end);
                &&& is_char_boundary(start.spec_bytes(), new.len() as int)
                &&& old(self).spec_line() + newline_count(new) <= usize::MAX
                &&& newline_count(new) == 0 ==> old(self).spec_column() + new.len() <= usize::MAX
                &&& old(self).spec_offset() + new.len() <= usize::MAX
            },
        ensures
            r.spec_source() == old(self).spec_source(),
            r.spec_line() == old(self).spec_line(),
            r.spec_column() == old(self).spec_column(),
            r.spec_offset() == old(self).spec_offset(),
            r.spec_value() == value,
            if start.spec_bytes().len() < end.spec_bytes().len() {
                *final(self) == *old(self)
            } else {
                let new = Self::passed(start, end);
                &&& final(self).spec_line() == old(self).spec_line() + newline_count(new)
                &&& final(self).spec_column() == column_after(new, old(self).spec_column() as nat)
                &&& final(self).spec_offset() == old(self).spec_offset() + new.len()
                &&& final(self).spec_source() == old(self).spec_source()
                &&& final(self).spec_value() == old(self).spec_value()
            },
    {
        let wrapped = self.wrap(value);
        self.advance(start, end);
        wrapped
    }

    /// Drop the source.
    pub fn forget_source(self) -> (r: Located<'static, T>)
        ensures
            r.spec_source() is None,
            r.spec_line() == self.spec_line(),
            r.spec_column() == self.spec_column(),
            r.spec_offset() == self.spec_offset(),
            r.spec_value() == self.spec_value(),
    {
        Located {
            source: None,
            line: self.line,
            column: self.column,
            offset: self.offset,
            value: self.value,
        }
    }

    /// The line of source that holds this location, without its line
    /// ending; `None` without a source.
    pub fn get_source_line(&self) -> (r: Option<&'de str>)
        requires
            self.spec_source() matches Some(src) ==> self.spec_offset() <= src.spec_bytes().len()
                && is_char_boundary(src.spec_bytes(), self.spec_offset() as int),
        ensures
            match self.spec_source() {
                Some(src) => r matches Some(l) && l.spec_bytes() == line_around(
                    src.spec_bytes(),
                    self.spec_offset() as int,
                ),
                None => r is None,
            },
    {
        let source = match self.source {
            Some(s) => s,
            None => return None,
        };
        let bytes = source.as_bytes();
        let off = self.offset;
        let mut start = off;
        while start > 0 && bytes[start - 1] != 10u8
            invariant
                start <= off <= bytes@.len(),
                last_newline_before(bytes@, off as int) == last_newline_before(
                    bytes@,
                    start as int,
                ),
            decreases start,
        {
            start = start - 1;
        }
        let mut end = off;
        while end < bytes.len() && bytes[end] != 10u8
            invariant
                off <= end <= bytes@.len(),
                first_newline_from(bytes@, off as int) == first_newline_from(bytes@, end as int),
            decreases bytes@.len() - end,
        {
            end = end + 1;
        }
        proof {
            let b = bytes@;
            lemma_last_newline_bounds(b, start as int);
            lemma_first_newline_bounds(b, end as int);
            encode_utf8_valid_utf8(source@);
            is_char_boundary_start_end_of_seq(b);
            if start > 0 {
                lemma_boundary_after_ascii(b, start as int);
            }
            valid_utf8_split(b, start as int);
            let tail = b.subrange(start as int, b.len() as int);
            is_char_boundary_start_end_of_seq(tail);
            if end < b.len() {
                is_char_boundary_iff_not_is_continuation_byte(tail, end - start);
            }
        }
        let (_, tail) = source.split_at(start);
        let (line, _) = tail.split_at(end - start);
        proof {
            assert(line.spec_bytes() =~= bytes@.subrange(start as int, end as int));
        }
        Some(line)
    }
}

/// How a value located in a text source is shown, given the text of the
/// value: the value, then its line and column, on one line; when the
/// source is known, its line and a caret under the column on two more.
pub open spec fn display_text(
    value: Seq<char>,
    line: nat,
    column: nat,
    source_line: Option<Seq<char>>,
) -> Seq<char> {
    let head = value + " at source location "@ + decimal(line) + ":"@ + decimal(column) + "\n"@;
    match source_line {
        Some(l) => head + "  | "@ + l + "\n"@ + "    "@ + spaces(column) + "^\n"@,
        None => head,
    }
}

impl<'de, T> Located<'de, T> {
    /// The source line as text, when there is a source.
    pub open spec fn spec_source_line(self) -> Option<Seq<char>> {
        match self.spec_source() {
            Some(src) => Some(decode_utf8(line_around(src.spec_bytes(), self.spec_offset() as int))),
            None => None,
        }
    }

    /// Show this location with `value`, the text of the wrapped value:
    /// `VALUE at source location LINE:COLUMN`, then the source line and a
    /// caret under the column when there is a source.
    pub fn display_with(&self, value: &str) -> (r: String)
        requires
            self.spec_source() matches Some(src) ==> self.spec_offset() <= src.spec_bytes().len()
                && is_char_boundary(src.spec_bytes(), self.spec_offset() as int),
        ensures
            r@ == display_text(
                value@,
                self.spec_line() as nat,
                self.spec_column() as nat,
                self.spec_source_line(),
            ),
    {
        let mut s = String::new();
        s.append(value);
        s.append(" at source location ");
        push_decimal(&mut s, self.line);
        s.append(":");
        push_decimal(&mut s, self.column);
        s.append("\n");
        match self.get_source_line() {
            Some(l) => {
                proof {
                    encode_utf8_decode_utf8(l@);
                }
                s.append("  | ");
                s.append(l);
                s.append("\n");
                s.append("    ");
                push_spaces(&mut s, self.column);
                s.append("^\n");
            },
            None => {},
        }
        s
    }
}

impl<'de, T, E> Located<'de, Result<T, E>> {
    /// Turn a `Located<Result<...>>` into a `Result<Located<...>>`.
    pub fn transpose(self) -> (r: Result<Located<'de, T>, Located<'de, E>>)
        ensures
            match self.spec_value() {
                Ok(t) => r matches Ok(x) && x.spec_source() == self.spec_source() && x.spec_line() == self.spec_line()
                    && x.spec_column() == self.spec_column() && x.spec_offset() == self.spec_offset()
                    && x.spec_value() == t,
                Err(e) => r matches Err(x) && x.spec_source() == self.spec_source() && x.spec_line() == self.spec_line()
                    && x.spec_column() == self.spec_column() && x.spec_offset() == self.spec_offset()
                    && x.spec_value() == e,
            },
    {
        let (loc, value) = self.replace(());
        match value {
            Ok(t) => Ok(loc.replace(t).0),
            Err(e) => Err(loc.replace(e).0),
        }
    }
}

impl<'de, T: Default> Default for Located<'de, T> {
    fn default() -> (r: Self)
        ensures
            r.spec_source() is None,
            r.spec_line() == 1,
            r.spec_column() == 0,
            r.spec_offset() == 0,
    {
        Located { source: None, line: 1, column: 0, offset: 0, value: T::default() }
    }
}

impl<'de, T> core::ops::Deref for Located<'de, T> {
    type Target = T;

    fn deref(&self) -> (r: &T)
        ensures
            *r == self.spec_value(),
    {
        &self.value
    }
}

} // verus!
