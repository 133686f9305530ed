//! Strings that are known to hold only well-formed escapes.

use vstd::prelude::*;

use crate::de::grammar::{self, Run};
use crate::de::token::{RunEnd, TokenError};
use crate::types::escaped::{Escapable, Escaped};

verus! {

/// A string whose escape sequences are all well-formed.
#[derive(Clone, Debug)]
pub struct EscapedStr<T>(T);

impl<T> EscapedStr<T> {
    /// The wrapped value, escapes included.
    pub closed spec fn inner(self) -> T {
        self.0
    }

    /// Check the escapes of `s` and wrap it.
    ///
    /// Fails with the tokenizer's error at a malformed escape, and with
    /// [TokenError::UnknownToken] where a byte that no piece of a string
    /// starts with (a bare double quote) comes before the end.
    pub fn new(s: T) -> (r: Result<Self, TokenError>)
        where T: Escapable<char>,
        ensures
            match grammar::chunks(s.spec_content(), 0, T::is_text()) {
                Run::Stop(q) => if q == s.spec_content().len() {
                    r matches Ok(e) && e.inner() == s
                } else {
                    r == Err::<Self, TokenError>(TokenError::UnknownToken)
                },
                Run::Fail(_, e) => r == Err::<Self, TokenError>(e),
            },
    {
        let s = EscapedStr(s);
        match s.check() {
            Ok(()) => Ok(s),
            Err(e) => Err(e),
        }
    }

    fn check(&self) -> (r: Result<(), TokenError>)
        where T: Escapable<char>,
        ensures
            match grammar::chunks(self.0.spec_content(), 0, T::is_text()) {
                Run::Stop(q) => if q == self.0.spec_content().len() {
                    r is Ok
                } else {
                    r == Err::<(), TokenError>(TokenError::UnknownToken)
                },
                Run::Fail(_, e) => r == Err::<(), TokenError>(e),
            },
    {
        let input = T::as_bytes(&self.0);
        match Escaped::<T>::scan::<char>(input) {
            RunEnd::Stop(q) => if q == input.len() {
                Ok(())
            } else {
                Err(TokenError::UnknownToken)
            },
            RunEnd::Fail(_, e) => Err(e),
        }
    }

    /// Wrap `s` without checking its escapes.
    pub fn new_unchecked(s: T) -> (r: Self)
        ensures
            r.inner() == s,
    {
        EscapedStr(s)
    }

    /// Extract the wrapped value.
    pub fn as_escaped(self) -> (r: T)
        ensures
            r == self.inner(),
    {
        self.0
    }
}

impl<T> core::ops::Deref for EscapedStr<T> {
    type Target = T;

    fn deref(&self) -> (r: &T)
        ensures
            *r == self.inner(),
    {
        &self.0
    }
}

} // verus!
