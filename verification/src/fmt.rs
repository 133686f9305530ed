//! Text helpers for messages: joining a list of words with a separator,
//! and writing numbers in decimal.

use vstd::prelude::*;
use vstd::string::StringExecFns;

verus! {

/// `parts` joined with `sep` between each two of them.
pub open spec fn joined(parts: Seq<Seq<char>>, sep: Seq<char>) -> Seq<char>
    decreases parts.len(),
{
    if parts.len() == 0 {
        seq![]
    } else if parts.len() == 1 {
        parts[0]
    } else {
        joined(parts.drop_last(), sep) + sep + parts.last()
    }
}

/// The decimal digit `d` as a character.
pub open spec fn digit_char(d: nat) -> char {
    if d == 0 {
        '0'
    } else if d == 1 {
        '1'
    } else if d == 2 {
        '2'
    } else if d == 3 {
        '3'
    } else if d == 4 {
        '4'
    } else if d == 5 {
        '5'
    } else if d == 6 {
        '6'
    } else if d == 7 {
        '7'
    } else if d == 8 {
        '8'
    } else {
        '9'
    }
}

/// `n` written in decimal, without leading zeros.
pub open spec fn decimal(n: nat) -> Seq<char>
    decreases n,
{
    if n < 10 {
        seq![digit_char(n)]
    } else {
        decimal(n / 10).push(digit_char(n % 10))
    }
}

/// `n` spaces.
pub open spec fn spaces(n: nat) -> Seq<char> {
    Seq::new(n, |i: int| ' ')
}

/// The decimal digit `d` as a string.
fn digit_str(d: usize) -> (r: &'static str)
    requires
        d < 10,
    ensures
        r@ == seq![digit_char(d as nat)],
{
    if d == 0 {
        proof {
            reveal_strlit("0");
        }
        "0"
    } else if d == 1 {
        proof {
            reveal_strlit("1");
        }
        "1"
    } else if d == 2 {
        proof {
            reveal_strlit("2");
        }
        "2"
    } else if d == 3 {
        proof {
            reveal_strlit("3");
        }
        "3"
    } else if d == 4 {
        proof {
            reveal_strlit("4");
        }
        "4"
    } else if d == 5 {
        proof {
            reveal_strlit("5");
        }
        "5"
    } else if d == 6 {
        proof {
            reveal_strlit("6");
        }
        "6"
    } else if d == 7 {
        proof {
            reveal_strlit("7");
        }
        "7"
    } else if d == 8 {
        proof {
            reveal_strlit("8");
        }
        "8"
    } else {
        proof {
            reveal_strlit("9");
        }
        "9"
    }
}

/// Append `n` in decimal to `s`.
pub fn push_decimal(s: &mut String, n: usize)
    ensures
        final(s)@ == old(s)@ + decimal(n as nat),
    decreases n,
{
    if n >= 10 {
        push_decimal(s, n / 10);
    }
    s.append(digit_str(n % 10));
    proof {
        assert(decimal(n as nat) == if n < 10 {
            seq![digit_char(n as nat)]
        } else {
            decimal((n / 10) as nat).push(digit_char((n % 10) as nat))
        });
        assert(old(s)@ + decimal(n as nat) =~= if n < 10 {
            old(s)@ + seq![digit_char(n as nat)]
        } else {
            old(s)@ + decimal((n / 10) as nat) + seq![digit_char((n % 10) as nat)]
        });
    }
}

/// Append `n` spaces to `s`.
pub fn push_spaces(s: &mut String, n: usize)
    ensures
        final(s)@ == old(s)@ + spaces(n as nat),
{
    let ghost start = s@;
    let mut i: usize = 0;
    while i < n
        invariant
            i <= n,
            s@ =~= start + spaces(i as nat),
        decreases n - i,
    {
        proof {
            reveal_strlit(" ");
        }
        s.append(" ");
        i = i + 1;
    }
}

/// A list of parts to be written out with a separator between each two
/// of them, such as the words of a message.
pub struct FormatIter<'a, I> {
    iter: I,
    sep: &'a str,
}

impl<'a, I> FormatIter<'a, I> {
    /// The parts this writes out.
    pub closed spec fn parts(self) -> I {
        self.iter
    }

    /// The separator this writes between parts.
    pub closed spec fn separator(self) -> &'a str {
        self.sep
    }

    /// Write out the parts of `iter`, with `sep` between each two.
    pub fn new(iter: I, sep: &'a str) -> (r: Self)
        ensures
            r.parts() == iter,
            r.separator() == sep,
    {
        FormatIter { iter, sep }
    }
}

impl<'a, 'b> FormatIter<'a, &'b [&'b str]> {
    /// The parts, each with the separator between: `"a, b, c"` for the
    /// parts `a`, `b`, `c` and the separator `", "`.
    pub fn join(self) -> (r: String)
        ensures
            r@ == joined(self.parts()@.map_values(|p: &str| p@), self.separator()@),
    {
        let ghost parts = self.iter@.map_values(|p: &str| p@);
        let mut s = String::new();
        let mut i: usize = 0;
        while i < self.iter.len()
            invariant
                i <= self.iter@.len(),
                parts == self.iter@.map_values(|p: &str| p@),
                s@ == joined(parts.take(i as int), self.sep@),
            decreases self.iter@.len() - i,
        {
            proof {
                assert(parts.take(i + 1).drop_last() =~= parts.take(i as int));
            }
            if i > 0 {
                s.append(self.sep);
            }
            s.append(self.iter[i]);
            i = i + 1;
        }
        proof {
            assert(parts.take(i as int) =~= parts);
        }
        s
    }
}

} // verus!
