//! UTF-8 validation and encoding on byte slices, against vstd's
//! UTF-8 specification, plus the two std conversions the library needs.

use vstd::prelude::*;
use vstd::string::StringSliceAdditionalSpecFns;
use vstd::utf8::*;

verus! {

broadcast use vstd::seq_lib::group_seq_properties;

#[verifier::external_type_specification]
#[verifier::external_body]
pub struct ExUtf8Error(core::str::Utf8Error);

/// `core::str::from_utf8`: succeeds exactly on valid UTF-8, and the
/// resulting `&str` holds the same bytes.
#[verifier::external_body]
pub(crate) fn str_from_utf8(v: &[u8]) -> (r: Result<&str, core::str::Utf8Error>)
    ensures
        r is Ok <==> valid_utf8(v@),
        r matches Ok(s) ==> s.spec_bytes() == v@,
{
    core::str::from_utf8(v)
}

/// `char::from_u32`: `Some` exactly for Unicode scalar values, holding
/// the character with that code point.
#[verifier::external_body]
pub(crate) fn char_from_u32(v: u32) -> (r: Option<char>)
    ensures
        r is Some <==> is_scalar(v),
        r matches Some(c) ==> c as u32 == v,
{
    char::from_u32(v)
}

/// Length of the encoding of the first scalar of `s[start..end]`, or 0
/// when that range does not begin with a well-formed scalar encoding.
pub fn first_scalar_len(s: &[u8], start: usize, end: usize) -> (r: usize)
    requires
        start <= end <= s@.len(),
    ensures
        r > 0 <==> valid_first_scalar(s@.subrange(start as int, end as int)),
        r > 0 ==> r == length_of_first_scalar(s@.subrange(start as int, end as int)),
        r <= 4,
{
    let ghost b = s@.subrange(start as int, end as int);
    if start >= end {
        return 0;
    }
    let b0 = s[start];
    if b0 <= 0x7f {
        return 1;
    }
    if 0xc0 <= b0 && b0 <= 0xdf {
        if end - start < 2 {
            return 0;
        }
        let b1 = s[start + 1];
        if !(0x80 <= b1 && b1 <= 0xbf) {
            return 0;
        }
        let cp: u32 = (((b0 & 0x1F) as u32) << 6) | ((b1 & 0x3f) as u32);
        assert(cp == decode_first_codepoint(b));
        if 0x80 <= cp && !(0xD800 <= cp && cp <= 0xDFFF) {
            return 2;
        }
        return 0;
    }
    if 0xe0 <= b0 && b0 <= 0xef {
        if end - start < 3 {
            return 0;
        }
        let b1 = s[start + 1];
        let b2 = s[start + 2];
        if !(0x80 <= b1 && b1 <= 0xbf && 0x80 <= b2 && b2 <= 0xbf) {
            return 0;
        }
        let cp: u32 = (((b0 & 0x0F) as u32) << 12) | (((b1 & 0x3f) as u32) << 6) | ((b2
            & 0x3f) as u32);
        assert(cp == decode_first_codepoint(b));
        if 0x800 <= cp && !(0xD800 <= cp && cp <= 0xDFFF) {
            return 3;
        }
        return 0;
    }
    if 0xf0 <= b0 && b0 <= 0xf7 {
        if end - start < 4 {
            return 0;
        }
        let b1 = s[start + 1];
        let b2 = s[start + 2];
        let b3 = s[start + 3];
        if !(0x80 <= b1 && b1 <= 0xbf && 0x80 <= b2 && b2 <= 0xbf && 0x80 <= b3 && b3 <= 0xbf) {
            return 0;
        }
        let cp: u32 = (((b0 & 0x07) as u32) << 18) | (((b1 & 0x3f) as u32) << 12) | (((b2
            & 0x3f) as u32) << 6) | ((b3 & 0x3f) as u32);
        assert(cp == decode_first_codepoint(b));
        if 0x10000 <= cp && cp <= 0x10ffff && !(0xD800 <= cp && cp <= 0xDFFF) {
            return 4;
        }
        return 0;
    }
    0
}

/// A well-formed first scalar stays well-formed, with the same length,
/// when more bytes follow it.
pub proof fn lemma_first_scalar_extend(x: Seq<u8>, y: Seq<u8>)
    requires
        valid_first_scalar(x),
        x.len() <= y.len(),
        x == y.subrange(0, x.len() as int),
    ensures
        valid_first_scalar(y),
        length_of_first_scalar(y) == length_of_first_scalar(x),
        decode_first_scalar(y) == decode_first_scalar(x),
{
    assert(x[0] == y[0]);
    if x.len() >= 2 {
        assert(x[1] == y[1]);
    }
    if x.len() >= 3 {
        assert(x[2] == y[2]);
    }
    if x.len() >= 4 {
        assert(x[3] == y[3]);
    }
}

/// Length of the longest prefix of `s[start..end]` that is valid UTF-8.
pub fn valid_prefix_len(s: &[u8], start: usize, end: usize) -> (r: usize)
    requires
        start <= end <= s@.len(),
    ensures
        start + r <= end,
        valid_utf8(s@.subrange(start as int, start + r)),
        forall|j: int|
            start + r < j <= end ==> !valid_utf8(#[trigger] s@.subrange(start as int, j)),
{
    let mut p = start;
    proof {
        assert(s@.subrange(start as int, start as int) =~= Seq::<u8>::empty());
    }
    while p < end
        invariant
            start <= p <= end <= s@.len(),
            valid_utf8(s@.subrange(start as int, p as int)),
        ensures
            start <= p <= end <= s@.len(),
            valid_utf8(s@.subrange(start as int, p as int)),
            p < end ==> !valid_first_scalar(s@.subrange(p as int, end as int)),
        decreases end - p,
    {
        let n = first_scalar_len(s, p, end);
        if n == 0 {
            break ;
        }
        proof {
            let whole = s@.subrange(start as int, end as int);
            assert(whole.subrange(p - start, whole.len() as int) =~= s@.subrange(
                p as int,
                end as int,
            ));
            assert(partial_valid_utf8(whole, p - start)) by {
                assert(whole.subrange(0, p - start) =~= s@.subrange(start as int, p as int));
            }
            partial_valid_utf8_extend(whole, p - start);
            assert(whole.subrange(0, p - start + n) =~= s@.subrange(
                start as int,
                p + n as int,
            ));
        }
        p = p + n;
    }
    proof {
        assert forall|j: int| p < j <= end implies !valid_utf8(
            #[trigger] s@.subrange(start as int, j),
        ) by {
            let bytes = s@.subrange(start as int, j);
            let tail = s@.subrange(p as int, j);
            assert(bytes.subrange(0, p - start) =~= s@.subrange(start as int, p as int));
            assert(bytes.subrange(p - start, bytes.len() as int) =~= tail);
            if valid_utf8(tail) {
                assert(valid_first_scalar(tail));
                assert(tail =~= s@.subrange(p as int, end as int).subrange(0, tail.len() as int));
                lemma_first_scalar_extend(tail, s@.subrange(p as int, end as int));
                assert(false);
            }
            partial_valid_partial_invalid_utf8(bytes, p - start);
        }
    }
    p - start
}

/// ASCII bytes form valid UTF-8.
pub proof fn lemma_ascii_valid_utf8(b: Seq<u8>)
    requires
        forall|i: int| 0 <= i < b.len() ==> #[trigger] b[i] <= 0x7f,
    ensures
        valid_utf8(b),
    decreases b.len(),
{
    if b.len() > 0 {
        assert(valid_first_scalar(b));
        lemma_ascii_valid_utf8(pop_first_scalar(b));
    }
}

/// An ASCII `&str` decodes byte for byte.
pub proof fn lemma_ascii_decode(b: Seq<u8>)
    requires
        forall|i: int| 0 <= i < b.len() ==> #[trigger] b[i] <= 0x7f,
    ensures
        valid_utf8(b),
        decode_utf8(b).len() == b.len(),
        forall|i: int| 0 <= i < b.len() ==> #[trigger] decode_utf8(b)[i] == b[i] as char,
    decreases b.len(),
{
    lemma_ascii_valid_utf8(b);
    if b.len() > 0 {
        assert(valid_first_scalar(b));
        let rest = pop_first_scalar(b);
        lemma_ascii_decode(rest);
        assert(decode_first_scalar(b) == b[0] as u32) by {
            let x = b[0];
            assert((x & 0x7F) as u32 == x as u32) by (bit_vector)
                requires
                    x <= 0x7f,
            ;
        }
        assert forall|i: int| 0 <= i < b.len() implies #[trigger] decode_utf8(b)[i]
            == b[i] as char by {
            if i > 0 {
                assert(decode_utf8(b)[i] == decode_utf8(rest)[i - 1]);
                assert(rest[i - 1] == b[i]);
            }
        }
    }
}

/// In valid UTF-8, the position right after an ASCII byte starts a
/// character.
pub proof fn lemma_boundary_after_ascii(b: Seq<u8>, i: int)
    requires
        valid_utf8(b),
        0 < i <= b.len(),
        b[i - 1] <= 0x7f,
    ensures
        is_char_boundary(b, i),
    decreases b.len(),
{
    let l = length_of_first_scalar(b);
    let tail = pop_first_scalar(b);
    assert(valid_first_scalar(b) && valid_utf8(tail));
    if i < l {
        assert(b[i - 1] >= 0x80);
    } else if i > l {
        lemma_boundary_after_ascii(tail, i - l);
        assert(tail[i - l - 1] == b[i - 1]);
    }
    assert(is_char_boundary(b, i) == is_char_boundary(tail, i - l));
}

/// Valid UTF-8 stays valid when followed by more valid UTF-8.
pub proof fn lemma_concat_valid(a: Seq<u8>, b: Seq<u8>)
    requires
        valid_utf8(a),
        valid_utf8(b),
    ensures
        valid_utf8(a + b),
{
    valid_utf8_concat(a, b);
}

} // verus!
