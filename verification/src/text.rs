//! Byte-level text utilities: UTF-8 validation, byte search and comparison,
//! and conversion of verified byte sequences back into strings.

use vstd::prelude::*;
use vstd::utf8::{
    decode_first_codepoint, encode_scalar, encode_utf8, is_char_boundary,
    is_char_boundary_iff_not_is_continuation_byte, is_char_boundary_start_end_of_seq,
    is_continuation_byte, is_leading_byte_width_1, length_of_first_scalar,
    partial_valid_partial_invalid_utf8, partial_valid_utf8, partial_valid_utf8_extend,
    partial_valid_utf8_extend_ascii_block, pop_first_scalar, valid_first_scalar, valid_utf8,
    valid_utf8_split,
};

verus! {

/// The position of the first occurrence of `b` in `s` at or after `i`.
pub open spec fn find_byte_from(s: Seq<u8>, b: u8, i: int) -> Option<int>
    decreases s.len() - i,
{
    if i < 0 || i >= s.len() {
        None
    } else if s[i] == b {
        Some(i)
    } else {
        find_byte_from(s, b, i + 1)
    }
}

/// What `find_byte_from` returns: the first occurrence at or after `i`, or
/// `None` when there is none.
pub proof fn lemma_find_byte_from(s: Seq<u8>, b: u8, i: int)
    requires
        0 <= i <= s.len(),
    ensures
        match find_byte_from(s, b, i) {
            Some(j) => i <= j < s.len() && s[j] == b && (forall|k: int| i <= k < j ==> s[k] != b),
            None => forall|k: int| i <= k < s.len() ==> s[k] != b,
        },
    decreases s.len() - i,
{
    if i < s.len() && s[i] != b {
        lemma_find_byte_from(s, b, i + 1);
    }
}

/// Whether a byte has the form of a UTF-8 continuation byte.
fn is_cont(b: u8) -> (r: bool)
    ensures
        r == is_continuation_byte(b),
{
    0x80 <= b && b <= 0xbf
}

/// Decides whether a byte sequence is well-formed UTF-8.
pub fn validate_utf8(s: &[u8]) -> (r: bool)
    ensures
        r == valid_utf8(s@),
{
    let ghost n = s@.len() as int;
    let mut i: usize = 0;
    proof {
        assert(s@.subrange(0, 0) =~= Seq::<u8>::empty());
    }
    while i < s.len()
        invariant
            i <= s@.len(),
            n == s@.len(),
            partial_valid_utf8(s@, i as int),
        decreases s@.len() - i,
    {
        let ghost suffix = s@.subrange(i as int, n);
        let b1 = s[i];
        assert(suffix[0] == b1);
        let width: usize;
        if b1 < 0x80 {
            let cp: u32 = (b1 & 0x7f) as u32;
            assert(cp == decode_first_codepoint(suffix));
            if 0xd800 <= cp && cp <= 0xdfff {
                proof {
                    reject_scalar(s@, i as int);
                }
                return false;
            }
            assert(valid_first_scalar(suffix));
            assert(length_of_first_scalar(suffix) == 1);
            width = 1;
        } else if b1 < 0xc0 {
            // a continuation byte cannot lead a scalar
            proof {
                reject_scalar(s@, i as int);
            }
            return false;
        } else if b1 < 0xe0 {
            if !(s.len() - i > 1 && is_cont(s[i + 1])) {
                proof {
                    reject_scalar(s@, i as int);
                }
                return false;
            }
            let b2 = s[i + 1];
            assert(suffix[1] == b2);
            let cp: u32 = ((((b1 & 0x1f) as u32) << 6u32) | ((b2 & 0x3f) as u32));
            assert(cp == decode_first_codepoint(suffix));
            if !(0x80 <= cp && !(0xd800 <= cp && cp <= 0xdfff)) {
                proof {
                    reject_scalar(s@, i as int);
                }
                return false;
            }
            assert(valid_first_scalar(suffix));
            assert(length_of_first_scalar(suffix) == 2);
            width = 2;
        } else if b1 < 0xf0 {
            if !(s.len() - i > 2 && is_cont(s[i + 1]) && is_cont(s[i + 2])) {
                proof {
                    reject_scalar(s@, i as int);
                }
                return false;
            }
            let b2 = s[i + 1];
            let b3 = s[i + 2];
            assert(suffix[1] == b2 && suffix[2] == b3);
            let cp: u32 = ((((b1 & 0x0f) as u32) << 12u32) | (((b2 & 0x3f) as u32) << 6u32) | ((b3
                & 0x3f) as u32));
            assert(cp == decode_first_codepoint(suffix));
            if !(0x800 <= cp && !(0xd800 <= cp && cp <= 0xdfff)) {
                proof {
                    reject_scalar(s@, i as int);
                }
                return false;
            }
            assert(valid_first_scalar(suffix));
            assert(length_of_first_scalar(suffix) == 3);
            width = 3;
        } else if b1 < 0xf8 {
            if !(s.len() - i > 3 && is_cont(s[i + 1]) && is_cont(s[i + 2]) && is_cont(s[i + 3])) {
                proof {
                    reject_scalar(s@, i as int);
                }
                return false;
            }
            let b2 = s[i + 1];
            let b3 = s[i + 2];
            let b4 = s[i + 3];
            assert(suffix[1] == b2 && suffix[2] == b3 && suffix[3] == b4);
            let cp: u32 = ((((b1 & 0x07) as u32) << 18u32) | (((b2 & 0x3f) as u32) << 12u32) | (((b3
                & 0x3f) as u32) << 6u32) | ((b4 & 0x3f) as u32));
            assert(cp == decode_first_codepoint(suffix));
            if !(0x10000 <= cp && cp <= 0x10ffff && !(0xd800 <= cp && cp <= 0xdfff)) {
                proof {
                    reject_scalar(s@, i as int);
                }
                return false;
            }
            assert(valid_first_scalar(suffix));
            assert(length_of_first_scalar(suffix) == 4);
            width = 4;
        } else {
            proof {
                reject_scalar(s@, i as int);
            }
            return false;
        }
        proof {
            partial_valid_utf8_extend(s@, i as int);
        }
        i += width;
    }
    proof {
        assert(s@.subrange(0, n) =~= s@);
    }
    true
}

/// A suffix that does not begin with a well-formed scalar makes the whole
/// sequence invalid.
proof fn reject_scalar(s: Seq<u8>, i: int)
    requires
        0 <= i < s.len(),
        partial_valid_utf8(s, i),
        !valid_first_scalar(s.subrange(i, s.len() as int)),
    ensures
        !valid_utf8(s),
{
    let suffix = s.subrange(i, s.len() as int);
    assert(suffix.len() != 0);
    assert(!valid_utf8(suffix));
    partial_valid_partial_invalid_utf8(s, i);
}

/// All-ASCII byte sequences are well-formed UTF-8.
pub proof fn lemma_ascii_valid_utf8(s: Seq<u8>)
    requires
        forall|i: int| 0 <= i < s.len() ==> s[i] < 0x80,
    ensures
        valid_utf8(s),
{
    assert(s.subrange(0, 0) =~= Seq::<u8>::empty());
    assert(partial_valid_utf8(s, 0));
    assert(forall|i: int| 0 <= i < s.len() ==> #[trigger] is_leading_byte_width_1(s[i]));
    partial_valid_utf8_extend_ascii_block(s, 0, s.len() as int);
    assert(s.subrange(0, s.len() as int) =~= s);
}

/// In well-formed UTF-8, the position right after an ASCII byte is a
/// character boundary.
pub proof fn lemma_boundary_after_ascii(bytes: Seq<u8>, p: int)
    requires
        valid_utf8(bytes),
        0 < p <= bytes.len(),
        bytes[p - 1] < 0x80,
    ensures
        is_char_boundary(bytes, p),
{
    if p == bytes.len() {
        is_char_boundary_start_end_of_seq(bytes);
    } else {
        is_char_boundary_iff_not_is_continuation_byte(bytes, p - 1);
        assert(is_char_boundary(bytes, p - 1));
        valid_utf8_split(bytes, p - 1);
        let suf = bytes.subrange(p - 1, bytes.len() as int);
        assert(valid_utf8(suf));
        assert(suf[0] == bytes[p - 1]);
        assert(valid_first_scalar(suf));
        assert(length_of_first_scalar(suf) == 1);
        let suf2 = pop_first_scalar(suf);
        assert(valid_utf8(suf2));
        assert(suf2 =~= bytes.subrange(p, bytes.len() as int));
        assert(valid_first_scalar(suf2));
        assert(!is_continuation_byte(bytes[p]));
        is_char_boundary_iff_not_is_continuation_byte(bytes, p);
    }
}

/// UTF-8 encoding distributes over concatenation of character sequences.
pub proof fn lemma_encode_utf8_app(a: Seq<char>, b: Seq<char>)
    ensures
        encode_utf8(a + b) == encode_utf8(a) + encode_utf8(b),
    decreases a.len(),
{
    if a.len() == 0 {
        assert(a + b =~= b);
        assert(encode_utf8(a) =~= Seq::<u8>::empty());
        assert(encode_utf8(a + b) =~= encode_utf8(a) + encode_utf8(b));
    } else {
        lemma_encode_utf8_app(a.drop_first(), b);
        assert((a + b).drop_first() =~= a.drop_first() + b);
        assert((a + b)[0] == a[0]);
        assert(encode_utf8(a + b) == encode_scalar(a[0] as u32) + (encode_utf8(a.drop_first())
            + encode_utf8(b)));
        assert(encode_utf8(a + b) =~= encode_utf8(a) + encode_utf8(b));
    }
}

/// Byte-for-byte equality of two slices.
pub fn bytes_equal(a: &[u8], b: &[u8]) -> (r: bool)
    ensures
        r == (a@ == b@),
{
    if a.len() != b.len() {
        return false;
    }
    let mut i: usize = 0;
    while i < a.len()
        invariant
            a@.len() == b@.len(),
            i <= a@.len(),
            forall|j: int| 0 <= j < i ==> a@[j] == b@[j],
        decreases a@.len() - i,
    {
        if a[i] != b[i] {
            return false;
        }
        i += 1;
    }
    proof {
        assert(a@ =~= b@);
    }
    true
}

/// Relies on `String::from_utf8`: given well-formed UTF-8 input it returns
/// the string made of exactly those bytes.
#[verifier::external_body]
pub fn bytes_to_string(v: &[u8]) -> (r: String)
    requires
        valid_utf8(v@),
    ensures
        encode_utf8(r@) == v@,
{
    String::from_utf8(v.to_vec()).unwrap()
}

} // verus!
