//! The canonical percent-encoding rule and its inverse.
//!
//! The encoding keeps ASCII letters, ASCII digits and `- _ . ! ~ * ' ( ) /`
//! literal and writes every other byte as `%` followed by two uppercase hex
//! digits. Decoding accepts hex digits of either case and fails on a `%` that
//! is not followed by two hex digits.

use vstd::prelude::*;

verus! {

/// Bytes that the canonical encoding keeps literal: ASCII letters, ASCII
/// digits, and `- _ . ! ~ * ' ( ) /`.
pub open spec fn is_allowed_byte(b: u8) -> bool {
    ||| 0x41 <= b <= 0x5a  // 'A' to 'Z'
    ||| 0x61 <= b <= 0x7a  // 'a' to 'z'
    ||| 0x30 <= b <= 0x39  // '0' to '9'
    ||| b == 0x2d  // '-'
    ||| b == 0x5f  // '_'
    ||| b == 0x2e  // '.'
    ||| b == 0x21  // '!'
    ||| b == 0x7e  // '~'
    ||| b == 0x2a  // '*'
    ||| b == 0x27  // '\''
    ||| b == 0x28  // '('
    ||| b == 0x29  // ')'
    ||| b == 0x2f  // '/'
}

/// ASCII hex digits, either case.
pub open spec fn is_hex_digit(b: u8) -> bool {
    ||| 0x30 <= b <= 0x39  // '0' to '9'
    ||| 0x41 <= b <= 0x46  // 'A' to 'F'
    ||| 0x61 <= b <= 0x66  // 'a' to 'f'
}

/// Numeric value of a hex digit.
pub open spec fn hex_digit_value(b: u8) -> u8
    recommends
        is_hex_digit(b),
{
    if 0x30 <= b <= 0x39 {
        (b - 0x30) as u8
    } else if 0x41 <= b <= 0x46 {
        (b - 0x37) as u8
    } else {
        (b - 0x57) as u8
    }
}

/// The uppercase hex digit for a value below sixteen.
pub open spec fn upper_hex_digit(v: u8) -> u8
    recommends
        v < 16,
{
    if v < 10 {
        (0x30 + v) as u8
    } else {
        (0x37 + v) as u8
    }
}

/// Canonical encoding of one byte: itself when allowed, `%XX` otherwise.
pub open spec fn encode_byte(b: u8) -> Seq<u8> {
    if is_allowed_byte(b) {
        seq![b]
    } else {
        seq![0x25u8, upper_hex_digit(b / 16), upper_hex_digit(b % 16)]
    }
}

/// Canonical encoding of a byte sequence.
pub open spec fn encode(s: Seq<u8>) -> Seq<u8>
    decreases s.len(),
{
    if s.len() == 0 {
        Seq::empty()
    } else {
        encode_byte(s[0]) + encode(s.drop_first())
    }
}

/// Percent-decoding of a byte sequence. `None` when some `%` is not followed
/// by two hex digits.
pub open spec fn decode(s: Seq<u8>) -> Option<Seq<u8>>
    decreases s.len(),
{
    if s.len() == 0 {
        Some(Seq::empty())
    } else if s[0] == 0x25 {
        if s.len() >= 3 && is_hex_digit(s[1]) && is_hex_digit(s[2]) {
            match decode(s.skip(3)) {
                Some(rest) => Some(
                    seq![(hex_digit_value(s[1]) * 16 + hex_digit_value(s[2])) as u8] + rest,
                ),
                None => None,
            }
        } else {
            None
        }
    } else {
        match decode(s.drop_first()) {
            Some(rest) => Some(seq![s[0]] + rest),
            None => None,
        }
    }
}

/// Encoding a sequence extended by one byte appends that byte's encoding.
pub proof fn lemma_encode_snoc(t: Seq<u8>, b: u8)
    ensures
        encode(t.push(b)) == encode(t) + encode_byte(b),
    decreases t.len(),
{
    if t.len() == 0 {
        assert(t.push(b).drop_first() =~= Seq::<u8>::empty());
        assert(t.push(b)[0] == b);
        assert(encode(t.push(b)) == encode_byte(b) + encode(Seq::<u8>::empty()));
        assert(encode(t.push(b)) =~= encode(t) + encode_byte(b));
    } else {
        lemma_encode_snoc(t.drop_first(), b);
        assert(t.push(b).drop_first() =~= t.drop_first().push(b));
        assert(t.push(b)[0] == t[0]);
        assert(encode(t.push(b)) == encode_byte(t[0]) + (encode(t.drop_first()) + encode_byte(b)));
        assert(encode(t.push(b)) =~= encode(t) + encode_byte(b));
    }
}

/// Every byte of an encoded sequence is ASCII.
pub proof fn lemma_encode_ascii(s: Seq<u8>)
    ensures
        forall|i: int| 0 <= i < encode(s).len() ==> encode(s)[i] < 0x80,
    decreases s.len(),
{
    if s.len() != 0 {
        lemma_encode_ascii(s.drop_first());
        let h = encode_byte(s[0]);
        assert forall|i: int| 0 <= i < encode(s).len() implies encode(s)[i] < 0x80 by {
            assert(encode(s) == h + encode(s.drop_first()));
            if i >= h.len() {
                assert(encode(s)[i] == encode(s.drop_first())[i - h.len()]);
            }
        }
    }
}

/// Decoding inverts encoding: the canonical encoding of any byte sequence
/// decodes back to that sequence.
pub proof fn lemma_decode_encode(s: Seq<u8>)
    ensures
        decode(encode(s)) == Some(s),
    decreases s.len(),
{
    if s.len() == 0 {
        assert(decode(encode(s)) =~= Some(s));
    } else {
        let b = s[0];
        let rest = s.drop_first();
        lemma_decode_encode(rest);
        if is_allowed_byte(b) {
            assert(encode(s).drop_first() =~= encode(rest));
            assert(seq![b] + rest =~= s);
        } else {
            assert(encode(s).skip(3) =~= encode(rest));
            assert(hex_digit_value(upper_hex_digit(b / 16)) == b / 16);
            assert(hex_digit_value(upper_hex_digit(b % 16)) == b % 16);
            assert((b / 16) * 16 + b % 16 == b) by {
                vstd::arithmetic::div_mod::lemma_fundamental_div_mod(b as int, 16);
            }
            assert(seq![b] + rest =~= s);
        }
        assert(decode(encode(s)) == Some(s));
    }
}

/// How many times a byte occurs in a sequence.
pub open spec fn count_byte(s: Seq<u8>, b: u8) -> nat
    decreases s.len(),
{
    if s.len() == 0 {
        0
    } else {
        (if s[0] == b {
            1nat
        } else {
            0nat
        }) + count_byte(s.drop_first(), b)
    }
}

/// Occurrence counts add up over concatenation.
pub proof fn lemma_count_byte_concat(s: Seq<u8>, t: Seq<u8>, b: u8)
    ensures
        count_byte(s + t, b) == count_byte(s, b) + count_byte(t, b),
    decreases s.len(),
{
    if s.len() == 0 {
        assert(s + t =~= t);
    } else {
        lemma_count_byte_concat(s.drop_first(), t, b);
        assert((s + t).drop_first() =~= s.drop_first() + t);
    }
}

/// Encoding neither removes nor introduces slashes: a literal `/` is kept
/// literal, and no escape triple contains one.
pub proof fn lemma_encode_preserves_slashes(s: Seq<u8>)
    ensures
        count_byte(encode(s), 0x2f) == count_byte(s, 0x2f),
    decreases s.len(),
{
    if s.len() != 0 {
        lemma_encode_preserves_slashes(s.drop_first());
        lemma_count_byte_concat(encode_byte(s[0]), encode(s.drop_first()), 0x2f);
        let h = encode_byte(s[0]);
        assert(count_byte(Seq::<u8>::empty(), 0x2f) == 0);
        if is_allowed_byte(s[0]) {
            assert(h.drop_first() =~= Seq::<u8>::empty());
        } else {
            let d1 = h.drop_first();
            let d2 = d1.drop_first();
            assert(d1 =~= seq![upper_hex_digit(s[0] / 16), upper_hex_digit(s[0] % 16)]);
            assert(d2 =~= seq![upper_hex_digit(s[0] % 16)]);
            assert(d2.drop_first() =~= Seq::<u8>::empty());
            assert(count_byte(d2, 0x2f) == 0);
            assert(count_byte(d1, 0x2f) == 0);
        }
        assert(count_byte(h, 0x2f) == (if s[0] == 0x2f {
            1nat
        } else {
            0nat
        }));
    }
}

/// Whether a byte may stay literal under the canonical encoding.
fn allowed(b: u8) -> (r: bool)
    ensures
        r == is_allowed_byte(b),
{
    (0x41 <= b && b <= 0x5a) || (0x61 <= b && b <= 0x7a) || (0x30 <= b && b <= 0x39) || b == 0x2d
        || b == 0x5f || b == 0x2e || b == 0x21 || b == 0x7e || b == 0x2a || b == 0x27 || b == 0x28
        || b == 0x29 || b == 0x2f
}

/// The numeric value of a hex digit, or `None` for any other byte.
fn hex_value(b: u8) -> (r: Option<u8>)
    ensures
        match r {
            Some(v) => is_hex_digit(b) && v == hex_digit_value(b) && v < 16,
            None => !is_hex_digit(b),
        },
{
    if 0x30 <= b && b <= 0x39 {
        Some(b - 0x30)
    } else if 0x41 <= b && b <= 0x46 {
        Some(b - 0x37)
    } else if 0x61 <= b && b <= 0x66 {
        Some(b - 0x57)
    } else {
        None
    }
}

/// The uppercase hex digit of a value below sixteen.
fn hex_upper(v: u8) -> (r: u8)
    requires
        v < 16,
    ensures
        r == upper_hex_digit(v),
{
    if v < 10 {
        0x30 + v
    } else {
        0x37 + v
    }
}

/// Re-encodes a byte sequence into its canonical percent-encoded form.
pub fn percent_encode(s: &[u8]) -> (r: Vec<u8>)
    ensures
        r@ == encode(s@),
{
    let mut out: Vec<u8> = Vec::new();
    let mut i: usize = 0;
    while i < s.len()
        invariant
            i <= s@.len(),
            out@ == encode(s@.subrange(0, i as int)),
        decreases s@.len() - i,
    {
        let b = s[i];
        proof {
            lemma_encode_snoc(s@.subrange(0, i as int), b);
            assert(s@.subrange(0, i as int + 1) =~= s@.subrange(0, i as int).push(b));
        }
        if allowed(b) {
            out.push(b);
        } else {
            out.push(0x25);
            out.push(hex_upper(b / 16));
            out.push(hex_upper(b % 16));
        }
        i += 1;
    }
    proof {
        assert(s@.subrange(0, s@.len() as int) =~= s@);
    }
    out
}

/// Percent-decodes a byte sequence; `None` when some `%` is not followed by
/// two hex digits.
pub fn percent_decode(s: &[u8]) -> (r: Option<Vec<u8>>)
    ensures
        match r {
            Some(v) => decode(s@) == Some(v@),
            None => decode(s@) is None,
        },
{
    let ghost n = s@.len() as int;
    let mut out: Vec<u8> = Vec::new();
    let mut i: usize = 0;
    proof {
        assert(s@.subrange(0, n) =~= s@);
        match decode(s@) {
            Some(r) => {
                assert(Seq::<u8>::empty() + r =~= r);
            },
            None => {},
        }
    }
    while i < s.len()
        invariant
            i <= s@.len(),
            n == s@.len(),
            decode(s@) == match decode(s@.subrange(i as int, n)) {
                Some(rest) => Some(out@ + rest),
                None => None::<Seq<u8>>,
            },
        decreases s@.len() - i,
    {
        let ghost suffix = s@.subrange(i as int, n);
        let b = s[i];
        assert(suffix[0] == b);
        if b == 0x25 {
            if s.len() - i > 2 {
                let h1 = hex_value(s[i + 1]);
                let h2 = hex_value(s[i + 2]);
                assert(suffix[1] == s@[i as int + 1] && suffix[2] == s@[i as int + 2]);
                match (h1, h2) {
                    (Some(v1), Some(v2)) => {
                        proof {
                            assert(suffix.skip(3) =~= s@.subrange(i as int + 3, n));
                        }
                        out.push(v1 * 16 + v2);
                        i += 3;
                    },
                    _ => {
                        assert(decode(suffix) is None);
                        return None;
                    },
                }
            } else {
                assert(suffix.len() < 3);
                assert(decode(suffix) is None);
                return None;
            }
        } else {
            proof {
                assert(suffix.drop_first() =~= s@.subrange(i as int + 1, n));
            }
            out.push(b);
            i += 1;
        }
    }
    proof {
        assert(s@.subrange(i as int, n) =~= Seq::<u8>::empty());
    }
    Some(out)
}

} // verus!
