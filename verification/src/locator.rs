//! The locator canonicalizer: decode a percent-encoded request path,
//! re-encode it into the one canonical form, compare against the original to
//! decide whether a redirect is required, and split the canonical path into
//! an owner identifier and a resource path.

use crate::percent::{decode, encode, lemma_encode_ascii, percent_decode, percent_encode};
use crate::text::{
    bytes_equal, bytes_to_string, find_byte_from, lemma_ascii_valid_utf8,
    lemma_boundary_after_ascii, lemma_encode_utf8_app, lemma_find_byte_from, validate_utf8,
};
use vstd::prelude::*;
use vstd::string::{StringExecFns, StringSliceAdditionalSpecFns};
use vstd::utf8::{
    encode_utf8, encode_utf8_valid_utf8, is_ascii_chars_encode_utf8,
    is_char_boundary_iff_not_is_continuation_byte, is_char_boundary_start_end_of_seq,
};

verus! {

/// The single failure of canonicalization: the request path's
/// percent-encoding has an invalid escape sequence or does not decode to
/// valid UTF-8.
#[derive(Debug, PartialEq, Eq)]
pub struct MalformedEncoding;

/// Outcome of canonicalization: either the client must be redirected to the
/// canonical target, or the request resolves to an owner identifier, a
/// resource path, and an optional file ID override from the query string.
#[derive(Debug, PartialEq, Eq)]
pub enum Resolution {
    Redirect(String),
    Resolved { owner: String, resource_path: String, override_id: Option<String> },
}

/// Mathematical counterpart of [`Resolution`], over byte sequences.
pub enum SpecResolution {
    Malformed,
    Redirect(Seq<u8>),
    Resolved { owner: Seq<u8>, resource_path: Seq<u8>, override_id: Option<Seq<u8>> },
}

/// A raw path is well formed when its percent-encoding decodes and the
/// decoded bytes are valid UTF-8.
pub open spec fn well_formed_path(p: Seq<u8>) -> bool {
    match decode(p) {
        Some(d) => vstd::utf8::valid_utf8(d),
        None => false,
    }
}

/// The percent-decoded bytes of a raw path.
pub open spec fn decoded_path(p: Seq<u8>) -> Seq<u8>
    recommends
        decode(p) is Some,
{
    match decode(p) {
        Some(d) => d,
        None => Seq::empty(),
    }
}

/// The Canonical Encoded Path of a raw path: its decoding, re-encoded under
/// the one fixed rule.
pub open spec fn canonical_of(p: Seq<u8>) -> Seq<u8>
    recommends
        well_formed_path(p),
{
    encode(decoded_path(p))
}

/// A raw path already in canonical form.
pub open spec fn is_canonical(p: Seq<u8>) -> bool {
    well_formed_path(p) && canonical_of(p) == p
}

/// Decomposition of a canonical path into owner identifier and resource
/// path: the owner is the segment between the leading slash and the next
/// one; the resource path runs from that slash on, or is the root marker `/`
/// when there is no further slash.
pub open spec fn split_locator(p: Seq<u8>) -> (Seq<u8>, Seq<u8>)
    recommends
        p.len() > 0 && p[0] == 0x2f,
{
    match find_byte_from(p, 0x2f, 1) {
        Some(j) => (p.subrange(1, j), p.subrange(j, p.len() as int)),
        None => (p.subrange(1, p.len() as int), seq![0x2fu8]),
    }
}

/// The bytes of the file ID query key, `_id=`.
pub open spec fn file_id_key_prefix() -> Seq<u8> {
    seq![0x5fu8, 0x69u8, 0x64u8, 0x3du8]
}

/// The value of the first `&`-delimited query segment whose key is the file
/// ID key, if any.
pub open spec fn file_id_in(q: Seq<u8>) -> Option<Seq<u8>>
    decreases q.len(),
    via file_id_in_decreases
{
    let seg_end = match find_byte_from(q, 0x26, 0) {
        Some(j) => j,
        None => q.len() as int,
    };
    if seg_end >= 4 && q.subrange(0, 4) == file_id_key_prefix() {
        Some(q.subrange(4, seg_end))
    } else if seg_end < q.len() {
        file_id_in(q.subrange(seg_end + 1, q.len() as int))
    } else {
        None
    }
}

#[via_fn]
proof fn file_id_in_decreases(q: Seq<u8>) {
    lemma_find_byte_from(q, 0x26, 0);
}

/// What a query appends to a redirect target: `?` and the query, or nothing.
pub open spec fn query_suffix(q: Option<Seq<u8>>) -> Seq<u8> {
    match q {
        Some(qb) => seq![0x3fu8] + qb,
        None => Seq::empty(),
    }
}

/// The UTF-8 bytes of an optional string slice.
pub open spec fn opt_str_bytes(q: Option<&str>) -> Option<Seq<u8>> {
    match q {
        Some(s) => Some(s.spec_bytes()),
        None => None,
    }
}

/// The UTF-8 bytes of a string.
pub open spec fn string_bytes(s: &String) -> Seq<u8> {
    encode_utf8(s@)
}

/// The UTF-8 bytes of an optional string.
pub open spec fn opt_string_bytes(q: &Option<String>) -> Option<Seq<u8>> {
    match q {
        Some(s) => Some(string_bytes(s)),
        None => None,
    }
}

/// The outcome canonicalization owes for a raw path and raw query: a
/// malformed-encoding failure, a redirect to the canonical target, or the
/// decomposed resolution.
pub open spec fn spec_canonicalize(p: Seq<u8>, q: Option<Seq<u8>>) -> SpecResolution {
    if !well_formed_path(p) {
        SpecResolution::Malformed
    } else if canonical_of(p) != p {
        SpecResolution::Redirect(canonical_of(p) + query_suffix(q))
    } else {
        SpecResolution::Resolved {
            owner: split_locator(p).0,
            resource_path: split_locator(p).1,
            override_id: match q {
                Some(qb) => file_id_in(qb),
                None => None,
            },
        }
    }
}

/// Whether an executable outcome agrees, byte for byte, with the
/// mathematical one.
pub open spec fn outcome_matches(r: &Result<Resolution, MalformedEncoding>, s: SpecResolution) -> bool {
    match (r, s) {
        (Err(_), SpecResolution::Malformed) => true,
        (Ok(Resolution::Redirect(t)), SpecResolution::Redirect(tb)) => string_bytes(t) == tb,
        (
            Ok(Resolution::Resolved { owner, resource_path, override_id }),
            SpecResolution::Resolved { owner: ob, resource_path: rb, override_id: ib },
        ) => string_bytes(owner) == ob && string_bytes(resource_path) == rb && opt_string_bytes(
            override_id,
        ) == ib,
        _ => false,
    }
}

/// Joins a path and a query into one string, separated by a `?` if there
/// exists a query.
pub fn concat_path_and_query(path: &str, query: Option<&str>) -> (r: String)
    ensures
        r@ == path@ + (match query {
            Some(q) => seq!['?'] + q@,
            None => Seq::<char>::empty(),
        }),
        string_bytes(&r) == path.spec_bytes() + query_suffix(opt_str_bytes(query)),
{
    let mut r: String = path.to_owned();
    match query {
        Some(q) => {
            r.append("?");
            r.append(q);
            proof {
                reveal_strlit("?");
                assert("?"@ =~= seq!['?']);
                assert(r@ =~= path@ + (seq!['?'] + q@));
                lemma_encode_utf8_app(path@ + seq!['?'], q@);
                lemma_encode_utf8_app(path@, seq!['?']);
                assert((path@ + seq!['?']) + q@ =~= path@ + (seq!['?'] + q@));
                assert(vstd::utf8::is_ascii_chars(seq!['?']));
                is_ascii_chars_encode_utf8(seq!['?']);
                assert(encode_utf8(seq!['?']) =~= seq![0x3fu8]);
                assert(string_bytes(&r) =~= path.spec_bytes() + (seq![0x3fu8] + q.spec_bytes()));
            }
            r
        },
        None => {
            proof {
                assert(r@ =~= path@ + Seq::<char>::empty());
                assert(string_bytes(&r) =~= path.spec_bytes() + query_suffix(
                    opt_str_bytes(query),
                ));
            }
            r
        },
    }
}

/// Extracts a tuple of the owner identifier and resource path from the path
/// of a file route URI. The path must begin with `/`.
pub fn parse_file_route_path<'a>(path: &'a str) -> (r: (&'a str, &'a str))
    requires
        path.spec_bytes().len() > 0,
        path.spec_bytes()[0] == 0x2f,
    ensures
        r.0.spec_bytes() == split_locator(path.spec_bytes()).0,
        r.1.spec_bytes() == split_locator(path.spec_bytes()).1,
{
    let ghost pb = path.spec_bytes();
    let bytes: &[u8] = path.as_bytes();
    let n = bytes.len();
    let mut i: usize = 1;
    while i < n && bytes[i] != 0x2f
        invariant
            1 <= i <= pb.len(),
            n == pb.len(),
            bytes@ == pb,
            forall|k: int| 1 <= k < i ==> pb[k] != 0x2f,
        decreases pb.len() - i,
    {
        i += 1;
    }
    proof {
        lemma_find_byte_from(pb, 0x2f, 1);
        encode_utf8_valid_utf8(path@);
        lemma_boundary_after_ascii(pb, 1);
    }
    let (_, rest) = path.split_at(1);
    proof {
        assert(rest.spec_bytes() =~= pb.subrange(1, pb.len() as int));
    }
    if i < n {
        assert(pb[i as int] == 0x2f);
        assert(find_byte_from(pb, 0x2f, 1) == Some(i as int));
        proof {
            encode_utf8_valid_utf8(rest@);
            assert(rest.spec_bytes()[i - 1] == pb[i as int]);
            is_char_boundary_iff_not_is_continuation_byte(rest.spec_bytes(), i - 1);
        }
        let (owner, resource) = rest.split_at(i - 1);
        proof {
            assert(owner.spec_bytes() =~= pb.subrange(1, i as int));
            assert(resource.spec_bytes() =~= pb.subrange(i as int, pb.len() as int));
        }
        (owner, resource)
    } else {
        assert(find_byte_from(pb, 0x2f, 1) is None);
        proof {
            reveal_strlit("/");
            assert("/"@ =~= seq!['/']);
            assert(vstd::utf8::is_ascii_chars(seq!['/']));
            is_ascii_chars_encode_utf8(seq!['/']);
            assert("/".spec_bytes() =~= seq![0x2fu8]);
        }
        (rest, "/")
    }
}

/// The file ID value in one query string, by scanning its `&`-delimited
/// segments for the first one keyed `_id=`.
fn find_id_in<'a>(q: &'a str) -> (r: Option<&'a str>)
    ensures
        opt_str_bytes(r) == file_id_in(q.spec_bytes()),
    decreases q.spec_bytes().len(),
{
    let ghost qb = q.spec_bytes();
    let bytes: &[u8] = q.as_bytes();
    let n = bytes.len();
    let mut i: usize = 0;
    while i < n && bytes[i] != 0x26
        invariant
            i <= qb.len(),
            n == qb.len(),
            bytes@ == qb,
            forall|k: int| 0 <= k < i ==> qb[k] != 0x26,
        decreases qb.len() - i,
    {
        i += 1;
    }
    let ghost seg_end = i as int;
    proof {
        lemma_find_byte_from(qb, 0x26, 0);
        if i < n {
            assert(find_byte_from(qb, 0x26, 0) == Some(seg_end));
        } else {
            assert(find_byte_from(qb, 0x26, 0) is None);
        }
    }
    if i >= 4 && bytes[0] == 0x5f && bytes[1] == 0x69 && bytes[2] == 0x64 && bytes[3] == 0x3d {
        proof {
            assert(qb.subrange(0, 4) =~= file_id_key_prefix());
            encode_utf8_valid_utf8(q@);
            lemma_boundary_after_ascii(qb, 4);
        }
        let (_, tail) = q.split_at(4);
        proof {
            assert(tail.spec_bytes() =~= qb.subrange(4, qb.len() as int));
            encode_utf8_valid_utf8(tail@);
            if i < n {
                assert(tail.spec_bytes()[i - 4] == qb[seg_end]);
                is_char_boundary_iff_not_is_continuation_byte(tail.spec_bytes(), i - 4);
            } else {
                is_char_boundary_start_end_of_seq(tail.spec_bytes());
            }
        }
        let (value, _) = tail.split_at(i - 4);
        proof {
            assert(value.spec_bytes() =~= qb.subrange(4, seg_end));
        }
        Some(value)
    } else if i < n {
        proof {
            encode_utf8_valid_utf8(q@);
            lemma_boundary_after_ascii(qb, seg_end + 1);
        }
        let (_, rest) = q.split_at(i + 1);
        proof {
            assert(rest.spec_bytes() =~= qb.subrange(seg_end + 1, qb.len() as int));
        }
        find_id_in(rest)
    } else {
        None
    }
}

/// Extracts the value of the file ID query parameter, if it exists in the
/// specified URI query.
pub fn get_queried_file_id<'a>(query: Option<&'a str>) -> (r: Option<&'a str>)
    ensures
        opt_str_bytes(r) == (match opt_str_bytes(query) {
            Some(qb) => file_id_in(qb),
            None => None::<Seq<u8>>,
        }),
{
    match query {
        Some(q) => find_id_in(q),
        None => None,
    }
}

/// Resolves a raw request path and query into a redirect to the canonical
/// target when the path is not canonical, or into the decomposed locator
/// when it is; fails exactly when the path's encoding is malformed. The path
/// must begin with `/`.
pub fn canonicalize(raw_path: &str, raw_query: Option<&str>) -> (r: Result<
    Resolution,
    MalformedEncoding,
>)
    requires
        raw_path.spec_bytes().len() > 0,
        raw_path.spec_bytes()[0] == 0x2f,
    ensures
        outcome_matches(&r, spec_canonicalize(raw_path.spec_bytes(), opt_str_bytes(raw_query))),
{
    let ghost pb = raw_path.spec_bytes();
    let path_bytes: &[u8] = raw_path.as_bytes();
    let decoded = match percent_decode(path_bytes) {
        Some(d) => d,
        None => {
            return Err(MalformedEncoding);
        },
    };
    if !validate_utf8(decoded.as_slice()) {
        return Err(MalformedEncoding);
    }
    assert(well_formed_path(pb));
    assert(decoded@ == decoded_path(pb));
    let canon = percent_encode(decoded.as_slice());
    assert(canon@ == canonical_of(pb));
    if !bytes_equal(canon.as_slice(), path_bytes) {
        proof {
            lemma_encode_ascii(decoded@);
            lemma_ascii_valid_utf8(canon@);
        }
        let canon_str = bytes_to_string(canon.as_slice());
        let target = concat_path_and_query(canon_str.as_str(), raw_query);
        Ok(Resolution::Redirect(target))
    } else {
        let (owner, resource_path) = parse_file_route_path(raw_path);
        let file_id = get_queried_file_id(raw_query);
        let id: Option<String> = match file_id {
            Some(s) => Some(s.to_owned()),
            None => None,
        };
        Ok(
            Resolution::Resolved {
                owner: owner.to_owned(),
                resource_path: resource_path.to_owned(),
                override_id: id,
            },
        )
    }
}

} // verus!
