//! Laws the canonicalizer obeys, stated over its mathematical model and
//! proved once and for all.

use crate::locator::{
    canonical_of, decoded_path, is_canonical, spec_canonicalize, split_locator, well_formed_path,
    SpecResolution,
};
use crate::percent::{count_byte, decode, encode, lemma_decode_encode, lemma_encode_preserves_slashes};
use crate::text::{find_byte_from, lemma_find_byte_from};
use vstd::prelude::*;
use vstd::utf8::valid_utf8;

verus! {

/// Idempotence: the canonical encoding of any valid decoded path is a fixed
/// point of canonicalization — canonicalizing it a second time, under any
/// query, yields no redirect.
pub proof fn lemma_canonical_fixed_point(d: Seq<u8>, q: Option<Seq<u8>>)
    requires
        valid_utf8(d),
    ensures
        is_canonical(encode(d)),
        spec_canonicalize(encode(d), q) is Resolved,
{
    lemma_decode_encode(d);
    assert(well_formed_path(encode(d)));
    assert(decoded_path(encode(d)) == d);
}

/// Equivalence convergence: two percent-encodings that decode to the same
/// path canonicalize to the identical Canonical Encoded Path.
pub proof fn lemma_equivalence_convergence(e1: Seq<u8>, e2: Seq<u8>)
    requires
        well_formed_path(e1),
        decode(e1) == decode(e2),
    ensures
        well_formed_path(e2),
        canonical_of(e1) == canonical_of(e2),
{
}

/// Slash preservation: canonicalizing never percent-encodes a literal slash
/// — the canonical form holds exactly as many `/` bytes as the decoded path.
pub proof fn lemma_slash_preservation(p: Seq<u8>)
    requires
        well_formed_path(p),
    ensures
        count_byte(canonical_of(p), 0x2f) == count_byte(decoded_path(p), 0x2f),
{
    lemma_encode_preserves_slashes(decoded_path(p));
}

/// Decomposition totality: every non-empty path beginning with `/` splits
/// into exactly one owner identifier, itself free of slashes, and one
/// resource path beginning with `/`; re-joining the leading slash, the owner
/// and the resource path (or, in the root case, just the owner)
/// reconstructs the path.
pub proof fn lemma_decomposition_totality(p: Seq<u8>)
    requires
        p.len() > 0,
        p[0] == 0x2f,
    ensures
        ({
            let (owner, resource) = split_locator(p);
            &&& forall|k: int| 0 <= k < owner.len() ==> owner[k] != 0x2f
            &&& resource.len() > 0
            &&& resource[0] == 0x2f
            &&& (p == seq![0x2fu8] + owner + resource || (resource == seq![0x2fu8] && p == seq![
                0x2fu8,
            ] + owner))
        }),
{
    lemma_find_byte_from(p, 0x2f, 1);
    let (owner, resource) = split_locator(p);
    match find_byte_from(p, 0x2f, 1) {
        Some(j) => {
            assert(forall|k: int| 0 <= k < owner.len() ==> owner[k] == p[1 + k]);
            assert(p =~= seq![0x2fu8] + owner + resource);
        },
        None => {
            assert(forall|k: int| 0 <= k < owner.len() ==> owner[k] == p[1 + k]);
            assert(resource == seq![0x2fu8]);
            assert(p =~= seq![0x2fu8] + owner);
        },
    }
}

/// Override independence: a path already in canonical form resolves — it
/// never redirects — whatever query string is appended, and the resolved
/// owner and resource path do not depend on the query.
pub proof fn lemma_override_independence(p: Seq<u8>, q1: Option<Seq<u8>>, q2: Option<Seq<u8>>)
    requires
        is_canonical(p),
    ensures
        spec_canonicalize(p, q1) is Resolved,
        (match (spec_canonicalize(p, q1), spec_canonicalize(p, q2)) {
            (
                SpecResolution::Resolved { owner: o1, resource_path: r1, .. },
                SpecResolution::Resolved { owner: o2, resource_path: r2, .. },
            ) => o1 == o2 && r1 == r2,
            _ => false,
        }),
{
}

} // verus!
