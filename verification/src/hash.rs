//! Content digests of document bytes.
//!
//! The digest guards the undo-file header: a history is trusted against a
//! document only while the document's bytes still hash to the digest stored
//! at the last save. The digest is also the content-addressing key of the
//! snapshot chain.

use vstd::prelude::*;

verus! {

/// Width in bytes of a content digest. The width is part of the on-disk
/// format: the header does not describe it.
pub const HASH_DIGEST_LENGTH: usize = 20;

/// A content digest: always exactly [`HASH_DIGEST_LENGTH`] bytes.
pub type Digest = Vec<u8>;

/// The digest assigned to a byte stream. The hash itself is computed by an
/// outside crate; the library relies only on the result being a function of
/// the input bytes alone, [`HASH_DIGEST_LENGTH`] bytes wide.
pub uninterp spec fn digest_of(data: Seq<u8>) -> Seq<u8>;

/// Relies on `tenthash::hash`: a 20-byte digest that depends on the input
/// bytes alone.
#[verifier::external_body]
pub fn get_hash(data: &[u8]) -> (r: Digest)
    ensures
        r@ == digest_of(data@),
        r@.len() == HASH_DIGEST_LENGTH,
{
    tenthash::hash(data).to_vec()
}

/// Law: the content digest is deterministic — two equal byte streams
/// always carry the same digest, across calls and call sites. That a
/// one-byte change almost surely changes the digest is a property of the
/// hash function itself and is exercised by tests, not proved.
pub proof fn lemma_digest_deterministic(a: Seq<u8>, b: Seq<u8>)
    requires
        a == b,
    ensures
        digest_of(a) == digest_of(b),
{
}

} // verus!
