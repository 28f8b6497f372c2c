//! The hash primitive behind the tree, and byte-level helpers.
//!
//! Every node of the tree is a SHA3-256 digest: a leaf is the digest of one
//! data block, an inner node the digest of the concatenation of its two
//! children.  The digest itself comes from an outside implementation and is
//! only named here, never restated.

use vstd::prelude::*;

verus! {

/// The SHA3-256 digest of a byte sequence.  The digest is a function of the
/// input bytes alone; nothing further is assumed of its value.
pub uninterp spec fn digest(data: Seq<u8>) -> Seq<u8>;

/// The hash of one data block: a leaf of the tree.
pub open spec fn hash_leaf_spec(block: Seq<u8>) -> Seq<u8> {
    digest(block)
}

/// The hash of a left/right pair of child hashes: an inner node of the
/// tree.  The left child's bytes come first, so order matters.
pub open spec fn hash_pair_spec(left: Seq<u8>, right: Seq<u8>) -> Seq<u8> {
    digest(left + right)
}

/// Relies on the `crypto` crate's `Sha3::sha3_256` (via the `Digest` trait's
/// `input` and `result`): the 32-byte output depends on the input bytes
/// alone.
#[verifier::external_body]
pub(crate) fn hash_data(data: &crate::Data) -> (r: crate::Hash)
    ensures
        r@ == digest(data@),
        r@.len() == 32,
{
    let mut hasher = crypto::sha3::Sha3::sha3_256();
    crypto::digest::Digest::input(&mut hasher, data.as_slice());
    let mut out: Vec<u8> = Vec::new();
    out.resize(32, 0u8);
    crypto::digest::Digest::result(&mut hasher, out.as_mut_slice());
    out
}

/// One lower-case hexadecimal digit for a value below sixteen.
pub open spec fn hex_digit(n: int) -> char {
    if n < 10 {
        ((0x30 + n) as u8) as char
    } else {
        ((0x57 + n) as u8) as char
    }
}

/// The lower-case hexadecimal encoding of a byte sequence: two digits per
/// byte, high digit first.
pub open spec fn hex_of(bytes: Seq<u8>) -> Seq<char>
    decreases bytes.len(),
{
    if bytes.len() == 0 {
        Seq::empty()
    } else {
        seq![hex_digit(bytes[0] as int / 16), hex_digit(bytes[0] as int % 16)] + hex_of(bytes.skip(1))
    }
}

/// Relies on the `crypto` crate's `Sha3::sha3_256` and the `Digest` trait's
/// `result_str`: the lower-case hexadecimal rendering of the 32-byte digest
/// of the input, depending on the input bytes alone.
#[verifier::external_body]
pub fn hash_to_str(data: &[u8]) -> (r: String)
    ensures
        r@ == hex_of(digest(data@)),
{
    let mut hasher = crypto::sha3::Sha3::sha3_256();
    crypto::digest::Digest::input(&mut hasher, data);
    crypto::digest::Digest::result_str(&mut hasher)
}

/// Byte-for-byte equality of two hashes.
pub(crate) fn hashes_equal(a: &crate::Hash, b: &crate::Hash) -> (r: bool)
    ensures
        r == (a@ == b@),
{
    if a.len() != b.len() {
        return false;
    }
    let mut i: usize = 0;
    while i < a.len()
        invariant
            0 <= i <= a@.len(),
            a@.len() == b@.len(),
            forall|j: int| 0 <= j < i ==> a@[j] == b@[j],
        decreases a@.len() - i,
    {
        if a[i] != b[i] {
            return false;
        }
        i = i + 1;
    }
    assert(a@ =~= b@);
    true
}

/// A copy of a hash with exactly the same bytes.
pub(crate) fn copy_hash(h: &crate::Hash) -> (r: crate::Hash)
    ensures
        r@ == h@,
{
    let mut r: Vec<u8> = Vec::new();
    let mut i: usize = 0;
    while i < h.len()
        invariant
            0 <= i <= h@.len(),
            r@ == h@.subrange(0, i as int),
        decreases h@.len() - i,
    {
        r.push(h[i]);
        assert(r@ =~= h@.subrange(0, (i + 1) as int));
        i = i + 1;
    }
    assert(r@ =~= h@);
    r
}

} // verus!
