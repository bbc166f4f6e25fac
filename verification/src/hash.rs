use vstd::prelude::*;

verus! {

/// The SHA-256 digest of a byte sequence. The digest is a pure function of
/// the input bytes, so it is given a name here rather than a definition;
/// `calculate_hash` is the only way to obtain its value.
pub uninterp spec fn sha256_digest(data: Seq<u8>) -> Seq<u8>;

/// Relies on sha2::Sha256 (through the sha2::Digest trait): the digest is a
/// function of the input bytes alone, and is always 32 bytes long.
#[verifier::external_body]
pub(crate) fn calculate_hash(data: &Vec<u8>) -> (r: Vec<u8>)
    ensures
        r@ == sha256_digest(data@),
        r@.len() == 32,
{
    let digest = <sha2::Sha256 as sha2::Digest>::digest(data.as_slice());
    digest.to_vec()
}

} // verus!
