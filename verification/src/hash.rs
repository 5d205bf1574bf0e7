use crate::error::Error;
use ring::digest;
use vstd::prelude::*;

verus! {

/// The SHA-256 digest of `data`, as `ring` computes it.
pub uninterp spec fn sha256(data: Seq<u8>) -> Seq<u8>;

/// The digest primitive takes fewer bytes than this: the bit length of its
/// input has to fit in 64 bits.
pub const DIGEST_INPUT_LIMIT: u64 = 0x2000_0000_0000_0000;

/// The length of a digest in bytes.
pub const DIGEST_LEN: usize = 32;

/// Calls `ring::digest::digest` with `ring::digest::SHA256` and copies the
/// digest out. Trusted: the result is the SHA-256 digest of `data`, a
/// function of the bytes alone, and it is 32 bytes long. `ring` panics
/// where the input's length in bits overflows 64 bits; `requires` leaves
/// such input out.
#[verifier::external_body]
fn sha256_digest(data: &[u8]) -> (out: Vec<u8>)
    requires
        data@.len() < DIGEST_INPUT_LIMIT,
    ensures
        out@ == sha256(data@),
        out@.len() == DIGEST_LEN,
{
    digest::digest(&digest::SHA256, data).as_ref().to_vec()
}

/// The digest applied twice.
pub open spec fn double_sha256(data: Seq<u8>) -> Seq<u8> {
    sha256(sha256(data))
}

/// What hashing `data` once gives: the digest, or `DigestFailure` where the
/// primitive cannot take so many bytes.
pub open spec fn single_hash_of(data: Seq<u8>) -> Result<Seq<u8>, Error> {
    if data.len() < DIGEST_INPUT_LIMIT {
        Ok(sha256(data))
    } else {
        Err(Error::DigestFailure)
    }
}

/// What hashing `data` twice gives: the digest of the digest, or
/// `DigestFailure` where the primitive cannot take so many bytes.
pub open spec fn double_hash_of(data: Seq<u8>) -> Result<Seq<u8>, Error> {
    if data.len() < DIGEST_INPUT_LIMIT {
        Ok(double_sha256(data))
    } else {
        Err(Error::DigestFailure)
    }
}

/// Whether `data` is short enough for the digest primitive.
fn hashable(data: &[u8]) -> (b: bool)
    ensures
        b == (data@.len() < DIGEST_INPUT_LIMIT),
{
    (data.len() as u64) < DIGEST_INPUT_LIMIT
}

/// Applies the 256-bit digest once.
pub fn single_hash(data: &[u8]) -> (r: Result<Vec<u8>, Error>)
    ensures
        match r {
            Ok(d) => single_hash_of(data@) == Ok::<Seq<u8>, Error>(d@) && d@.len() == DIGEST_LEN,
            Err(e) => single_hash_of(data@) == Err::<Seq<u8>, Error>(e),
        },
{
    if hashable(data) {
        Ok(sha256_digest(data))
    } else {
        Err(Error::DigestFailure)
    }
}

/// Applies the 256-bit digest twice: the digest of the digest of `data`.
pub fn double_hash(data: &[u8]) -> (r: Result<Vec<u8>, Error>)
    ensures
        match r {
            Ok(d) => double_hash_of(data@) == Ok::<Seq<u8>, Error>(d@) && d@.len() == DIGEST_LEN,
            Err(e) => double_hash_of(data@) == Err::<Seq<u8>, Error>(e),
        },
{
    let once = single_hash(data)?;
    single_hash(once.as_slice())
}

} // verus!
