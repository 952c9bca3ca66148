use hmac::{Hmac, Mac};
use sha2::Sha256;
use vstd::prelude::*;

verus! {

/// The CRC-32 (IEEE) checksum of a byte string.
pub uninterp spec fn crc32_of(data: Seq<u8>) -> u32;

/// The HMAC-SHA256 tag of `data` under `key`.
pub uninterp spec fn hmac_sha256_of(key: Seq<u8>, data: Seq<u8>) -> Seq<u8>;

/// Relies on crc32fast::hash: the CRC-32 of the bytes, which depends on them alone.
#[verifier::external_body]
fn crc32(data: &[u8]) -> (r: u32)
    ensures
        r == crc32_of(data@),
{
    crc32fast::hash(data)
}

/// Relies on hmac's `Hmac<Sha256>` (`new_from_slice`, `update`, `finalize`):
/// a key of any length is accepted, and the tag is 32 bytes that depend on
/// the key and the data alone.
#[verifier::external_body]
fn hmac_sha256(key: &[u8], data: &[u8]) -> (r: Vec<u8>)
    ensures
        r@ == hmac_sha256_of(key@, data@),
        r@.len() == 32,
{
    let mut mac = <Hmac<Sha256> as Mac>::new_from_slice(key).unwrap();
    mac.update(data);
    mac.finalize().into_bytes().to_vec()
}

/// Corruption checksum of a record's data.
pub fn calculate_crc(data: &[u8]) -> (r: u32)
    ensures
        r == crc32_of(data@),
{
    crc32(data)
}

/// Authentication tag of a record's data under the caller's key.
pub fn calculate_hmac(data: &[u8], key: &[u8]) -> (r: Vec<u8>)
    ensures
        r@ == hmac_sha256_of(key@, data@),
        r@.len() == 32,
{
    hmac_sha256(key, data)
}

/// Both tags are functions of their inputs: equal data (and, for the
/// authentication tag, an equal key) give equal tags.
pub proof fn lemma_tags_deterministic(a: Seq<u8>, b: Seq<u8>, ka: Seq<u8>, kb: Seq<u8>)
    requires
        a == b,
        ka == kb,
    ensures
        crc32_of(a) == crc32_of(b),
        hmac_sha256_of(ka, a) == hmac_sha256_of(kb, b),
{
}

} // verus!
