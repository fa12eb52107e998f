//! ECDSA over secp256k1 with SHA-256, as computed by the `k256` crate.
use vstd::prelude::*;
use k256::ecdsa::signature::Verifier;

verus! {

/// Whether `bytes` is a SEC1 encoding (compressed or not) of a point of
/// secp256k1 other than the identity, as `VerifyingKey::from_sec1_bytes`
/// decides it.
pub uninterp spec fn sec1_key_accepted(bytes: Seq<u8>) -> bool;

/// Whether the ECDSA/secp256k1 signature `sig` (64 bytes, r then s) over the
/// SHA-256 digest of `msg` verifies under the key encoded by `sec1_key`, as
/// `VerifyingKey::verify` decides it.
pub uninterp spec fn ecdsa_sha256_verifies(sec1_key: Seq<u8>, msg: Seq<u8>, sig: Seq<u8>) -> bool;

/// The order of the secp256k1 group.
pub open spec fn secp256k1_order() -> nat {
    0xFFFFFFFFFFFFFFFFFFFFFFFFFFFFFFFEBAAEDCE6AF48A03BBFD25E8CD0364141nat
}

/// The big-endian value of a byte string.
pub open spec fn be_value(bytes: Seq<u8>) -> nat
    decreases bytes.len(),
{
    if bytes.len() == 0 {
        0
    } else {
        be_value(bytes.drop_last()) * 256 + (bytes.last() as nat)
    }
}

/// Whether a 32-byte big-endian scalar lies in `1..n`.
pub open spec fn scalar_in_range(bytes: Seq<u8>) -> bool {
    0 < be_value(bytes) < secp256k1_order()
}

/// Whether `bytes` parses as a fixed-size signature: 64 bytes whose halves
/// r and s both lie in `1..n`.
pub open spec fn signature_bytes_valid(bytes: Seq<u8>) -> bool {
    &&& bytes.len() == 64
    &&& scalar_in_range(bytes.subrange(0, 32))
    &&& scalar_in_range(bytes.subrange(32, 64))
}

/// Whether `sig` is an acceptable signature by the key `sec1_key` on `msg`:
/// the key parses, the signature parses, and it verifies.
pub open spec fn signature_accepted(sec1_key: Seq<u8>, msg: Seq<u8>, sig: Seq<u8>) -> bool {
    &&& sec1_key_accepted(sec1_key)
    &&& signature_bytes_valid(sig)
    &&& ecdsa_sha256_verifies(sec1_key, msg, sig)
}

/// Verifies a secp256k1 ECDSA signature given as plain bytes: parses the key
/// with `k256::ecdsa::VerifyingKey::from_sec1_bytes`, the signature with
/// `k256::ecdsa::Signature::from_slice`, and calls `VerifyingKey::verify`
/// (SHA-256 of `msg`, then ECDSA verification). A parse failure answers
/// `false`. Trusted: key parsing succeeds exactly on accepted SEC1
/// encodings; signature parsing, as its source shows, succeeds exactly on 64
/// bytes whose big-endian halves lie in `1..n`; the verification answer is a
/// function of the three byte strings alone.
#[verifier::external_body]
pub(crate) fn check_signature(sec1_key: &[u8], msg: &[u8], sig: &[u8]) -> (r: bool)
    ensures
        r == (sec1_key_accepted(sec1_key@) && signature_bytes_valid(sig@)
            && ecdsa_sha256_verifies(sec1_key@, msg@, sig@)),
{
    let Ok(key) = k256::ecdsa::VerifyingKey::from_sec1_bytes(sec1_key) else { return false };
    let Ok(parsed) = k256::ecdsa::Signature::from_slice(sig) else { return false };
    key.verify(msg, &parsed).is_ok()
}

} // verus!
