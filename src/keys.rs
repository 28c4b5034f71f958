use vstd::prelude::*;

use crate::validation::base64_decoded;

verus! {

/// The text that the standard base64 alphabet (with padding) encodes the bytes to.
pub uninterp spec fn base64_encoded(b: Seq<u8>) -> Seq<char>;

/// Relies on `base64::Engine::encode` with the `STANDARD` engine: padded base64 of the bytes,
/// four characters for each started group of three bytes, which decodes back to the bytes.
#[verifier::external_body]
pub(crate) fn base64_encode(b: &[u8]) -> (r: String)
    requires
        b@.len() <= u32::MAX,
    ensures
        r@ == base64_encoded(b@),
        r@.len() == 4 * ((b@.len() + 2) / 3),
        base64_decoded(r@) == Some(b@),
{
    base64::Engine::encode(&base64::engine::general_purpose::STANDARD, b)
}

/// Relies on `rand::random` (the thread-local CSPRNG): 32 random bytes.
#[verifier::external_body]
fn random_key_bytes() -> (r: Vec<u8>)
    ensures
        r@.len() == 32,
{
    rand::random::<[u8; 32]>().to_vec()
}

/// Whether the text is a WireGuard key as this library issues them: 32 bytes in base64.
pub open spec fn is_issued_key(k: Seq<char>) -> bool {
    exists|b: Seq<u8>| b.len() == 32 && k == base64_encoded(b)
}

/// A fresh pre-shared key: 32 random bytes, base64-encoded.
pub fn generate_psk() -> (r: String)
    ensures
        is_issued_key(r@),
        r@.len() == 44,
        base64_decoded(r@) is Some,
        base64_decoded(r@)->0.len() == 32,
{
    let bytes = random_key_bytes();
    let r = base64_encode(bytes.as_slice());
    assert(bytes@.len() == 32 && r@ == base64_encoded(bytes@));
    r
}

} // verus!
