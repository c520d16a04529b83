use vstd::prelude::*;

verus! {

/// The SHA-256 digest of a byte string.
pub uninterp spec fn sha256_of(data: Seq<u8>) -> Seq<u8>;

/// Relies on soroban_sdk's `Crypto::sha256`: the SHA-256 digest of `data`,
/// which depends on the bytes alone. The host charges a metered budget per
/// input byte, so the input is kept short (a rail request is 40 bytes).
#[verifier::external_body]
pub(crate) fn sha256(data: &Vec<u8>) -> (r: [u8; 32])
    requires
        data@.len() <= 40,
    ensures
        r@ == sha256_of(data@),
{
    let env = soroban_sdk::Env::default();
    env.crypto().sha256(&soroban_sdk::Bytes::from_slice(&env, data.as_slice())).to_array()
}

} // verus!
