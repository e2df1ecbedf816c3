//! Hash functions and encodings.

pub mod serde_byte_array;

use vstd::prelude::*;
use vstd::string::StringExecFns;

verus! {

/// What is said when neither attempt at decoding succeeds.
pub open spec fn fallback_message(fallback_err: Seq<char>, err: Seq<char>) -> Seq<char> {
    "Fallback deserialization failed: "@ + fallback_err + ". Original error: "@ + err
}

/// Takes the outcome of the regular decoder, and retries with the fallback if
/// that failed. Historical data holds strings with invalid UTF-8, which only
/// the fallback accepts.
pub fn from_slice_with_fallback<T, F: FnOnce() -> Result<T, String>>(
    regular: Result<T, String>,
    fallback: F,
) -> (r: Result<T, String>)
    requires
        call_requires(fallback, ()),
    ensures
        regular matches Ok(value) ==> r == Ok::<T, String>(value),
        regular matches Err(err) ==> exists|retried: Result<T, String>| #[trigger]
            call_ensures(fallback, (), retried) && match retried {
                Ok(value) => r == Ok::<T, String>(value),
                Err(fallback_err) => r is Err && r->Err_0@ == fallback_message(
                    fallback_err@,
                    err@,
                ) && r->Err_0@ == "Fallback deserialization failed: "@ + fallback_err@
                    + ". Original error: "@ + err@,
            },
{
    match regular {
        Ok(value) => Ok(value),
        Err(err) => {
            let retried = fallback();
            let ghost outcome = retried;
            match retried {
                Ok(value) => {
                    assert(call_ensures(fallback, (), outcome));
                    Ok(value)
                },
                Err(fallback_err) => {
                    let mut message = "Fallback deserialization failed: ".to_string();
                    message.append(fallback_err.as_str());
                    message.append(". Original error: ");
                    message.append(err.as_str());
                    assert(call_ensures(fallback, (), outcome));
                    Err(message)
                },
            }
        },
    }
}

/// What BLAKE2b with a 32-byte output gives for a byte string.
pub uninterp spec fn blake2b_256_digest(data: Seq<u8>) -> Seq<u8>;

/// What Keccak-256 gives for a byte string.
pub uninterp spec fn keccak_256_digest(data: Seq<u8>) -> Seq<u8>;

/// Generates BLAKE2b hash of fixed 32 bytes size.
///
/// Calls `blake2b_simd::Params`, with a hash length of 32 and every other
/// parameter at its default. The contract names the digest as a function of
/// the bytes, and says nothing else of it.
#[verifier::external_body]
pub fn blake2b_256(ingest: &[u8]) -> (r: [u8; 32])
    ensures
        r@ == blake2b_256_digest(ingest@),
{
    let digest = blake2b_simd::Params::new().hash_length(32).to_state().update(ingest).finalize();
    let mut ret = [0u8; 32];
    ret.clone_from_slice(digest.as_bytes());
    ret
}

/// Generates Keccak-256 hash of fixed 32 bytes size.
///
/// Calls `keccak_hash::keccak_256`. The contract names the digest as a function
/// of the bytes, and says nothing else of it.
#[verifier::external_body]
pub fn keccak_256(ingest: &[u8]) -> (r: [u8; 32])
    ensures
        r@ == keccak_256_digest(ingest@),
{
    let mut ret = [0u8; 32];
    keccak_hash::keccak_256(ingest, &mut ret);
    ret
}

} // verus!
