//! Byte strings with a maximum length.

use crate::utils::ipld::{bytes_from_slice, dag_cbor, decoded_bytes, ipld_bytes, to_vec, IpldView};
use vstd::prelude::*;
use vstd::slice::slice_to_vec;

verus! {

/// The longest byte string that is accepted.
pub const BYTE_ARRAY_MAX_LEN: usize = 2 << 20;

/// Why a byte string was not accepted.
#[derive(Debug, PartialEq, Eq)]
pub enum ByteArrayError {
    /// The string is longer than the maximum.
    ExceedsMaxLength,
    /// Not the encoding of a byte string.
    Malformed,
}

/// The byte string, if it is not too long.
pub fn check_len(bytes: Vec<u8>) -> (r: Result<Vec<u8>, ByteArrayError>)
    ensures
        r == if bytes.len() > BYTE_ARRAY_MAX_LEN {
            Err(ByteArrayError::ExceedsMaxLength)
        } else {
            Ok::<Vec<u8>, ByteArrayError>(bytes)
        },
        r is Ok <==> bytes.len() <= 0x20_0000,
        r matches Ok(same) ==> same@ == bytes@,
{
    assert(2usize << 20usize == 0x20_0000usize) by (bit_vector);
    if bytes.len() > BYTE_ARRAY_MAX_LEN {
        Err(ByteArrayError::ExceedsMaxLength)
    } else {
        Ok(bytes)
    }
}

/// The DAG-CBOR encoding of a byte string, if it is not too long.
pub fn serialize(bytes: &[u8]) -> (r: Result<Vec<u8>, ByteArrayError>)
    ensures
        match r {
            Ok(cbor) => bytes.len() <= BYTE_ARRAY_MAX_LEN && cbor@ == dag_cbor(
                IpldView::Bytes(bytes@),
            ),
            Err(e) => bytes.len() > BYTE_ARRAY_MAX_LEN && e == ByteArrayError::ExceedsMaxLength,
        },
        r is Ok <==> bytes.len() <= 0x20_0000,
{
    assert(2usize << 20usize == 0x20_0000usize) by (bit_vector);
    if bytes.len() > BYTE_ARRAY_MAX_LEN {
        return Err(ByteArrayError::ExceedsMaxLength);
    }
    Ok(to_vec(&ipld_bytes(slice_to_vec(bytes))))
}

/// The byte string that is encoded as `cbor`, if it is not too long. What was
/// [serialized](serialize) is given back; the encoding of a longer string is
/// refused.
pub fn deserialize(cbor: &[u8]) -> (r: Result<Vec<u8>, ByteArrayError>)
    ensures
        match decoded_bytes(cbor@) {
            None => r == Err::<Vec<u8>, ByteArrayError>(ByteArrayError::Malformed),
            Some(bytes) => if bytes.len() > BYTE_ARRAY_MAX_LEN {
                r == Err::<Vec<u8>, ByteArrayError>(ByteArrayError::ExceedsMaxLength)
            } else {
                r is Ok && r->Ok_0@ == bytes
            },
        },
        forall|bytes: Seq<u8>|
            cbor@ == #[trigger] dag_cbor(IpldView::Bytes(bytes)) ==> decoded_bytes(cbor@) == Some(
                bytes,
            ),
{
    match bytes_from_slice(cbor) {
        Some(bytes) => check_len(bytes),
        None => Err(ByteArrayError::Malformed),
    }
}

} // verus!
