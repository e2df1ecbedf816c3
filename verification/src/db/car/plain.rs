//! # Varint frames
//!
//! CARs are made of concatenations of _varint frames_. Each varint frame is a
//! concatenation of the _body length_ as a varint, and the _frame body_ itself.
//!
//! The first varint frame is a _header frame_, where the frame body is a header
//! encoded as DAG-CBOR. Subsequent varint frames are _block frames_, where the
//! frame body is a concatenation of a CID and the _block data_ addressed by that
//! CID.

use crate::utils::bytes::{lemma_u32_le_value, u32_le};
use vstd::prelude::*;

verus! {

/// How a skippable zstd frame with the given length of data starts.
pub open spec fn skip_frame_header(data_len: u32) -> Seq<u8> {
    seq![0x50u8, 0x2Au8, 0x4Du8, 0x18u8] + u32_le(data_len)
}

/// A skippable frame starts with its mark, and then the length of its data as
/// four digits to the base 256, least significant first.
pub proof fn lemma_skip_frame_header_in_place(data_len: u32)
    ensures
        ({
            let s = skip_frame_header(data_len);
            &&& s.len() == 8
            &&& s.take(4) == seq![0x50u8, 0x2A, 0x4D, 0x18]
            &&& data_len == s[4] + s[5] * 0x100 + s[6] * 0x1_0000 + s[7] * 0x100_0000
        }),
{
    lemma_u32_le_value(data_len);
    let (s, t) = (skip_frame_header(data_len), u32_le(data_len));
    assert(s.take(4) =~= seq![0x50u8, 0x2A, 0x4D, 0x18]);
    assert(t[0] == s[4] && t[1] == s[5] && t[2] == s[6] && t[3] == s[7]);
}

/// Appends the header of a skippable zstd frame.
pub fn write_skip_frame_header(writer: &mut Vec<u8>, data_len: u32)
    ensures
        final(writer)@ == old(writer)@ + skip_frame_header(data_len),
{
    writer.push(0x50);
    writer.push(0x2A);
    writer.push(0x4D);
    writer.push(0x18);
    writer.push(data_len as u8);
    writer.push((data_len >> 8) as u8);
    writer.push((data_len >> 16) as u8);
    writer.push((data_len >> 24) as u8);
    assert(writer@ =~= old(writer)@ + skip_frame_header(data_len));
}

} // verus!
