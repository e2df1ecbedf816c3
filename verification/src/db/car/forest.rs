//! # Forest CAR format
//!
//! The `forest.car.zst` format wraps multiple CAR blocks in small (usually
//! 8 KiB) zstd frames, and has an index in a skippable zstd frame. At the end of
//! the data, there is a fixed-size skippable frame containing magic numbers and
//! meta information about the archive. CAR blocks do not span multiple z-frames,
//! and the CAR header is kept in a separate z-frame.
//!
//! Imagine a `forest.car.zst` archive with 5 blocks. They could be arranged in
//! z-frames as drawn below:
//!
//! ```text
//!  Z-Frame 1   Z-Frame 2   Z-Frame 3   Skip Frame    Skip Frame
//! +---------+ +---------+ +---------+ +-----------+ +------------+
//! | Header  | | Block 1 | | Block 4 | |Offsets    | |Index offset|
//! +---------+ | Block 2 | | Block 5 | | Z-Frame 2 | |Magic number|
//!             | Block 3 | +---------+ | Z-Frame 2 | |Version info|
//!             +---------+             | Z-Frame 2 | +------------+
//!                                     | Z-Frame 3 |
//!                                     | Z-Frame 3 |
//!                                     +-----------+
//! ```
//!
//! Looking up a block uses the index to find the right z-frame. The frame is
//! then decoded and each block is scanned until a match is found.
//!
//! `forest.car.zst` files can be read by all tools that consume compressed CAR
//! files: what is specific to the format is in skippable frames.

pub mod compress;
pub mod index;

use crate::db::car::plain::{skip_frame_header, write_skip_frame_header};
use crate::utils::bytes::{
    lemma_read_uvarint, lemma_u64_le_round_trip, read_uvarint, u32_le, u64_from_le, u64_le,
    uvarint, write_u64_le,
};
use crate::utils::cid::{cid_views, Cid, CidView};
use crate::utils::db::car_stream::{
    body_len, header_value, lemma_header_has_encoding, CarBlock, CarBlockView, CarV1Header,
};
use crate::utils::ipld::{dag_cbor, to_vec};
use crate::utils::nonempty::NonEmpty;
use bytes::{Bytes, BytesMut};
use compress::{
    block_cids, block_frames, block_views, decoded_frames, encoder_finish, encoder_write_all,
    errors, is_frame_of, lemma_errors_leave_frames, lemma_frames_decode_to_blocks, lemma_oks_among,
    lemma_read_blocks, lemma_results_told_apart, lemma_single_blocks, lemma_split_is_greedy,
    lemma_split_keeps_blocks, new_encoder, oks, read_blocks, split, split_stream, zstd_decoded,
    zstd_frame, Call, CompressError, FrameCompressor, Step, Taken,
};
use index::hash::summarized;
use index::layout::{lemma_is_sorted_set, lemma_sorted_set_exists, lookup, sorted_set};
use index::{all_fit, fits, index_bytes, read_header, read_table, width_for, Builder, Writer};
use std::collections::VecDeque;
use tokio_util::codec::Encoder as _;
use unsigned_varint::codec::UviBytes;
use vstd::prelude::*;

verus! {

/// Compressed length that ends a frame.
pub const DEFAULT_FOREST_CAR_FRAME_SIZE: usize = 8192;

/// Compression level.
pub const DEFAULT_FOREST_CAR_COMPRESSION_LEVEL: u16 = 3;

/// Length of the header of a skippable frame.
pub const ZSTD_SKIP_FRAME_LEN: u64 = 8;

/// The longest body that a varint frame can have.
pub const MAX_VARINT_FRAME_BODY: usize = 134217728;

/// The bytes of the footer.
pub open spec fn footer_bytes(index: u64) -> Seq<u8> {
    seq![0x50u8, 0x2Au8, 0x4Du8, 0x18u8] + u32_le(8) + u64_le(index)
}

/// The end of an archive, a skippable frame that says where the index is.
#[derive(Debug, Clone, Copy, Eq, PartialEq)]
pub struct ForestCarFooter {
    pub index: u64,
}

impl ForestCarFooter {
    /// The footer as it appears on disk.
    pub fn to_le_bytes(&self) -> (r: [u8; 16])
        ensures
            r@ == footer_bytes(self.index),
    {
        let footer_data_len: u32 = 8;
        let mut data: Vec<u8> = Vec::new();
        // A skippable frame starts with a magic number and the length of its data
        write_skip_frame_header(&mut data, footer_data_len);
        // And then the metadata we want to store
        write_u64_le(&mut data, self.index);
        assert(data@ =~= footer_bytes(self.index));
        let mut buffer: [u8; 16] = [0u8; 16];
        let mut i: usize = 0;
        while i < 16
            invariant
                i <= 16,
                data.len() == 16,
                forall|k: int| 0 <= k < i ==> buffer@[k] == data@[k],
            decreases 16 - i,
        {
            buffer[i] = data[i];
            i += 1;
        }
        assert(buffer@ =~= data@);
        buffer
    }
}

/// A body with its length in front.
pub open spec fn varint_frame(body: Seq<u8>) -> Seq<u8> {
    uvarint(body.len()) + body
}

/// A body is read back from its varint frame.
pub proof fn lemma_varint_frame_reads_back(body: Seq<u8>)
    ensures
        read_uvarint(varint_frame(body)) == (body.len(), body),
        varint_frame(body).skip(varint_frame(body).len() - body.len()) == body,
{
    lemma_read_uvarint(body.len(), body);
    assert(varint_frame(body).skip(varint_frame(body).len() - body.len()) =~= body);
}

/// The footer is a skippable frame with eight bytes of data: the place of the
/// index, least significant byte first.
pub proof fn lemma_footer_places(index: u64)
    ensures
        ({
            let footer = footer_bytes(index);
            &&& footer.len() == 16
            &&& footer.take(8) == seq![0x50u8, 0x2A, 0x4D, 0x18, 8, 0, 0, 0]
            &&& u64_from_le(footer.skip(8)) == index
        }),
{
    lemma_u64_le_round_trip(index);
    assert(u32_le(8) =~= seq![8u8, 0, 0, 0]) by {
        let v = 8u32;
        assert(v as u8 == 8 && (v >> 8) as u8 == 0 && (v >> 16) as u8 == 0 && (v >> 24) as u8 == 0)
            by (bit_vector)
            requires
                v == 8u32,
        ;
    }
    assert(footer_bytes(index).take(8) =~= seq![0x50u8, 0x2A, 0x4D, 0x18, 8, 0, 0, 0]);
    assert(footer_bytes(index).skip(8) =~= u64_le(index));
}

/// A body with its length in front.
///
/// Calls `unsigned_varint::codec::UviBytes::encode`, with the default limit on
/// the length. The contract claims that it puts the length as a
/// variable-length integer before the body, and that it refuses a body that is
/// longer than the limit.
#[verifier::external_body]
fn encode_uvi_frame(body: Vec<u8>) -> (r: Option<Vec<u8>>)
    ensures
        r is Some <==> body.len() <= MAX_VARINT_FRAME_BODY,
        r matches Some(frame) ==> frame@ == varint_frame(body@),
{
    let mut frame = BytesMut::new();
    UviBytes::default().encode(Bytes::from(body), &mut frame).ok()?;
    Some(frame.to_vec())
}

/// Why there is no header frame.
#[derive(Debug)]
pub enum HeaderError {
    /// The encoder failed.
    Io(std::io::Error),
    /// The header does not fit into a varint frame.
    TooLong,
}

/// Why an archive could not be written.
#[derive(Debug)]
pub enum WriteError<E> {
    /// There is no header frame.
    Header(HeaderError),
    /// The stream of frames failed.
    Stream(E),
    /// The index does not fit into a skippable frame.
    IndexTooLong,
}

/// The encoded header of a CAR with the given roots.
pub open spec fn car_header(roots: Seq<Cid>) -> Seq<u8> {
    dag_cbor(header_value(roots, 1))
}

/// The compressed frame with the header of a CAR with the given roots.
pub open spec fn header_frame(roots: Seq<Cid>) -> Seq<u8> {
    zstd_frame(3, seq![Call::Write(varint_frame(car_header(roots)))])
}

/// The first frame of an archive, which holds the CARv1 header alone.
pub fn encode_header(roots: NonEmpty<Cid>) -> (r: Result<Vec<u8>, HeaderError>)
    ensures
        r matches Ok(bytes) ==> read_uvarint(zstd_decoded(bytes@)).1 == dag_cbor(
            header_value(roots@, 1),
        ),
        car_header(roots@).len() > MAX_VARINT_FRAME_BODY ==> r is Err,
        match r {
            Ok(bytes) => {
                &&& bytes@ == header_frame(roots@)
                &&& zstd_decoded(bytes@) == varint_frame(car_header(roots@))
            },
            Err(HeaderError::TooLong) => car_header(roots@).len() > MAX_VARINT_FRAME_BODY,
            Err(e) => e is Io,
        },
{
    let mut header_encoder = match new_encoder(3) {
        Ok(encoder) => encoder,
        Err(e) => return Err(HeaderError::Io(e)),
    };
    let header = CarV1Header { roots, version: 1 };
    proof {
        lemma_header_has_encoding(header.roots@, 1);
        lemma_varint_frame_reads_back(car_header(header.roots@));
    }
    let body = to_vec(&header.to_ipld());
    let header_uvi_frame = match encode_uvi_frame(body) {
        Some(frame) => frame,
        None => return Err(HeaderError::TooLong),
    };
    match encoder_write_all(&mut header_encoder, header_uvi_frame.as_slice()) {
        Ok(()) => {},
        Err(e) => return Err(HeaderError::Io(e)),
    }
    proof {
        let calls = seq![Call::Write(header_uvi_frame@)];
        assert(Seq::<Call>::empty().push(Call::Write(header_uvi_frame@)) =~= calls);
        assert(calls.drop_last() =~= Seq::empty());
        reveal_with_fuel(compress::written, 2);
        assert(compress::written(calls) =~= header_uvi_frame@);
    }
    match encoder_finish(header_encoder) {
        Ok(bytes) => Ok(bytes),
        Err(e) => Err(HeaderError::Io(e)),
    }
}

/// What the index of an archive holds: each identifier of each frame, with the
/// place where the frame starts. `start` is the place of the first frame.
pub open spec fn archive_entries(start: nat, frames: Seq<(Seq<CidView>, Seq<u8>)>) -> Seq<(u64, u64)>
    decreases frames.len(),
{
    if frames.len() == 0 {
        Seq::empty()
    } else {
        let before = frames.drop_last();
        archive_entries(start, before) + entries_at(frames.last().0, start + frames_len(before))
    }
}

/// The entries of a frame that starts at the given place.
pub open spec fn entries_at(cids: Seq<CidView>, offset: nat) -> Seq<(u64, u64)> {
    cids.map_values(|cid: CidView| (summarized(cid), offset as u64))
}

/// The length of all frames together.
pub open spec fn frames_len(frames: Seq<(Seq<CidView>, Seq<u8>)>) -> nat {
    frames_bytes(frames).len()
}

/// The frames one after the other.
pub open spec fn frames_bytes(frames: Seq<(Seq<CidView>, Seq<u8>)>) -> Seq<u8>
    decreases frames.len(),
{
    if frames.len() == 0 {
        Seq::empty()
    } else {
        frames_bytes(frames.drop_last()) + frames.last().1
    }
}

/// The bytes of the index for the given entries.
pub open spec fn index_of(raw: Seq<(u64, u64)>) -> Seq<u8> {
    index_bytes(sorted_set(raw), width_for(sorted_set(raw).len()))
}

/// What follows the frames of an archive: the index in a skippable frame, and
/// the footer. `offset` is where the frames end.
pub open spec fn trailer(offset: nat, raw: Seq<(u64, u64)>) -> Seq<u8> {
    skip_frame_header(index_of(raw).len() as u32) + index_of(raw) + footer_bytes(
        (offset + ZSTD_SKIP_FRAME_LEN) as u64,
    )
}

/// The bytes of an archive.
pub open spec fn archive_bytes(header: Seq<u8>, frames: Seq<(Seq<CidView>, Seq<u8>)>) -> Seq<u8> {
    header + frames_bytes(frames) + trailer(
        header.len() + frames_len(frames),
        archive_entries(header.len(), frames),
    )
}

/// Frames as plain values.
pub open spec fn frame_views(frames: Seq<(Vec<Cid>, Vec<u8>)>) -> Seq<(Seq<CidView>, Seq<u8>)> {
    frames.map_values(|frame: (Vec<Cid>, Vec<u8>)| (cid_views(frame.0@), frame.1@))
}

/// Keeps track of the frames of an archive while they are written.
pub struct Archive {
    offset: usize,
    builder: Builder,
}

impl Archive {
    /// The number of bytes so far.
    pub closed spec fn offset(self) -> nat {
        self.offset as nat
    }

    /// The entries of the index so far.
    pub closed spec fn entries(self) -> Seq<(u64, u64)> {
        self.builder@
    }

    /// An archive that holds a header of the given length.
    pub fn new(header_len: usize) -> (r: Self)
        ensures
            r.offset() == header_len,
            r.entries() == Seq::<(u64, u64)>::empty(),
    {
        Archive { offset: header_len, builder: Builder::new() }
    }

    /// Adds a frame: its identifiers are to be found where it starts.
    pub fn add_frame(&mut self, cids: Vec<Cid>, frame_len: usize)
        requires
            old(self).offset() + frame_len <= usize::MAX,
        ensures
            final(self).offset() == old(self).offset() + frame_len,
            final(self).entries() == old(self).entries() + entries_at(
                cid_views(cids@),
                old(self).offset(),
            ),
            final(self).entries().len() == old(self).entries().len() + cids.len(),
            forall|i: int|
                0 <= i < cids.len() ==> #[trigger] final(self).entries()[old(self).entries().len()
                    + i] == (summarized(cids@[i]@), old(self).offset() as u64),
    {
        let offset = self.offset as u64;
        let mut pairs: Vec<(Cid, u64)> = Vec::new();
        let mut i: usize = 0;
        while i < cids.len()
            invariant
                i <= cids.len(),
                pairs.len() == i,
                forall|k: int| 0 <= k < i ==> #[trigger] pairs@[k] == (cids@[k], offset),
            decreases cids.len() - i,
        {
            pairs.push((cids[i], offset));
            i += 1;
        }
        assert(index::summaries(pairs@) =~= entries_at(cid_views(cids@), old(self).offset()));
        self.builder.extend(pairs);
        self.offset = self.offset + frame_len;
    }

    /// Lays out the index. No frame can be added after that.
    pub fn seal(self) -> (r: SealedArchive)
        requires
            all_fit(self.entries()),
        ensures
            r.offset() == self.offset(),
            r.index() == index_of(self.entries()),
    {
        SealedArchive { offset: self.offset, writer: self.builder.into_writer() }
    }
}

/// An archive to which only the index and the footer are to be added.
pub struct SealedArchive {
    offset: usize,
    writer: Writer,
}

impl SealedArchive {
    /// The number of bytes so far.
    pub closed spec fn offset(self) -> nat {
        self.offset as nat
    }

    /// The bytes of the index.
    pub closed spec fn index(self) -> Seq<u8> {
        index_bytes(self.writer.entries(), self.writer.width())
    }

    /// Whether the index fits into a skippable frame, and its place into the
    /// footer.
    pub fn index_fits(&self) -> (r: bool)
        ensures
            r == (self.index().len() <= u32::MAX && self.offset() + ZSTD_SKIP_FRAME_LEN
                <= u64::MAX),
    {
        self.writer.written_len() <= u32::MAX as u64 && self.offset as u64 <= u64::MAX
            - ZSTD_SKIP_FRAME_LEN
    }

    /// Appends the index and the footer.
    pub fn write_trailer(self, sink: &mut Vec<u8>)
        requires
            self.index().len() <= u32::MAX,
            self.offset() + ZSTD_SKIP_FRAME_LEN <= u64::MAX,
        ensures
            final(sink)@ == old(sink)@ + skip_frame_header(self.index().len() as u32)
                + self.index() + footer_bytes((self.offset() + ZSTD_SKIP_FRAME_LEN) as u64),
    {
        let index_len = self.writer.written_len();
        write_skip_frame_header(sink, index_len as u32);
        self.writer.write_into(sink);
        // The footer is a valid zstd skip frame
        let footer = ForestCarFooter { index: self.offset as u64 + ZSTD_SKIP_FRAME_LEN };
        let bytes = footer.to_le_bytes();
        sink.extend_from_slice(bytes.as_slice());
    }
}

/// Writes archives.
pub struct Encoder {}

/// The number of identifiers in all frames.
pub open spec fn total_cids(frames: Seq<(Seq<CidView>, Seq<u8>)>) -> nat
    decreases frames.len(),
{
    if frames.len() == 0 {
        0
    } else {
        total_cids(frames.drop_last()) + frames.last().0.len()
    }
}

proof fn lemma_entries_len(start: nat, frames: Seq<(Seq<CidView>, Seq<u8>)>)
    ensures
        archive_entries(start, frames).len() == total_cids(frames),
    decreases frames.len(),
{
    if frames.len() > 0 {
        lemma_entries_len(start, frames.drop_last());
    }
}

/// Where frame `i` starts.
pub open spec fn frame_start(header: Seq<u8>, frames: Seq<(Seq<CidView>, Seq<u8>)>, i: int) -> nat {
    header.len() + frames_len(frames.take(i))
}

proof fn lemma_frames_bytes_at(frames: Seq<(Seq<CidView>, Seq<u8>)>, i: int)
    requires
        0 <= i < frames.len(),
    ensures
        frames_len(frames.take(i)) + frames[i].1.len() <= frames_len(frames),
        frames_bytes(frames).subrange(
            frames_len(frames.take(i)) as int,
            (frames_len(frames.take(i)) + frames[i].1.len()) as int,
        ) == frames[i].1,
    decreases frames.len(),
{
    let all = frames_bytes(frames);
    let init = frames_bytes(frames.drop_last());
    let from = frames_len(frames.take(i)) as int;
    let to = from + frames[i].1.len();
    if i < frames.len() - 1 {
        lemma_frames_bytes_at(frames.drop_last(), i);
        assert(frames.drop_last().take(i) =~= frames.take(i));
        assert(all.subrange(from, to) =~= init.subrange(from, to));
    } else {
        assert(frames.take(i) =~= frames.drop_last());
        assert(all.subrange(from, to) =~= frames[i].1);
    }
}

/// Each frame stands in the archive, whole, where it is said to start.
pub proof fn lemma_frame_in_archive(header: Seq<u8>, frames: Seq<(Seq<CidView>, Seq<u8>)>, i: int)
    requires
        0 <= i < frames.len(),
    ensures
        ({
            let start = frame_start(header, frames, i) as int;
            let end = start + frames[i].1.len();
            &&& end <= archive_bytes(header, frames).len()
            &&& archive_bytes(header, frames).subrange(start, end) == frames[i].1
        }),
{
    lemma_frames_bytes_at(frames, i);
    let start = frame_start(header, frames, i) as int;
    let end = start + frames[i].1.len();
    let body = frames_bytes(frames);
    assert(archive_bytes(header, frames).subrange(start, end) =~= body.subrange(
        start - header.len(),
        end - header.len(),
    ));
}

/// The entry for identifier `k` of frame `i`: its hash, and where the frame
/// starts.
pub open spec fn is_entry_for(
    entry: (u64, u64),
    header: Seq<u8>,
    frames: Seq<(Seq<CidView>, Seq<u8>)>,
    i: int,
    k: int,
) -> bool {
    &&& 0 <= i < frames.len()
    &&& 0 <= k < frames[i].0.len()
    &&& entry.0 == summarized(frames[i].0[k])
    &&& entry.1 == frame_start(header, frames, i) as u64
}

proof fn lemma_entry_for_prefix(
    entry: (u64, u64),
    header: Seq<u8>,
    frames: Seq<(Seq<CidView>, Seq<u8>)>,
    i: int,
    k: int,
)
    requires
        0 <= i < frames.len() - 1,
    ensures
        is_entry_for(entry, header, frames.drop_last(), i, k) == is_entry_for(
            entry,
            header,
            frames,
            i,
            k,
        ),
{
    assert(frames.drop_last().take(i) =~= frames.take(i));
}

/// The index of an archive holds an entry for each identifier of each frame,
/// with the place where the frame starts.
pub proof fn lemma_archive_entries_complete(
    entry: (u64, u64),
    header: Seq<u8>,
    frames: Seq<(Seq<CidView>, Seq<u8>)>,
    i: int,
    k: int,
)
    requires
        is_entry_for(entry, header, frames, i, k),
    ensures
        archive_entries(header.len(), frames).contains(entry),
    decreases frames.len(),
{
    let before = frames.drop_last();
    let earlier = archive_entries(header.len(), before);
    let added = entries_at(frames.last().0, header.len() + frames_len(before));
    let entries = archive_entries(header.len(), frames);
    assert(entries == earlier + added);
    if i < frames.len() - 1 {
        lemma_entry_for_prefix(entry, header, frames, i, k);
        lemma_archive_entries_complete(entry, header, before, i, k);
        let j = choose|j: int| 0 <= j < earlier.len() && earlier[j] == entry;
        assert(entries[j] == entry);
    } else {
        assert(frames.take(i) =~= before);
        assert(added[k] == entry);
        assert(entries[earlier.len() + k] == entry);
    }
}

/// The index of an archive holds no entry but those for the identifiers of its
/// frames.
pub proof fn lemma_archive_entries_sound(
    entry: (u64, u64),
    header: Seq<u8>,
    frames: Seq<(Seq<CidView>, Seq<u8>)>,
)
    requires
        archive_entries(header.len(), frames).contains(entry),
    ensures
        exists|i: int, k: int| #[trigger] is_entry_for(entry, header, frames, i, k),
    decreases frames.len(),
{
    let before = frames.drop_last();
    let n = frames.len() - 1;
    let earlier = archive_entries(header.len(), before);
    let added = entries_at(frames.last().0, header.len() + frames_len(before));
    let entries = archive_entries(header.len(), frames);
    let j = choose|j: int| 0 <= j < entries.len() && entries[j] == entry;
    assert(entries == earlier + added);
    if j < earlier.len() {
        assert(earlier[j] == entry);
        lemma_archive_entries_sound(entry, header, before);
        let (i, k) = choose|i: int, k: int| #[trigger]
            is_entry_for(entry, header, before, i, k);
        lemma_entry_for_prefix(entry, header, frames, i, k);
    } else {
        let k = j - earlier.len();
        assert(frames.take(n) =~= before);
        assert(added[k] == entry);
        assert(is_entry_for(entry, header, frames, n, k));
    }
}

/// The place that the last eight bytes of an archive name.
pub open spec fn read_index_offset(archive: Seq<u8>) -> int {
    u64_from_le(archive.subrange(archive.len() - 8, archive.len() as int)) as int
}

/// The bytes from that place to the footer.
pub open spec fn read_index(archive: Seq<u8>) -> Seq<u8> {
    archive.subrange(read_index_offset(archive), archive.len() - 16)
}

/// The last eight bytes of an archive are those of the index offset.
proof fn lemma_archive_end(front: Seq<u8>, index: Seq<u8>, header: Seq<u8>, at: u64)
    ensures
        ({
            let archive = front + (header + index + footer_bytes(at));
            archive.subrange(archive.len() - 8, archive.len() as int) == u64_le(at)
        }),
{
    let archive = front + (header + index + footer_bytes(at));
    let len = archive.len() as int;
    assert(u64_le(at).len() == 8);
    assert(footer_bytes(at).len() == 16);
    assert(footer_bytes(at).subrange(8, 16) =~= u64_le(at));
    assert(archive.subrange(len - 8, len) =~= footer_bytes(at).subrange(8, 16));
}

/// The index stands between the header of its frame and the footer.
proof fn lemma_archive_index(front: Seq<u8>, index: Seq<u8>, header: Seq<u8>, footer: Seq<u8>)
    requires
        footer.len() == 16,
    ensures
        ({
            let archive = front + (header + index + footer);
            archive.subrange((front.len() + header.len()) as int, archive.len() - 16) == index
        }),
{
    let archive = front + (header + index + footer);
    assert(archive.subrange((front.len() + header.len()) as int, archive.len() - 16) =~= index);
}

/// The last eight bytes of an archive say where its index is: between there and
/// the footer are the bytes of the index.
pub proof fn lemma_footer_locates_index(header: Seq<u8>, frames: Seq<(Seq<CidView>, Seq<u8>)>)
    requires
        header.len() + frames_len(frames) + ZSTD_SKIP_FRAME_LEN <= u64::MAX,
    ensures
        read_index_offset(archive_bytes(header, frames)) == header.len() + frames_len(frames)
            + ZSTD_SKIP_FRAME_LEN,
        read_index(archive_bytes(header, frames)) == index_of(
            archive_entries(header.len(), frames),
        ),
{
    let at = (header.len() + frames_len(frames) + ZSTD_SKIP_FRAME_LEN) as u64;
    let index = index_of(archive_entries(header.len(), frames));
    let front = header + frames_bytes(frames);
    let start = skip_frame_header(index.len() as u32);
    assert(archive_bytes(header, frames) == front + (start + index + footer_bytes(at)));
    assert(start.len() == ZSTD_SKIP_FRAME_LEN);
    assert(footer_bytes(at).len() == 16);
    lemma_u64_le_round_trip(at);
    lemma_archive_end(front, index, start, at);
    lemma_archive_index(front, index, start, footer_bytes(at));
}

/// The frames of an archive follow its header, one after the other.
pub proof fn lemma_frames_follow_header(
    header: Seq<u8>,
    frames: Seq<(Seq<CidView>, Seq<u8>)>,
    i: int,
)
    requires
        0 <= i < frames.len(),
    ensures
        archive_bytes(header, frames).take(header.len() as int) == header,
        frame_start(header, frames, 0) == header.len(),
        frame_start(header, frames, i + 1) == frame_start(header, frames, i) + frames[i].1.len(),
        archive_bytes(header, frames).subrange(
            frame_start(header, frames, i) as int,
            frame_start(header, frames, i + 1) as int,
        ) == frames[i].1,
{
    assert(archive_bytes(header, frames).take(header.len() as int) =~= header);
    assert(frames.take(0) =~= Seq::empty());
    assert(frames.take(i + 1).drop_last() =~= frames.take(i));
    assert(frames.take(i + 1).last() == frames[i]);
    lemma_frame_in_archive(header, frames, i);
}

/// Behind the last frame stand two skippable frames: the first holds the index
/// and says how long it is, the second is the footer.
pub proof fn lemma_archive_ends_in_skippable_frames(
    header: Seq<u8>,
    frames: Seq<(Seq<CidView>, Seq<u8>)>,
)
    requires
        index_of(archive_entries(header.len(), frames)).len() <= u32::MAX,
        header.len() + frames_len(frames) + 8 <= u64::MAX,
    ensures
        ({
            let archive = archive_bytes(header, frames);
            let index = index_of(archive_entries(header.len(), frames));
            let end = frame_start(header, frames, frames.len() as int) as int;
            let footer = end + 8 + index.len();
            &&& archive.len() == footer + 16
            &&& archive.subrange(end, end + 4) == seq![0x50u8, 0x2A, 0x4D, 0x18]
            &&& archive.subrange(end + 4, end + 8) == u32_le(index.len() as u32)
            &&& archive.subrange(end + 8, footer) == index
            &&& archive.subrange(footer, footer + 8) == seq![
                0x50u8,
                0x2A,
                0x4D,
                0x18,
                8,
                0,
                0,
                0,
            ]
            &&& u64_from_le(archive.subrange(footer + 8, footer + 16)) == end + 8
        }),
{
    let archive = archive_bytes(header, frames);
    let index = index_of(archive_entries(header.len(), frames));
    let front = header + frames_bytes(frames);
    let start = skip_frame_header(index.len() as u32);
    assert(frames.take(frames.len() as int) =~= frames);
    let end = front.len() as int;
    let at = (end + 8) as u64;
    let footer = end + 8 + index.len();
    assert(archive == front + (start + index + footer_bytes(at)));
    lemma_footer_places(at);
    assert(archive.subrange(end, end + 4) =~= seq![0x50u8, 0x2A, 0x4D, 0x18]);
    assert(archive.subrange(end + 4, end + 8) =~= u32_le(index.len() as u32));
    assert(archive.subrange(end + 8, footer) =~= index);
    assert(archive.subrange(footer, footer + 8) =~= footer_bytes(at).take(8));
    assert(archive.subrange(footer + 8, footer + 16) =~= footer_bytes(at).skip(8));
}

/// A block can be found again: the index of an archive, read from its bytes,
/// gives for the hash of an identifier exactly the places where frames start
/// that hold an identifier with that hash.
pub proof fn lemma_archive_lookup(
    header: Seq<u8>,
    frames: Seq<(Seq<CidView>, Seq<u8>)>,
    hash: u64,
    offset: u64,
)
    requires
        header.len() + frames_len(frames) + ZSTD_SKIP_FRAME_LEN <= u64::MAX,
        all_fit(archive_entries(header.len(), frames)),
    ensures
        ({
            let bytes = read_index(archive_bytes(header, frames));
            lookup(read_table(bytes), read_header(bytes).2 as int, hash).contains(offset)
        }) <==> exists|i: int, k: int| #[trigger]
            is_entry_for((hash, offset), header, frames, i, k),
        forall|i: int|
            0 <= i < frames.len() ==> #[trigger] frame_start(header, frames, i) <= u64::MAX,
{
    let raw = archive_entries(header.len(), frames);
    lemma_footer_locates_index(header, frames);
    let entries = lemma_sorted_set_exists(raw);
    lemma_is_sorted_set(entries, raw);
    assert forall|e: (u64, u64)| #[trigger] raw.contains(e) implies e.0 < u64::MAX by {
        lemma_archive_entries_sound(e, header, frames);
    }
    index::lemma_index_finds_exactly(raw, entries, hash, offset);
    if raw.contains((hash, offset)) {
        lemma_archive_entries_sound((hash, offset), header, frames);
    }
    if exists|i: int, k: int| #[trigger] is_entry_for((hash, offset), header, frames, i, k) {
        let (i, k) = choose|i: int, k: int| #[trigger]
            is_entry_for((hash, offset), header, frames, i, k);
        lemma_archive_entries_complete((hash, offset), header, frames, i, k);
    }
    assert forall|i: int| 0 <= i < frames.len() implies #[trigger] frame_start(header, frames, i)
        <= u64::MAX by {
        lemma_frames_bytes_at(frames, i);
    }
}

/// The values before the first error.
pub open spec fn leading<T, E>(items: Seq<Result<T, E>>) -> Seq<T>
    decreases items.len(),
{
    if items.len() == 0 {
        Seq::empty()
    } else {
        match items[0] {
            Ok(value) => seq![value] + leading(items.drop_first()),
            Err(_) => Seq::empty(),
        }
    }
}

/// The first error, if there is one.
pub open spec fn first_error<T, E>(items: Seq<Result<T, E>>) -> Option<E>
    decreases items.len(),
{
    if items.len() == 0 {
        None
    } else {
        match items[0] {
            Ok(_) => first_error(items.drop_first()),
            Err(e) => Some(e),
        }
    }
}

/// What comes before the first error is the start of the results as they are.
pub proof fn lemma_leading_is_start<T, E>(items: Seq<Result<T, E>>)
    ensures
        ({
            let n = leading(items).len() as int;
            &&& n <= items.len()
            &&& forall|i: int|
                0 <= i < n ==> #[trigger] items[i] == Ok::<T, E>(leading(items)[i])
            &&& match first_error(items) {
                Some(e) => n < items.len() && items[n] == Err::<T, E>(e),
                None => n == items.len(),
            }
        }),
    decreases items.len(),
{
    if items.len() > 0 && items[0] is Ok {
        let rest = items.drop_first();
        lemma_leading_is_start(rest);
        assert forall|i: int| 0 <= i < leading(items).len() implies #[trigger] items[i] == Ok::<
            T,
            E,
        >(leading(items)[i]) by {
            if i > 0 {
                assert(items[i] == rest[i - 1]);
            }
        }
    }
}

/// How writing an archive comes out, and what is added to the sink. The index
/// and the footer are added if all went well. If the stream of frames fails, the
/// header and the frames before the error are there and nothing else.
pub open spec fn is_written<E>(
    roots: Seq<Cid>,
    stream: Seq<Result<(Vec<Cid>, Vec<u8>), E>>,
    added: Seq<u8>,
    r: Result<(), WriteError<E>>,
) -> bool {
    let header = header_frame(roots);
    let frames = frame_views(leading(stream));
    let index = index_of(archive_entries(header.len(), frames));
    let index_fits = index.len() <= u32::MAX && header.len() + frames_len(frames)
        + ZSTD_SKIP_FRAME_LEN <= u64::MAX;
    &&& car_header(roots).len() > MAX_VARINT_FRAME_BODY ==> (r matches Err(WriteError::Header(_)))
    &&& match r {
        Err(WriteError::Header(e)) => {
            &&& added == Seq::<u8>::empty()
            &&& e is TooLong ==> car_header(roots).len() > MAX_VARINT_FRAME_BODY
        },
        Err(WriteError::Stream(e)) => {
            &&& first_error(stream) == Some(e)
            &&& added == header + frames_bytes(frames)
        },
        Err(WriteError::IndexTooLong) => {
            &&& first_error(stream) is None
            &&& !index_fits
            &&& added == header + frames_bytes(frames)
        },
        Ok(()) => {
            &&& first_error(stream) is None
            &&& index_fits
            &&& added == archive_bytes(header, frames)
        },
    }
    &&& !(r matches Err(WriteError::Header(_))) ==> zstd_decoded(header) == varint_frame(
        car_header(roots),
    )
}

/// An archive that was written serves its readers. It starts with the header,
/// which decompresses to the roots and the version in a varint frame. Every frame
/// of the stream stands in it, and the index leads from every identifier that the
/// frame lists to the place where the frame starts.
pub proof fn lemma_written_archive<E>(
    roots: Seq<Cid>,
    stream: Seq<Result<(Vec<Cid>, Vec<u8>), E>>,
    archive: Seq<u8>,
    i: int,
    k: int,
)
    requires
        is_written(roots, stream, archive, Ok::<(), WriteError<E>>(())),
        fits(total_cids(frame_views(leading(stream)))),
        0 <= i < stream.len(),
        stream[i] matches Ok((cids, _)) && 0 <= k < cids.len(),
    ensures
        ({
            let (cids, frame) = stream[i]->Ok_0;
            let hash = summarized(cids@[k]@);
            let index = archive.subrange(
                u64_from_le(archive.skip(archive.len() - 8)) as int,
                archive.len() - 16,
            );
            let header = header_value(roots, 1);
            let header_len = header_frame(roots).len() as int;
            &&& header_len <= archive.len()
            &&& read_uvarint(zstd_decoded(archive.take(header_len))).1 == dag_cbor(header)
            &&& exists|at: u64|
                {
                    &&& at + frame.len() <= archive.len()
                    &&& #[trigger] archive.subrange(at as int, at + frame.len()) == frame@
                    &&& lookup(read_table(index), read_header(index).2 as int, hash).contains(at)
                }
        }),
{
    let header = header_frame(roots);
    let frames = frame_views(leading(stream));
    let (cids, frame) = stream[i]->Ok_0;
    let hash = summarized(cids@[k]@);
    lemma_leading_is_start(stream);
    assert(leading(stream)[i] == stream[i]->Ok_0);
    assert(frames[i] == (cid_views(cids@), frame@));
    assert(cid_views(cids@)[k] == cids@[k]@);
    lemma_entries_len(header.len(), frames);
    lemma_frames_follow_header(header, frames, i);
    lemma_frame_in_archive(header, frames, i);
    lemma_varint_frame_reads_back(car_header(roots));
    let at = frame_start(header, frames, i) as u64;
    lemma_archive_lookup(header, frames, hash, at);
    assert(is_entry_for((hash, at), header, frames, i, k));
    lemma_footer_locates_index(header, frames);
    assert(archive.skip(archive.len() - 8) =~= archive.subrange(
        archive.len() - 8,
        archive.len() as int,
    ));
    assert(archive.subrange(at as int, at + frame.len()) == frame@);
}

impl Encoder {
    /// Appends an archive with the given roots and frames. At the first error of
    /// the stream nothing more is written.
    pub fn write<E>(
        sink: &mut Vec<u8>,
        roots: NonEmpty<Cid>,
        stream: Vec<Result<(Vec<Cid>, Vec<u8>), E>>,
    ) -> (r: Result<(), WriteError<E>>)
        requires
            fits(total_cids(frame_views(leading(stream@)))),
        ensures
            final(sink)@.take(old(sink).len() as int) == old(sink)@,
            is_written(roots@, stream@, final(sink)@.skip(old(sink).len() as int), r),
    {
        let ghost before = sink@;
        let ghost header = header_frame(roots@);
        let ghost all = stream@;
        let ghost views = frame_views(leading(all));
        let ghost mut done: Seq<(Seq<CidView>, Seq<u8>)> = Seq::empty();
        assert(sink@.take(before.len() as int) =~= before);
        assert(sink@.skip(before.len() as int) =~= Seq::empty());
        // Write CARv1 header
        let header_bytes = match encode_header(roots) {
            Ok(bytes) => bytes,
            Err(e) => return Err(WriteError::Header(e)),
        };
        sink.extend_from_slice(header_bytes.as_slice());
        // Write seekable zstd and collect a mapping of CIDs to frame offsets.
        let mut archive = Archive::new(header_bytes.len());
        let mut items = queue(stream);
        let ghost mut rest = all;
        assert(sink@ =~= before + (header + frames_bytes(done)));
        assert(done + frame_views(leading(rest)) =~= views);
        loop
            invariant
                items@ == rest,
                header == header_frame(roots@),
                views == frame_views(leading(all)),
                sink@ == before + (header + frames_bytes(done)),
                archive.offset() == header.len() + frames_len(done),
                archive.entries() == archive_entries(header.len(), done),
                views == done + frame_views(leading(rest)),
                first_error(all) == first_error(rest),
                zstd_decoded(header) == varint_frame(car_header(roots@)),
                car_header(roots@).len() <= MAX_VARINT_FRAME_BODY,
                before == old(sink)@,
                all == stream@,
            ensures
                done == views,
                first_error(all) is None,
            decreases rest.len(),
        {
            match items.pop_front() {
                None => {
                    assert(done + frame_views(leading(rest)) =~= done);
                    break;
                },
                Some(Err(e)) => {
                    proof {
                        assert(done + frame_views(leading(rest)) =~= done);
                        lemma_appended(before, header + frames_bytes(done));
                    }
                    return Err(WriteError::Stream(e));
                },
                Some(Ok((cids, zstd_frame))) => {
                    let ghost view = (cid_views(cids@), zstd_frame@);
                    proof {
                        let tail = rest.drop_first();
                        assert(frame_views(leading(rest)) =~= seq![view] + frame_views(
                            leading(tail),
                        ));
                        assert(done + frame_views(leading(rest)) =~= done.push(view)
                            + frame_views(leading(tail)));
                        assert(done.push(view).drop_last() =~= done);
                        rest = tail;
                        done = done.push(view);
                    }
                    sink.extend_from_slice(zstd_frame.as_slice());
                    assert(sink@ =~= before + (header + frames_bytes(done)));
                    let end = sink.len();
                    assert(end == before.len() + archive.offset() + zstd_frame.len());
                    archive.add_frame(cids, zstd_frame.len());
                },
            }
        }
        proof {
            lemma_entries_len(header.len(), views);
            lemma_appended(before, header + frames_bytes(views));
        }
        // Create index
        let sealed = archive.seal();
        if !sealed.index_fits() {
            return Err(WriteError::IndexTooLong);
        }
        sealed.write_trailer(sink);
        proof {
            assert(sink@ =~= before + archive_bytes(header, views));
            lemma_appended(before, archive_bytes(header, views));
        }
        Ok(())
    }

    /// [`Encoder::compress_stream`] with [`DEFAULT_FOREST_CAR_FRAME_SIZE`] as
    /// default frame size and [`DEFAULT_FOREST_CAR_COMPRESSION_LEVEL`] as
    /// default compression level.
    pub fn compress_stream_default<E>(stream: Vec<Result<CarBlock, E>>) -> (r: Result<
        Vec<Result<(Vec<Cid>, Vec<u8>), E>>,
        CompressFailure<E>,
    >)
        requires
            compressible(stream@),
        ensures
            is_compressed(8192, 3, stream@, r),
    {
        Self::compress_stream(
            DEFAULT_FOREST_CAR_FRAME_SIZE,
            DEFAULT_FOREST_CAR_COMPRESSION_LEVEL,
            stream,
        )
    }

    /// The frames into which a stream of blocks is compressed, each with the
    /// identifiers of its blocks. Errors of the stream are passed through, and
    /// leave the frames as they are. If the encoder fails, what came out up to
    /// there is given back with its error.
    pub fn compress_stream<E>(
        zstd_frame_size_tripwire: usize,
        zstd_compression_level: u16,
        stream: Vec<Result<CarBlock, E>>,
    ) -> (r: Result<Vec<Result<(Vec<Cid>, Vec<u8>), E>>, CompressFailure<E>>)
        requires
            compressible(stream@),
        ensures
            is_compressed(
                zstd_frame_size_tripwire as int,
                zstd_compression_level as int,
                stream@,
                r,
            ),
    {
        let ghost level = zstd_compression_level as int;
        let ghost tripwire = zstd_frame_size_tripwire as int;
        let ghost all = stream@;
        let ghost parts = split_stream(level, tripwire, Seq::empty(), all);
        let mut out: Vec<Result<(Vec<Cid>, Vec<u8>), E>> = Vec::new();
        let mut compressor = FrameCompressor::new(zstd_frame_size_tripwire, zstd_compression_level);
        let ghost mut pending: Seq<CarBlockView> = Seq::empty();
        let ghost mut done: Seq<Result<Seq<CarBlockView>, E>> = Seq::empty();
        let mut items = queue(stream);
        let ghost mut rest = all;
        assert(done + parts =~= parts);
        loop
            invariant
                items@ == rest,
                compressible(rest),
                level == zstd_compression_level,
                tripwire == zstd_frame_size_tripwire,
                all == stream@,
                parts == split_stream(level, tripwire, Seq::empty(), all),
                compressor.level() == level,
                compressor.tripwire() == tripwire,
                compressor.failure() is None ==> compressor.holds(pending),
                compressor.failure() matches Some(e) ==> e is Io,
                are_items_of(out@, level, done),
                parts == done + split_stream(level, tripwire, pending, rest),
                tripwire == 0 ==> pending.len() <= 1 && one_block_each(done),
            ensures
                are_items_of(out@, level, parts),
                tripwire == 0 ==> one_block_each(parts),
            decreases rest.len(), pending.len(),
        {
            assert(parts.take(done.len() as int) =~= done);
            match compressor.poll_frame() {
                Step::Failed(error) => return Err(CompressFailure { items: out, error }),
                Step::Frame(cids, frame) => {
                    out.push(Ok((cids, frame)));
                    proof {
                        let part: Result<Seq<CarBlockView>, E> = Ok(pending);
                        let later = split_stream(level, tripwire, Seq::empty(), rest);
                        assert(done + (seq![part] + later) =~= done.push(part) + later);
                        done = done.push(part);
                        pending = Seq::empty();
                    }
                },
                // No frame to emit, let's get another block
                Step::NeedBlock => {
                    let ghost tail = if rest.len() > 0 {
                        rest.drop_first()
                    } else {
                        rest
                    };
                    match compressor.take_item(items.pop_front()) {
                        Taken::Block => {
                            proof {
                                pending = pending.push(rest[0]->Ok_0@);
                                rest = tail;
                            }
                        },
                        Taken::Passed(e) => {
                            out.push(Err(e));
                            proof {
                                let part: Result<Seq<CarBlockView>, E> = Err(e);
                                let later = split_stream(level, tripwire, pending, tail);
                                assert(done + (seq![part] + later) =~= done.push(part) + later);
                                done = done.push(part);
                                rest = tail;
                            }
                        },
                        // There was something left in the zstd buffer.
                        Taken::Frame(cids, frame) => {
                            out.push(Ok((cids, frame)));
                            proof {
                                let part: Result<Seq<CarBlockView>, E> = Ok(pending);
                                assert(done.push(part) + split_stream(
                                    level,
                                    tripwire,
                                    Seq::empty(),
                                    rest,
                                ) =~= done + seq![part]);
                                done = done.push(part);
                                pending = Seq::empty();
                            }
                        },
                        // Otherwise we're all done.
                        Taken::Done => {
                            assert(done + split_stream(level, tripwire, pending, rest) =~= done);
                            break;
                        },
                        Taken::Failed(error) => {
                            return Err(CompressFailure { items: out, error });
                        },
                    }
                },
            }
        }
        proof {
            lemma_compressed(tripwire, level, all, out@);
        }
        Ok(out)
    }
}

/// What came out before the encoder failed, and why it did.
#[derive(Debug)]
pub struct CompressFailure<E> {
    pub items: Vec<Result<(Vec<Cid>, Vec<u8>), E>>,
    pub error: CompressError,
}

/// The length of each block of the stream is a machine number.
pub open spec fn compressible<E>(stream: Seq<Result<CarBlock, E>>) -> bool {
    forall|i: int|
        0 <= i < stream.len() ==> ((#[trigger] stream[i]) matches Ok(block) ==> body_len(block@)
            <= usize::MAX)
}

/// How the compression of a stream comes out. Frames and errors are those of the
/// split, or as many of them as came out before the encoder failed. So the
/// frames are those of the blocks alone, and the errors are those of the stream.
/// Every frame but the last is longer than the tripwire, and with a tripwire of
/// zero each block has a frame of its own.
pub open spec fn is_compressed<E>(
    tripwire: int,
    level: int,
    stream: Seq<Result<CarBlock, E>>,
    r: Result<Vec<Result<(Vec<Cid>, Vec<u8>), E>>, CompressFailure<E>>,
) -> bool {
    let parts = split_stream(level, tripwire, Seq::empty(), stream);
    let blocks = block_views(oks(stream));
    match r {
        Ok(items) => {
            &&& are_items_of(items@, level, parts)
            &&& errors(items@) == errors(stream)
            &&& is_framing(tripwire, level, blocks, oks(items@))
        },
        Err(failure) => {
            &&& failure.items.len() <= parts.len()
            &&& are_items_of(failure.items@, level, parts.take(failure.items.len() as int))
            &&& failure.error is Io
        },
    }
}

/// The frames are those into which the blocks are split.
pub open spec fn is_framing(
    tripwire: int,
    level: int,
    blocks: Seq<CarBlockView>,
    frames: Seq<(Vec<Cid>, Vec<u8>)>,
) -> bool {
    &&& are_frames_of(frames, level, split(level, tripwire, Seq::empty(), blocks))
    &&& forall|i: int| 0 <= i < frames.len() - 1 ==> (#[trigger] frames[i]).1.len() > tripwire
    &&& tripwire == 0 ==> frames.len() == blocks.len() && forall|i: int|
        0 <= i < frames.len() ==> (#[trigger] frames[i]).0.len() == 1
}

/// The frames hold the given groups of blocks, one each.
pub open spec fn are_frames_of(
    frames: Seq<(Vec<Cid>, Vec<u8>)>,
    level: int,
    groups: Seq<Seq<CarBlockView>>,
) -> bool {
    &&& frames.len() == groups.len()
    &&& forall|i: int| 0 <= i < frames.len() ==> is_frame_of(#[trigger] frames[i], level, groups[i])
}

/// A frame for each group of blocks, and the errors among them as they are.
pub open spec fn are_items_of<E>(
    items: Seq<Result<(Vec<Cid>, Vec<u8>), E>>,
    level: int,
    parts: Seq<Result<Seq<CarBlockView>, E>>,
) -> bool {
    &&& items.len() == parts.len()
    &&& forall|i: int|
        0 <= i < items.len() ==> match #[trigger] items[i] {
            Ok(frame) => parts[i] matches Ok(group) && is_frame_of(frame, level, group),
            Err(e) => parts[i] matches Err(given) && given == e,
        }
}

/// Every frame is for one block.
spec fn one_block_each<E>(parts: Seq<Result<Seq<CarBlockView>, E>>) -> bool {
    forall|k: int|
        0 <= k < parts.len() ==> ((#[trigger] parts[k]) matches Ok(group) ==> group.len() == 1)
}

proof fn lemma_items_apart<E>(
    items: Seq<Result<(Vec<Cid>, Vec<u8>), E>>,
    level: int,
    parts: Seq<Result<Seq<CarBlockView>, E>>,
)
    requires
        are_items_of(items, level, parts),
    ensures
        are_frames_of(oks(items), level, oks(parts)),
        errors(items) == errors(parts),
    decreases items.len(),
{
    if items.len() > 0 {
        let (a, b) = (items.drop_first(), parts.drop_first());
        assert forall|i: int| 0 <= i < a.len() implies match #[trigger] a[i] {
            Ok(frame) => b[i] matches Ok(group) && is_frame_of(frame, level, group),
            Err(e) => b[i] matches Err(given) && given == e,
        } by {
            assert(a[i] == items[i + 1]);
        }
        lemma_items_apart(a, level, b);
        assert(items[0] is Ok == parts[0] is Ok);
        if items[0] is Ok {
            assert(oks(items) == seq![items[0]->Ok_0] + oks(a));
            assert(oks(parts) == seq![parts[0]->Ok_0] + oks(b));
        }
    }
}

proof fn lemma_compressed<E>(
    tripwire: int,
    level: int,
    stream: Seq<Result<CarBlock, E>>,
    items: Seq<Result<(Vec<Cid>, Vec<u8>), E>>,
)
    requires
        are_items_of(items, level, split_stream(level, tripwire, Seq::empty(), stream)),
        tripwire == 0 ==> one_block_each(split_stream(level, tripwire, Seq::empty(), stream)),
    ensures
        errors(items) == errors(stream),
        is_framing(tripwire, level, block_views(oks(stream)), oks(items)),
{
    let parts = split_stream(level, tripwire, Seq::empty(), stream);
    let blocks = block_views(oks(stream));
    let groups = split(level, tripwire, Seq::empty(), blocks);
    let frames = oks(items);
    lemma_items_apart(items, level, parts);
    lemma_errors_leave_frames(level, tripwire, Seq::empty(), stream);
    assert forall|k: int| 0 <= k < frames.len() - 1 implies (#[trigger] frames[k]).1.len()
        > tripwire by {
        lemma_split_is_greedy(level, tripwire, Seq::empty(), blocks, k);
        assert(is_frame_of(frames[k], level, groups[k]));
    }
    if tripwire == 0 {
        assert forall|k: int| 0 <= k < groups.len() implies (#[trigger] groups[k]).len() == 1 by {
            lemma_oks_among(parts, k);
        }
        lemma_split_keeps_blocks(level, tripwire, Seq::empty(), blocks);
        assert(Seq::<CarBlockView>::empty() + blocks =~= blocks);
        lemma_single_blocks(groups);
        assert forall|k: int| 0 <= k < frames.len() implies (#[trigger] frames[k]).0.len()
            == 1 by {
            assert(is_frame_of(frames[k], level, groups[k]));
            assert(cid_views(frames[k].0@).len() == block_cids(groups[k]).len());
        }
    }
}

/// What a compressed stream gives back: decompressing the frames and reading
/// the outcome as a CAR body gives all blocks of the stream, in order, with their
/// data as it was. A frame by itself gives the blocks whose identifiers it lists.
pub proof fn lemma_compressed_reads_back<E>(
    tripwire: int,
    level: int,
    stream: Seq<Result<CarBlock, E>>,
    items: Vec<Result<(Vec<Cid>, Vec<u8>), E>>,
)
    requires
        is_compressed(
            tripwire,
            level,
            stream,
            Ok::<Vec<Result<(Vec<Cid>, Vec<u8>), E>>, CompressFailure<E>>(items),
        ),
        forall|i: int| 0 <= i < oks(stream).len() ==> (#[trigger] oks(stream)[i]).cid@.valid(),
    ensures
        ({
            let frames = oks(items@);
            let bytes = frames.map_values(|frame: (Vec<Cid>, Vec<u8>)| frame.1@);
            let blocks = read_blocks(decoded_frames(bytes));
            &&& blocks.len() == oks(stream).len()
            &&& forall|i: int|
                0 <= i < blocks.len() ==> (#[trigger] blocks[i]).cid == oks(stream)[i].cid@
                    && blocks[i].data == oks(stream)[i].data@
            &&& forall|k: int|
                0 <= k < frames.len() ==> #[trigger] lists_its_blocks(frames[k].0@, frames[k].1@)
        }),
{
    let frames = oks(items@);
    let bytes = frames.map_values(|frame: (Vec<Cid>, Vec<u8>)| frame.1@);
    let blocks = block_views(oks(stream));
    let groups = split(level, tripwire, Seq::empty(), blocks);
    assert forall|i: int| 0 <= i < blocks.len() implies (#[trigger] blocks[i]).cid.valid() by {
        assert(oks(stream)[i].cid@.valid());
    }
    assert forall|k: int| 0 <= k < bytes.len() implies zstd_decoded(#[trigger] bytes[k])
        == block_frames(groups[k]) by {
        assert(is_frame_of(frames[k], level, groups[k]));
    }
    lemma_frames_decode_to_blocks(bytes, groups);
    lemma_split_keeps_blocks(level, tripwire, Seq::empty(), blocks);
    assert(Seq::<CarBlockView>::empty() + blocks =~= blocks);
    lemma_read_blocks(blocks);
    assert forall|k: int| 0 <= k < frames.len() implies #[trigger] lists_its_blocks(
        frames[k].0@,
        frames[k].1@,
    ) by {
        assert(is_frame_of(frames[k], level, groups[k]));
        assert forall|i: int| 0 <= i < groups[k].len() implies (
        #[trigger] groups[k][i]).cid.valid() by {
            lemma_block_of_group(groups, k, i);
            assert(blocks.contains(groups[k][i]));
        }
        lemma_read_blocks(groups[k]);
        let (cids, group) = (frames[k].0@, groups[k]);
        assert(cids.len() == cid_views(cids).len() && group.len() == block_cids(group).len());
        assert forall|i: int| 0 <= i < cids.len() implies (#[trigger] cids[i])@
            == group[i].cid by {
            assert(cid_views(cids)[i] == block_cids(group)[i]);
        }
    }
}

/// Where the encoder fails, nothing is lost of what came out before: the errors
/// are the first of those of the stream, and the frames decompress to the first
/// of its blocks.
pub proof fn lemma_failure_keeps_start<E>(
    tripwire: int,
    level: int,
    stream: Seq<Result<CarBlock, E>>,
    failure: CompressFailure<E>,
)
    requires
        is_compressed(
            tripwire,
            level,
            stream,
            Err::<Vec<Result<(Vec<Cid>, Vec<u8>), E>>, CompressFailure<E>>(failure),
        ),
        forall|i: int| 0 <= i < oks(stream).len() ==> (#[trigger] oks(stream)[i]).cid@.valid(),
    ensures
        ({
            let frames = oks(failure.items@);
            let bytes = frames.map_values(|frame: (Vec<Cid>, Vec<u8>)| frame.1@);
            let blocks = read_blocks(decoded_frames(bytes));
            &&& errors(failure.items@).is_prefix_of(errors(stream))
            &&& blocks.len() <= oks(stream).len()
            &&& forall|i: int|
                0 <= i < blocks.len() ==> (#[trigger] blocks[i]).cid == oks(stream)[i].cid@
                    && blocks[i].data == oks(stream)[i].data@
        }),
{
    let n = failure.items.len() as int;
    let parts = split_stream(level, tripwire, Seq::empty(), stream);
    let (done, later) = (parts.take(n), parts.skip(n));
    let blocks = block_views(oks(stream));
    let groups = split(level, tripwire, Seq::empty(), blocks);
    let frames = oks(failure.items@);
    let bytes = frames.map_values(|frame: (Vec<Cid>, Vec<u8>)| frame.1@);
    assert(parts =~= done + later);
    lemma_results_told_apart(done, later);
    lemma_errors_leave_frames(level, tripwire, Seq::empty(), stream);
    lemma_items_apart(failure.items@, level, done);
    let some = oks(done);
    assert forall|k: int| 0 <= k < bytes.len() implies zstd_decoded(#[trigger] bytes[k])
        == block_frames(some[k]) by {
        assert(is_frame_of(frames[k], level, some[k]));
    }
    lemma_frames_decode_to_blocks(bytes, some);
    lemma_split_keeps_blocks(level, tripwire, Seq::empty(), blocks);
    assert(Seq::<CarBlockView>::empty() + blocks =~= blocks);
    lemma_flatten_start(some, oks(later));
    assert(groups == some + oks(later));
    let first = some.flatten();
    assert forall|i: int| 0 <= i < first.len() implies first[i] == blocks[i] && (
    #[trigger] first[i]).cid.valid() by {
        assert(blocks[i] == oks(stream)[i]@);
        assert(oks(stream)[i].cid@.valid());
    }
    lemma_read_blocks(first);
}

proof fn lemma_flatten_start(a: Seq<Seq<CarBlockView>>, b: Seq<Seq<CarBlockView>>)
    ensures
        (a + b).flatten() == a.flatten() + b.flatten(),
    decreases a.len(),
{
    if a.len() == 0 {
        assert(a + b =~= b);
        assert(a.flatten() + b.flatten() =~= b.flatten());
    } else {
        let rest = a.drop_first();
        lemma_flatten_start(rest, b);
        assert((a + b).drop_first() =~= rest + b);
        assert((a + b).flatten() =~= a.flatten() + b.flatten());
    }
}

/// The listed identifiers are those of the blocks that the frame decompresses
/// to, in order.
pub open spec fn lists_its_blocks(cids: Seq<Cid>, frame: Seq<u8>) -> bool {
    let blocks = read_blocks(zstd_decoded(frame));
    &&& cids.len() == blocks.len()
    &&& forall|i: int| 0 <= i < cids.len() ==> (#[trigger] cids[i])@ == blocks[i].cid
}

proof fn lemma_block_of_group(groups: Seq<Seq<CarBlockView>>, k: int, i: int)
    requires
        0 <= k < groups.len(),
        0 <= i < groups[k].len(),
    ensures
        groups.flatten().contains(groups[k][i]),
    decreases groups.len(),
{
    let all = groups.flatten();
    let rest = groups.drop_first();
    assert(all =~= groups[0] + rest.flatten());
    if k == 0 {
        assert(all[i] == groups[k][i]);
    } else {
        lemma_block_of_group(rest, k - 1, i);
        let j = choose|j: int|
            0 <= j < rest.flatten().len() && rest.flatten()[j] == groups[k][i];
        assert(all[groups[0].len() + j] == groups[k][i]);
    }
}

/// Errors of a stream change nothing of its frames: where the encoder works, the
/// frames are those of the same blocks without the errors.
pub proof fn lemma_frames_ignore_errors<E>(
    tripwire: int,
    level: int,
    stream: Seq<Result<CarBlock, E>>,
    blocks: Seq<Result<CarBlock, E>>,
    r: Result<Vec<Result<(Vec<Cid>, Vec<u8>), E>>, CompressFailure<E>>,
    s: Result<Vec<Result<(Vec<Cid>, Vec<u8>), E>>, CompressFailure<E>>,
)
    requires
        oks(stream) == oks(blocks),
        is_compressed(tripwire, level, stream, r),
        is_compressed(tripwire, level, blocks, s),
        r is Ok,
        s is Ok,
    ensures
        frame_views(oks(r->Ok_0@)) == frame_views(oks(s->Ok_0@)),
        errors(r->Ok_0@) == errors(stream),
{
    let (a, b) = (oks(r->Ok_0@), oks(s->Ok_0@));
    let groups = split(level, tripwire, Seq::empty(), block_views(oks(stream)));
    assert forall|i: int| 0 <= i < a.len() implies frame_views(a)[i] == frame_views(b)[i] by {
        assert(is_frame_of(a[i], level, groups[i]));
        assert(is_frame_of(b[i], level, groups[i]));
    }
    assert(frame_views(a) =~= frame_views(b));
}

/// The same values, to be taken from the front.
fn queue<T>(values: Vec<T>) -> (r: VecDeque<T>)
    ensures
        r@ == values@,
{
    let mut queue: VecDeque<T> = VecDeque::new();
    for value in it: values.into_iter()
        invariant
            it.seq() == values@,
            queue@ == values@.take(it.index()),
    {
        queue.push_back(value);
        assert(values@.take(it.index() + 1) =~= values@.take(it.index()).push(value));
    }
    assert(values@.take(values@.len() as int) =~= values@);
    queue
}

proof fn lemma_appended(before: Seq<u8>, added: Seq<u8>)
    ensures
        (before + added).take(before.len() as int) == before,
        (before + added).skip(before.len() as int) == added,
{
    assert((before + added).take(before.len() as int) =~= before);
    assert((before + added).skip(before.len() as int) =~= added);
}

} // verus!
