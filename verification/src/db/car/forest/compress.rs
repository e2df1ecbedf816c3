//! Compression of blocks into zstd frames.
//!
//! Blocks go into one frame until the compressed length exceeds a tripwire;
//! then the frame is finished and the next block starts another one. No block
//! spans two frames. A stream of blocks can have errors in it, which are passed
//! on and leave the frames as they are.

use crate::utils::cid::{cid_views, Cid, CidView};
use crate::utils::db::car_stream::{
    block_frame, body_len, lemma_block_frame_prefix_free, lemma_read_block, read_block, CarBlock,
    CarBlockView,
};
use bytes::{buf::Writer, BufMut, BytesMut};
use std::io::Write;
use vstd::prelude::*;

verus! {

/// `std::io::Error`, which is only passed on.
#[verifier::external_type_specification]
#[verifier::external_body]
pub struct ExIoError(std::io::Error);

/// A `zstd::Encoder` that writes to memory. What is known of it are its
/// [level](encoder_level) and the [calls](encoder_calls) made on it.
#[verifier::external_body]
pub struct ZstdEncoder {
    inner: zstd::Encoder<'static, Writer<BytesMut>>,
}

/// A call that was made on an encoder.
pub enum Call {
    Write(Seq<u8>),
    Flush,
}

/// The compression level that an encoder was made with.
pub uninterp spec fn encoder_level(encoder: ZstdEncoder) -> int;

/// The calls that were made on an encoder so far.
pub uninterp spec fn encoder_calls(encoder: ZstdEncoder) -> Seq<Call>;

/// The number of bytes that an encoder of the given level has put out after the
/// given calls.
pub uninterp spec fn zstd_len(level: int, calls: Seq<Call>) -> nat;

/// The finished frame of an encoder of the given level after the given calls.
pub uninterp spec fn zstd_frame(level: int, calls: Seq<Call>) -> Seq<u8>;

/// What decompressing a frame gives.
pub uninterp spec fn zstd_decoded(frame: Seq<u8>) -> Seq<u8>;

/// All that was written, in order.
pub open spec fn written(calls: Seq<Call>) -> Seq<u8>
    decreases calls.len(),
{
    if calls.len() == 0 {
        Seq::empty()
    } else {
        match calls.last() {
            Call::Write(bytes) => written(calls.drop_last()) + bytes,
            Call::Flush => written(calls.drop_last()),
        }
    }
}

/// An encoder that has put out nothing yet.
///
/// Calls `zstd::Encoder::new` on an empty buffer. The contract claims that the
/// encoder, if there is one, has the given level and no calls behind it.
#[verifier::external_body]
pub(crate) fn new_encoder(zstd_compression_level: u16) -> (r: Result<ZstdEncoder, std::io::Error>)
    ensures
        r matches Ok(encoder) ==> encoder_level(encoder) == zstd_compression_level
            && encoder_calls(encoder) == Seq::<Call>::empty(),
{
    let inner = zstd::Encoder::new(BytesMut::new().writer(), i32::from(zstd_compression_level))?;
    Ok(ZstdEncoder { inner })
}

/// The number of bytes that the encoder has put out.
///
/// Calls `zstd::Encoder::get_ref`, for the buffer that the encoder writes to,
/// and takes its length. The contract names the length as a function of the
/// level and the calls. It claims that nothing is put out before the first
/// call, and that something is once a flush has followed what was written.
#[verifier::external_body]
fn compressed_len(encoder: &ZstdEncoder) -> (r: usize)
    ensures
        r == zstd_len(encoder_level(*encoder), encoder_calls(*encoder)),
        encoder_calls(*encoder).len() == 0 ==> r == 0,
        encoder_calls(*encoder).len() > 0 && encoder_calls(*encoder).last() == Call::Flush
            && written(encoder_calls(*encoder)).len() > 0 ==> r > 0,
{
    encoder.inner.get_ref().get_ref().len()
}

/// Compresses some bytes.
///
/// Calls `write_all` on a `zstd::Encoder`. The contract claims that a call that
/// succeeds is recorded as such, and that the level stays in any case.
#[verifier::external_body]
pub(crate) fn encoder_write_all(encoder: &mut ZstdEncoder, bytes: &[u8]) -> (r: Result<(), std::io::Error>)
    ensures
        encoder_level(*final(encoder)) == encoder_level(*old(encoder)),
        r is Ok ==> encoder_calls(*final(encoder)) == encoder_calls(*old(encoder)).push(
            Call::Write(bytes@),
        ),
{
    encoder.inner.write_all(bytes)
}

/// Puts out what was compressed so far.
///
/// Calls `flush` on a `zstd::Encoder`. The contract claims that a call that
/// succeeds is recorded as such, and that the level stays in any case.
#[verifier::external_body]
fn encoder_flush(encoder: &mut ZstdEncoder) -> (r: Result<(), std::io::Error>)
    ensures
        encoder_level(*final(encoder)) == encoder_level(*old(encoder)),
        r is Ok ==> encoder_calls(*final(encoder)) == encoder_calls(*old(encoder)).push(
            Call::Flush,
        ),
{
    encoder.inner.flush()
}

/// Finishes the frame.
///
/// Calls `zstd::Encoder::finish`. The contract names the frame as a function of
/// the level and the calls. It claims that the frame is no shorter than what
/// was put out before, which it starts with, and that decompressing it gives
/// back what was written.
#[verifier::external_body]
pub(crate) fn encoder_finish(encoder: ZstdEncoder) -> (r: Result<Vec<u8>, std::io::Error>)
    ensures
        r matches Ok(frame) ==> {
            &&& frame@ == zstd_frame(encoder_level(encoder), encoder_calls(encoder))
            &&& zstd_decoded(frame@) == written(encoder_calls(encoder))
            &&& frame@.len() >= zstd_len(encoder_level(encoder), encoder_calls(encoder))
        },
{
    Ok(encoder.inner.finish()?.into_inner().to_vec())
}

/// Why no frame came out.
#[derive(Debug)]
pub enum CompressError {
    /// The encoder failed.
    Io(std::io::Error),
    /// The encoder could not be made, and that was reported before.
    AlreadyConsumed,
}

/// The calls that put blocks into a frame: each block is written and flushed.
pub open spec fn calls_of(blocks: Seq<CarBlockView>) -> Seq<Call>
    decreases blocks.len(),
{
    if blocks.len() == 0 {
        Seq::empty()
    } else {
        calls_of(blocks.drop_last()).push(Call::Write(block_frame(blocks.last()))).push(Call::Flush)
    }
}

/// The varint frames of blocks, one after the other.
pub open spec fn block_frames(blocks: Seq<CarBlockView>) -> Seq<u8>
    decreases blocks.len(),
{
    if blocks.len() == 0 {
        Seq::empty()
    } else {
        block_frames(blocks.drop_last()) + block_frame(blocks.last())
    }
}

/// The identifiers of blocks.
pub open spec fn block_cids(blocks: Seq<CarBlockView>) -> Seq<CidView> {
    blocks.map_values(|block: CarBlockView| block.cid)
}

/// The blocks as plain values.
pub open spec fn block_views(blocks: Seq<CarBlock>) -> Seq<CarBlockView> {
    blocks.map_values(|block: CarBlock| block@)
}

/// Whether a frame with the given blocks is long enough.
pub open spec fn is_full(level: int, tripwire: int, blocks: Seq<CarBlockView>) -> bool {
    blocks.len() > 0 && zstd_len(level, calls_of(blocks)) > tripwire
}

/// How blocks are split into frames, when `pending` are in the current frame
/// and `rest` are still to come.
pub open spec fn split(
    level: int,
    tripwire: int,
    pending: Seq<CarBlockView>,
    rest: Seq<CarBlockView>,
) -> Seq<Seq<CarBlockView>>
    decreases rest.len(), pending.len(),
{
    if is_full(level, tripwire, pending) {
        seq![pending] + split(level, tripwire, Seq::empty(), rest)
    } else if rest.len() > 0 {
        split(level, tripwire, pending.push(rest[0]), rest.drop_first())
    } else if pending.len() > 0 {
        seq![pending]
    } else {
        Seq::empty()
    }
}

/// The values among results, in order.
pub open spec fn oks<T, E>(items: Seq<Result<T, E>>) -> Seq<T>
    decreases items.len(),
{
    if items.len() == 0 {
        Seq::empty()
    } else {
        match items[0] {
            Ok(value) => seq![value] + oks(items.drop_first()),
            Err(_) => oks(items.drop_first()),
        }
    }
}

/// The errors among results, in order.
pub open spec fn errors<T, E>(items: Seq<Result<T, E>>) -> Seq<E>
    decreases items.len(),
{
    if items.len() == 0 {
        Seq::empty()
    } else {
        match items[0] {
            Ok(_) => errors(items.drop_first()),
            Err(e) => seq![e] + errors(items.drop_first()),
        }
    }
}

/// Values and errors are told apart one by one: those of two runs of results
/// follow each other, and one result is a value or an error.
pub proof fn lemma_results_told_apart<T, E>(a: Seq<Result<T, E>>, b: Seq<Result<T, E>>)
    ensures
        oks(a + b) == oks(a) + oks(b),
        errors(a + b) == errors(a) + errors(b),
        a.len() == 0 ==> oks(a).len() == 0 && errors(a).len() == 0,
        a.len() == 1 ==> match a[0] {
            Ok(value) => oks(a) == seq![value] && errors(a).len() == 0,
            Err(e) => oks(a).len() == 0 && errors(a) == seq![e],
        },
    decreases a.len(),
{
    if a.len() == 0 {
        assert(a + b =~= b);
        assert(oks(a) + oks(b) =~= oks(b));
        assert(errors(a) + errors(b) =~= errors(b));
    } else {
        let rest = a.drop_first();
        lemma_results_told_apart(rest, b);
        assert((a + b).drop_first() =~= rest + b);
        assert(oks(a + b) =~= oks(a) + oks(b));
        assert(errors(a + b) =~= errors(a) + errors(b));
        if a.len() == 1 {
            assert(oks(rest).len() == 0 && errors(rest).len() == 0);
            match a[0] {
                Ok(value) => {
                    assert(oks(a) =~= seq![value]);
                },
                Err(e) => {
                    assert(errors(a) =~= seq![e]);
                },
            }
        }
    }
}

/// Each of the values is one of the results.
pub(crate) proof fn lemma_oks_among<T, E>(items: Seq<Result<T, E>>, j: int)
    requires
        0 <= j < oks(items).len(),
    ensures
        exists|k: int|
            0 <= k < items.len() && #[trigger] items[k] == Ok::<T, E>(oks(items)[j]),
    decreases items.len(),
{
    let n: int = if items[0] is Ok {
        1
    } else {
        0
    };
    if j < n {
        assert(items[0] == Ok::<T, E>(oks(items)[j]));
    } else {
        let tail = items.drop_first();
        lemma_oks_among(tail, j - n);
        let k = choose|k: int|
            0 <= k < tail.len() && #[trigger] tail[k] == Ok::<T, E>(oks(tail)[j - n]);
        assert(items[k + 1] == Ok::<T, E>(oks(items)[j]));
    }
}

/// What comes out of a stream of blocks and errors, when `pending` are in the
/// current frame and `rest` is still to come: the blocks of each frame, and each
/// error as soon as it is met.
pub open spec fn split_stream<E>(
    level: int,
    tripwire: int,
    pending: Seq<CarBlockView>,
    rest: Seq<Result<CarBlock, E>>,
) -> Seq<Result<Seq<CarBlockView>, E>>
    decreases rest.len(), pending.len(),
{
    if is_full(level, tripwire, pending) {
        seq![Ok(pending)] + split_stream(level, tripwire, Seq::empty(), rest)
    } else if rest.len() > 0 {
        match rest[0] {
            Ok(block) => split_stream(level, tripwire, pending.push(block@), rest.drop_first()),
            Err(e) => seq![Err(e)] + split_stream(level, tripwire, pending, rest.drop_first()),
        }
    } else if pending.len() > 0 {
        seq![Ok(pending)]
    } else {
        Seq::empty()
    }
}

/// Errors come out once each and in order, and the frames are those of the
/// blocks alone: an error loses no block and ends no frame.
pub proof fn lemma_errors_leave_frames<E>(
    level: int,
    tripwire: int,
    pending: Seq<CarBlockView>,
    rest: Seq<Result<CarBlock, E>>,
)
    ensures
        oks(split_stream(level, tripwire, pending, rest)) == split(
            level,
            tripwire,
            pending,
            block_views(oks(rest)),
        ),
        errors(split_stream(level, tripwire, pending, rest)) == errors(rest),
    decreases rest.len(), pending.len(),
{
    let parts = split_stream(level, tripwire, pending, rest);
    let blocks = block_views(oks(rest));
    if is_full(level, tripwire, pending) {
        lemma_errors_leave_frames(level, tripwire, Seq::empty(), rest);
        assert(parts.drop_first() =~= split_stream(level, tripwire, Seq::empty(), rest));
    } else if rest.len() > 0 {
        match rest[0] {
            Ok(block) => {
                lemma_errors_leave_frames(
                    level,
                    tripwire,
                    pending.push(block@),
                    rest.drop_first(),
                );
                assert(blocks[0] == block@);
                assert(blocks.drop_first() =~= block_views(oks(rest.drop_first())));
            },
            Err(e) => {
                lemma_errors_leave_frames(level, tripwire, pending, rest.drop_first());
                assert(parts.drop_first() =~= split_stream(
                    level,
                    tripwire,
                    pending,
                    rest.drop_first(),
                ));
            },
        }
    } else if pending.len() > 0 {
        assert(parts.drop_first() =~= Seq::empty());
        assert(oks(parts.drop_first()) =~= Seq::empty());
        assert(errors(parts.drop_first()) =~= Seq::empty());
        assert(oks(parts) =~= seq![pending]);
        assert(errors(parts) =~= Seq::empty());
    }
}

/// A frame with the given blocks: their identifiers and the compressed bytes.
pub open spec fn is_frame_of(
    frame: (Vec<Cid>, Vec<u8>),
    level: int,
    blocks: Seq<CarBlockView>,
) -> bool {
    &&& cid_views(frame.0@) == block_cids(blocks)
    &&& frame.1@ == zstd_frame(level, calls_of(blocks))
    &&& zstd_decoded(frame.1@) == block_frames(blocks)
    &&& frame.1@.len() >= zstd_len(level, calls_of(blocks))
}

/// Splitting loses no block, repeats none and keeps their order.
pub proof fn lemma_split_keeps_blocks(
    level: int,
    tripwire: int,
    pending: Seq<CarBlockView>,
    rest: Seq<CarBlockView>,
)
    ensures
        split(level, tripwire, pending, rest).flatten() == pending + rest,
    decreases rest.len(), pending.len(),
{
    let groups = split(level, tripwire, pending, rest);
    if is_full(level, tripwire, pending) {
        lemma_split_keeps_blocks(level, tripwire, Seq::empty(), rest);
        let tail = split(level, tripwire, Seq::empty(), rest);
        assert(groups.drop_first() =~= tail);
        assert(groups.flatten() =~= pending + rest);
    } else if rest.len() > 0 {
        lemma_split_keeps_blocks(level, tripwire, pending.push(rest[0]), rest.drop_first());
        assert(pending.push(rest[0]) + rest.drop_first() =~= pending + rest);
    } else if pending.len() > 0 {
        assert(groups.drop_first() =~= Seq::empty());
        assert(groups.drop_first().flatten() =~= Seq::empty());
        assert(groups.flatten() =~= pending + rest);
    } else {
        assert(groups.flatten() =~= pending + rest);
    }
}

/// Groups of one block each are as many as the blocks.
pub(crate) proof fn lemma_single_blocks(groups: Seq<Seq<CarBlockView>>)
    requires
        forall|i: int| 0 <= i < groups.len() ==> (#[trigger] groups[i]).len() == 1,
    ensures
        groups.flatten().len() == groups.len(),
    decreases groups.len(),
{
    if groups.len() > 0 {
        lemma_single_blocks(groups.drop_first());
        assert(groups[0].len() == 1);
    }
}

/// No part of the frame is long enough by itself, only the whole.
pub open spec fn cut_in_time(level: int, tripwire: int, blocks: Seq<CarBlockView>) -> bool {
    forall|n: int| 0 <= n < blocks.len() ==> !is_full(level, tripwire, #[trigger] blocks.take(n))
}

/// A frame holds at least one block. It ends with the first block that makes it
/// long enough; only the last frame can end before that.
pub proof fn lemma_split_is_greedy(
    level: int,
    tripwire: int,
    pending: Seq<CarBlockView>,
    rest: Seq<CarBlockView>,
    i: int,
)
    requires
        cut_in_time(level, tripwire, pending),
        0 <= i < split(level, tripwire, pending, rest).len(),
    ensures
        split(level, tripwire, pending, rest)[i].len() > 0,
        cut_in_time(level, tripwire, split(level, tripwire, pending, rest)[i]),
        i < split(level, tripwire, pending, rest).len() - 1 ==> is_full(
            level,
            tripwire,
            split(level, tripwire, pending, rest)[i],
        ),
    decreases rest.len(), pending.len(),
{
    if is_full(level, tripwire, pending) {
        if i > 0 {
            lemma_split_is_greedy(level, tripwire, Seq::empty(), rest, i - 1);
        }
    } else if rest.len() > 0 {
        let more = pending.push(rest[0]);
        assert forall|n: int| 0 <= n < more.len() implies !is_full(
            level,
            tripwire,
            #[trigger] more.take(n),
        ) by {
            assert(more.take(n) =~= pending.take(n));
            if n == pending.len() {
                assert(pending.take(n) =~= pending);
            }
        }
        lemma_split_is_greedy(level, tripwire, more, rest.drop_first(), i);
    }
}

/// The varint frames of two runs of blocks follow each other.
proof fn lemma_block_frames_concat(a: Seq<CarBlockView>, b: Seq<CarBlockView>)
    ensures
        block_frames(a + b) == block_frames(a) + block_frames(b),
    decreases b.len(),
{
    if b.len() == 0 {
        assert(a + b =~= a);
        assert(block_frames(a) + block_frames(b) =~= block_frames(a));
    } else {
        lemma_block_frames_concat(a, b.drop_last());
        assert((a + b).drop_last() =~= a + b.drop_last());
        assert(block_frames(a + b) =~= block_frames(a) + block_frames(b));
    }
}

proof fn lemma_block_frames_front(blocks: Seq<CarBlockView>)
    requires
        blocks.len() > 0,
    ensures
        block_frames(blocks) == block_frame(blocks[0]) + block_frames(blocks.drop_first()),
{
    let first = blocks.take(1);
    lemma_block_frames_concat(first, blocks.drop_first());
    assert(blocks =~= first + blocks.drop_first());
    assert(first.drop_last() =~= Seq::empty());
    assert(block_frames(first.drop_last()) =~= Seq::empty());
    assert(block_frames(first) =~= block_frame(blocks[0])) by {
        reveal_with_fuel(block_frames, 2);
        assert(first.last() == blocks[0]);
    }
}

/// A CAR body can be read in one way only: no two runs of blocks have the same
/// varint frames.
pub proof fn lemma_block_frames_unique(a: Seq<CarBlockView>, b: Seq<CarBlockView>)
    requires
        forall|i: int| 0 <= i < a.len() ==> (#[trigger] a[i]).cid.valid(),
        forall|i: int| 0 <= i < b.len() ==> (#[trigger] b[i]).cid.valid(),
        block_frames(a) == block_frames(b),
    ensures
        a == b,
    decreases a.len(),
{
    if a.len() > 0 {
        lemma_block_frames_front(a);
    }
    if b.len() > 0 {
        lemma_block_frames_front(b);
    }
    if a.len() > 0 && b.len() > 0 {
        lemma_block_frame_prefix_free(
            a[0],
            b[0],
            block_frames(a.drop_first()),
            block_frames(b.drop_first()),
        );
        lemma_block_frames_unique(a.drop_first(), b.drop_first());
        assert(a =~= seq![a[0]] + a.drop_first());
        assert(b =~= seq![b[0]] + b.drop_first());
    } else {
        lemma_written_calls(a);
        lemma_written_calls(b);
        assert(a =~= b);
    }
}

/// The blocks that a CAR body holds, read one after the other.
pub open spec fn read_blocks(bytes: Seq<u8>) -> Seq<CarBlockView>
    decreases bytes.len(),
{
    if bytes.len() == 0 {
        Seq::empty()
    } else {
        let (block, rest) = read_block(bytes);
        if rest.len() < bytes.len() {
            seq![block] + read_blocks(rest)
        } else {
            seq![block]
        }
    }
}

/// A CAR body gives back its blocks: all of them, in order, with every byte of
/// their data.
pub proof fn lemma_read_blocks(blocks: Seq<CarBlockView>)
    requires
        forall|i: int| 0 <= i < blocks.len() ==> (#[trigger] blocks[i]).cid.valid(),
    ensures
        read_blocks(block_frames(blocks)) == blocks,
    decreases blocks.len(),
{
    if blocks.len() > 0 {
        let rest = blocks.drop_first();
        lemma_block_frames_front(blocks);
        lemma_read_block(blocks[0], block_frames(rest));
        assert(block_frame(blocks[0]).len() > 0) by {
            reveal_with_fuel(crate::utils::bytes::uvarint, 1);
        }
        lemma_read_blocks(rest);
        assert(blocks =~= seq![blocks[0]] + rest);
    } else {
        assert(read_blocks(block_frames(blocks)) =~= blocks);
    }
}

/// The encoder is called twice for each block, in order: its varint frame is
/// written, and then all is put out.
pub proof fn lemma_calls_in_pairs(blocks: Seq<CarBlockView>)
    ensures
        calls_of(blocks).len() == 2 * blocks.len(),
        forall|i: int|
            0 <= i < blocks.len() ==> #[trigger] calls_of(blocks)[2 * i] == Call::Write(
                block_frame(blocks[i]),
            ),
        forall|i: int|
            0 <= i < blocks.len() ==> #[trigger] calls_of(blocks)[2 * i + 1] == Call::Flush,
    decreases blocks.len(),
{
    if blocks.len() > 0 {
        let before = blocks.drop_last();
        lemma_calls_in_pairs(before);
        let calls = calls_of(blocks);
        assert forall|i: int| 0 <= i < blocks.len() implies #[trigger] calls[2 * i] == Call::Write(
            block_frame(blocks[i]),
        ) by {
            if i < before.len() {
                assert(calls[2 * i] == calls_of(before)[2 * i]);
            }
        }
        assert forall|i: int| 0 <= i < blocks.len() implies #[trigger] calls[2 * i + 1]
            == Call::Flush by {
            if i < before.len() {
                assert(calls[2 * i + 1] == calls_of(before)[2 * i + 1]);
            }
        }
    }
}

/// The blocks of a frame are as many as it takes for the encoder to put out more
/// than the tripwire, and no more. Only the last frame can have fewer.
pub proof fn lemma_tripwire_ends_frames(level: int, tripwire: int, blocks: Seq<CarBlockView>, i: int)
    requires
        0 <= i < split(level, tripwire, Seq::empty(), blocks).len(),
    ensures
        ({
            let groups = split(level, tripwire, Seq::empty(), blocks);
            let group = groups[i];
            &&& group.len() > 0
            &&& forall|n: int|
                0 < n < group.len() ==> zstd_len(level, calls_of(#[trigger] group.take(n)))
                    <= tripwire
            &&& i < groups.len() - 1 ==> zstd_len(level, calls_of(group)) > tripwire
        }),
{
    lemma_split_is_greedy(level, tripwire, Seq::empty(), blocks, i);
}

/// What decompressing frames one after the other gives.
pub open spec fn decoded_frames(frames: Seq<Seq<u8>>) -> Seq<u8>
    decreases frames.len(),
{
    if frames.len() == 0 {
        Seq::empty()
    } else {
        zstd_decoded(frames[0]) + decoded_frames(frames.drop_first())
    }
}

/// Decompressing the frames of a compressed stream gives the varint frames of
/// all its blocks, in order: a plain CAR body.
pub proof fn lemma_frames_decode_to_blocks(
    frames: Seq<Seq<u8>>,
    groups: Seq<Seq<CarBlockView>>,
)
    requires
        frames.len() == groups.len(),
        forall|i: int|
            0 <= i < frames.len() ==> zstd_decoded(#[trigger] frames[i]) == block_frames(groups[i]),
    ensures
        decoded_frames(frames) == block_frames(groups.flatten()),
    decreases frames.len(),
{
    if frames.len() == 0 {
        assert(groups.flatten() =~= Seq::empty());
    } else {
        lemma_frames_decode_to_blocks(frames.drop_first(), groups.drop_first());
        lemma_block_frames_concat(groups[0], groups.drop_first().flatten());
        assert(groups.flatten() =~= groups[0] + groups.drop_first().flatten());
    }
}

proof fn lemma_written_calls(blocks: Seq<CarBlockView>)
    ensures
        written(calls_of(blocks)) == block_frames(blocks),
        blocks.len() > 0 ==> block_frames(blocks).len() > 0 && calls_of(blocks).len() > 0
            && calls_of(blocks).last() == Call::Flush,
    decreases blocks.len(),
{
    if blocks.len() > 0 {
        let last = blocks.last();
        let before = calls_of(blocks.drop_last());
        lemma_written_calls(blocks.drop_last());
        assert(calls_of(blocks).drop_last() =~= before.push(Call::Write(block_frame(last))));
        assert(before.push(Call::Write(block_frame(last))).drop_last() =~= before);
        reveal_with_fuel(written, 3);
        assert(block_frame(last).len() > 0) by {
            reveal_with_fuel(crate::utils::bytes::uvarint, 1);
        }
    }
}

/// What comes next when a frame is asked for.
pub enum Step {
    /// There is an error to report.
    Failed(CompressError),
    /// A frame is finished.
    Frame(Vec<Cid>, Vec<u8>),
    /// Another block is needed, or the end of the stream.
    NeedBlock,
}

/// What comes of the next item of a stream.
pub enum Taken<E> {
    /// A block is in the current frame now.
    Block,
    /// The stream failed, and the error is passed on.
    Passed(E),
    /// The stream is over, and this is the last frame.
    Frame(Vec<Cid>, Vec<u8>),
    /// The stream is over, and there is nothing left.
    Done,
    /// The encoder failed.
    Failed(CompressError),
}

/// Puts a stream of blocks into frames.
///
/// Call [`FrameCompressor::poll_frame`] for what comes next. When it asks for a
/// block, hand the next item of the stream to [`FrameCompressor::take_item`],
/// and ask again.
pub struct FrameCompressor {
    tripwire: usize,
    level: u16,
    encoder_store: Result<ZstdEncoder, CompressError>,
    frame_cids: Vec<Cid>,
}

impl FrameCompressor {
    /// The compression level.
    pub closed spec fn level(self) -> int {
        self.level as int
    }

    /// The compressed length that ends a frame when it is exceeded.
    pub closed spec fn tripwire(self) -> int {
        self.tripwire as int
    }

    /// The error of the encoder that could not be made.
    pub closed spec fn failure(self) -> Option<CompressError> {
        match self.encoder_store {
            Ok(_) => None,
            Err(e) => Some(e),
        }
    }

    /// The blocks of the current frame are exactly these.
    pub closed spec fn holds(self, pending: Seq<CarBlockView>) -> bool {
        &&& self.encoder_store matches Ok(encoder)
        &&& encoder_level(encoder) == self.level
        &&& encoder_calls(encoder) == calls_of(pending)
        &&& cid_views(self.frame_cids@) == block_cids(pending)
    }

    /// A compressor in front of the first block.
    pub fn new(zstd_frame_size_tripwire: usize, zstd_compression_level: u16) -> (r: Self)
        ensures
            r.level() == zstd_compression_level,
            r.tripwire() == zstd_frame_size_tripwire,
            r.failure() is None ==> r.holds(Seq::empty()),
            r.failure() is Some ==> r.failure()->0 is Io,
    {
        let frame_cids: Vec<Cid> = Vec::new();
        let encoder_store = match new_encoder(zstd_compression_level) {
            Ok(encoder) => Ok(encoder),
            Err(e) => Err(CompressError::Io(e)),
        };
        assert(cid_views(frame_cids@) =~= block_cids(Seq::empty()));
        FrameCompressor {
            tripwire: zstd_frame_size_tripwire,
            level: zstd_compression_level,
            encoder_store,
            frame_cids,
        }
    }

    /// Finishes the current frame and starts another one.
    fn finalize_frame(&mut self) -> (r: Result<(Vec<Cid>, Vec<u8>), CompressError>)
        requires
            old(self).failure() is None,
        ensures
            final(self).level() == old(self).level(),
            final(self).tripwire() == old(self).tripwire(),
            final(self).failure() is None,
            r matches Ok(frame) ==> forall|pending: Seq<CarBlockView>| #[trigger]
                old(self).holds(pending) ==> {
                    &&& is_frame_of(frame, old(self).level(), pending)
                    &&& final(self).holds(Seq::empty())
                },
            r matches Err(e) ==> e is Io,
    {
        let mut cids: Vec<Cid> = Vec::new();
        std::mem::swap(&mut cids, &mut self.frame_cids);
        let fresh = match new_encoder(self.level) {
            Ok(encoder) => encoder,
            Err(e) => return Err(CompressError::Io(e)),
        };
        let mut store: Result<ZstdEncoder, CompressError> = Ok(fresh);
        std::mem::swap(&mut store, &mut self.encoder_store);
        assert(cid_views(self.frame_cids@) =~= block_cids(Seq::empty()));
        match store {
            Ok(encoder) => match encoder_finish(encoder) {
                Ok(frame) => {
                    proof {
                        assert forall|pending: Seq<CarBlockView>| #[trigger]
                            old(self).holds(pending) implies is_frame_of(
                            (cids, frame),
                            old(self).level(),
                            pending,
                        ) by {
                            lemma_written_calls(pending);
                        }
                    }
                    Ok((cids, frame))
                },
                Err(e) => Err(CompressError::Io(e)),
            },
            Err(e) => Err(e),
        }
    }

    /// The next error or frame, if nothing more is needed for one.
    pub fn poll_frame(&mut self) -> (r: Step)
        ensures
            final(self).level() == old(self).level(),
            final(self).tripwire() == old(self).tripwire(),
            old(self).failure() matches Some(e) ==> r == Step::Failed(e) && final(self).failure()
                == Some(CompressError::AlreadyConsumed),
            old(self).failure() is None ==> final(self).failure() is None && (r matches Step::Failed(
                e,
            ) ==> e is Io),
            forall|pending: Seq<CarBlockView>| #[trigger]
                old(self).holds(pending) ==> match r {
                    Step::Failed(_) => is_full(old(self).level(), old(self).tripwire(), pending),
                    Step::Frame(cids, frame) => {
                        &&& is_full(old(self).level(), old(self).tripwire(), pending)
                        &&& is_frame_of((cids, frame), old(self).level(), pending)
                        &&& final(self).holds(Seq::empty())
                    },
                    Step::NeedBlock => {
                        &&& !is_full(old(self).level(), old(self).tripwire(), pending)
                        &&& old(self).tripwire() == 0 ==> pending.len() == 0
                        &&& *final(self) == *old(self)
                    },
                },
    {
        match &self.encoder_store {
            Err(_) => {
                let mut store: Result<ZstdEncoder, CompressError> = Err(
                    CompressError::AlreadyConsumed,
                );
                std::mem::swap(&mut store, &mut self.encoder_store);
                match store {
                    Err(e) => Step::Failed(e),
                    Ok(_) => Step::NeedBlock,
                }
            },
            Ok(encoder) => {
                // Emit frame if the compressed length exceeds the tripwire
                let len = compressed_len(encoder);
                proof {
                    assert forall|pending: Seq<CarBlockView>| #[trigger]
                        old(self).holds(pending) implies (len > old(self).tripwire) == is_full(
                        old(self).level(),
                        old(self).tripwire(),
                        pending,
                    ) && (len == 0 ==> pending.len() == 0) by {
                        lemma_written_calls(pending);
                    }
                }
                if len > self.tripwire {
                    match self.finalize_frame() {
                        Ok((cids, frame)) => Step::Frame(cids, frame),
                        Err(e) => Step::Failed(e),
                    }
                } else {
                    Step::NeedBlock
                }
            },
        }
    }

    /// Adds a block to the current frame.
    pub fn push_block(&mut self, block: &CarBlock) -> (r: Result<(), CompressError>)
        requires
            old(self).failure() is None,
            body_len(block@) <= usize::MAX,
        ensures
            final(self).level() == old(self).level(),
            final(self).tripwire() == old(self).tripwire(),
            final(self).failure() is None,
            r is Ok ==> forall|pending: Seq<CarBlockView>| #[trigger]
                old(self).holds(pending) ==> final(self).holds(pending.push(block@)),
            r matches Err(e) ==> e is Io,
    {
        self.frame_cids.push(block.cid);
        let mut frame: Vec<u8> = Vec::new();
        block.write(&mut frame);
        assert(frame@ =~= block_frame(block@));
        match &mut self.encoder_store {
            Err(_) => Err(CompressError::AlreadyConsumed),
            Ok(encoder) => {
                match encoder_write_all(encoder, frame.as_slice()) {
                    Ok(()) => {},
                    Err(e) => return Err(CompressError::Io(e)),
                }
                match encoder_flush(encoder) {
                    Ok(()) => {},
                    Err(e) => return Err(CompressError::Io(e)),
                }
                proof {
                    assert forall|pending: Seq<CarBlockView>| #[trigger]
                        old(self).holds(pending) implies encoder_calls(*encoder) == calls_of(
                        pending.push(block@),
                    ) && cid_views(self.frame_cids@) == block_cids(pending.push(block@)) by {
                        assert(pending.push(block@).drop_last() =~= pending);
                        assert(cid_views(self.frame_cids@) =~= cid_views(
                            old(self).frame_cids@,
                        ).push(block@.cid));
                        assert(block_cids(pending.push(block@)) =~= block_cids(pending).push(
                            block@.cid,
                        ));
                    }
                }
                Ok(())
            },
        }
    }

    /// The last frame, if there are any blocks for it.
    pub fn end_of_stream(&mut self) -> (r: Result<Option<(Vec<Cid>, Vec<u8>)>, CompressError>)
        requires
            old(self).failure() is None,
        ensures
            final(self).level() == old(self).level(),
            final(self).tripwire() == old(self).tripwire(),
            final(self).failure() is None,
            r matches Err(e) ==> e is Io,
            forall|pending: Seq<CarBlockView>| #[trigger]
                old(self).holds(pending) ==> match r {
                    Err(e) => pending.len() > 0 && e is Io,
                    Ok(Some(frame)) => {
                        &&& pending.len() > 0
                        &&& is_frame_of(frame, old(self).level(), pending)
                        &&& final(self).holds(Seq::empty())
                    },
                    Ok(None) => pending.len() == 0 && *final(self) == *old(self),
                },
    {
        match &self.encoder_store {
            Err(_) => Err(CompressError::AlreadyConsumed),
            Ok(encoder) => {
                // If there's anything in the zstd buffer, emit it.
                let len = compressed_len(encoder);
                proof {
                    assert forall|pending: Seq<CarBlockView>| #[trigger]
                        old(self).holds(pending) implies (len > 0) == (pending.len() > 0) by {
                        lemma_written_calls(pending);
                    }
                }
                if len > 0 {
                    match self.finalize_frame() {
                        Ok(frame) => Ok(Some(frame)),
                        Err(e) => Err(e),
                    }
                } else {
                    Ok(None)
                }
            },
        }
    }

    /// Takes the next item of the stream, or its end. An error of the stream is
    /// passed on, and the current frame stays as it is.
    pub fn take_item<E>(&mut self, item: Option<Result<CarBlock, E>>) -> (r: Taken<E>)
        requires
            old(self).failure() is None,
            item matches Some(Ok(block)) ==> body_len(block@) <= usize::MAX,
        ensures
            final(self).level() == old(self).level(),
            final(self).tripwire() == old(self).tripwire(),
            final(self).failure() is None,
            match item {
                Some(Err(e)) => r == Taken::Passed(e) && *final(self) == *old(self),
                Some(Ok(_)) => r is Block || r is Failed,
                None => r is Frame || r is Done || r is Failed,
            },
            r matches Taken::Failed(e) ==> e is Io,
            forall|pending: Seq<CarBlockView>| #[trigger]
                old(self).holds(pending) ==> match r {
                    Taken::Block => final(self).holds(pending.push(item->0->Ok_0@)),
                    Taken::Passed(_) => final(self).holds(pending),
                    Taken::Frame(cids, frame) => {
                        &&& pending.len() > 0
                        &&& is_frame_of((cids, frame), old(self).level(), pending)
                        &&& final(self).holds(Seq::empty())
                    },
                    Taken::Done => pending.len() == 0 && *final(self) == *old(self),
                    Taken::Failed(_) => item is None ==> pending.len() > 0,
                },
    {
        match item {
            None => match self.end_of_stream() {
                Ok(Some((cids, frame))) => Taken::Frame(cids, frame),
                Ok(None) => Taken::Done,
                Err(e) => Taken::Failed(e),
            },
            // Pass errors through
            Some(Err(e)) => Taken::Passed(e),
            Some(Ok(block)) => match self.push_block(&block) {
                Ok(()) => Taken::Block,
                Err(e) => Taken::Failed(e),
            },
        }
    }
}

} // verus!
