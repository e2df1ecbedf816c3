use forest_car::db::car::forest::compress::{FrameCompressor, Step, Taken};
use forest_car::db::car::forest::index::hash::{ideal_slot_ix, summary, NonMaximalU64};
use forest_car::db::car::forest::{
    encode_header, Archive, Encoder, ForestCarFooter, HeaderError, WriteError,
    DEFAULT_FOREST_CAR_COMPRESSION_LEVEL, DEFAULT_FOREST_CAR_FRAME_SIZE,
};
use forest_car::db::car::plain::write_skip_frame_header;
use forest_car::utils::cid::Cid;
use forest_car::utils::db::car_stream::{CarBlock, CarV1Header, CarV2Header};
use forest_car::utils::nonempty::NonEmpty;

fn block(data: &[u8]) -> CarBlock {
    CarBlock {
        cid: Cid::from_cbor_blake2b256(data),
        data: data.to_vec(),
    }
}

/// Blocks whose data does not compress well.
fn blocks(n: u32, size: usize) -> Vec<CarBlock> {
    let mut state: u64 = 88172645463325252;
    (0..n)
        .map(|i| {
            let mut data = i.to_le_bytes().to_vec();
            while data.len() < size {
                state ^= state << 13;
                state ^= state >> 7;
                state ^= state << 17;
                data.extend(state.to_le_bytes());
            }
            block(&data)
        })
        .collect()
}

type Frame = (Vec<Cid>, Vec<u8>);

/// A stream without errors.
fn stream(blocks: &[CarBlock]) -> Vec<Result<CarBlock, String>> {
    blocks.iter().map(|b| Ok(b.clone())).collect()
}

/// The frames of a stream without errors.
fn compress(tripwire: usize, level: u16, blocks: &[CarBlock]) -> Vec<Frame> {
    Encoder::compress_stream(tripwire, level, stream(blocks))
        .unwrap()
        .into_iter()
        .collect::<Result<Vec<Frame>, String>>()
        .unwrap()
}

/// An archive with the given frames.
fn write(root: Cid, frames: &[Frame]) -> Vec<u8> {
    let frames: Vec<Result<Frame, String>> = frames.iter().map(|f| Ok(f.clone())).collect();
    let mut sink = vec![];
    Encoder::write(&mut sink, NonEmpty::of_one(root), frames).unwrap();
    sink
}

fn frames_of(blocks: &[CarBlock]) -> Vec<u8> {
    let mut out = vec![];
    for block in blocks {
        block.write(&mut out);
    }
    out
}

fn decode(frame: &[u8]) -> Vec<u8> {
    zstd::decode_all(frame).unwrap()
}

fn le_u64(bytes: &[u8], at: usize) -> u64 {
    u64::from_le_bytes(bytes[at..at + 8].try_into().unwrap())
}

fn same_cids(a: &[Cid], b: &[Cid]) -> bool {
    a.len() == b.len() && a.iter().zip(b).all(|(x, y)| x == y)
}

fn cids(blocks: &[CarBlock]) -> Vec<Cid> {
    blocks.iter().map(|b| b.cid).collect()
}

#[test]
fn block_frame_has_length_identifier_and_data() {
    let block = block(&[0xf6]);
    let mut out = vec![9];
    block.write(&mut out);
    // 6 bytes before the digest, 32 of it, 1 of data
    assert_eq!(out[..6], [9, 39, 1, 0x71, 0xa0, 0xe4]);
    assert_eq!(out[6..8], [0x02, 0x20]);
    assert_eq!(out.len(), 1 + 1 + 6 + 32 + 1);
    assert_eq!(*out.last().unwrap(), 0xf6);
}

#[test]
fn block_frame_length_takes_two_bytes_from_128_on() {
    let v0 = Cid::new_v0(&[7; 32]).unwrap();
    let short = CarBlock {
        cid: v0,
        data: vec![1; 93],
    };
    let long = CarBlock {
        cid: v0,
        data: vec![1; 94],
    };
    let mut out = vec![];
    short.write(&mut out);
    assert_eq!(out[..4], [127, 0x12, 0x20, 7]);
    let mut out = vec![];
    long.write(&mut out);
    assert_eq!(out[..5], [0x80, 1, 0x12, 0x20, 7]);
    assert_eq!(out.len(), 2 + 34 + 94);
}

#[test]
fn blocks_are_equal_by_identifier_and_data() {
    let a = block(b"a");
    assert_eq!(a, a.clone());
    assert_ne!(a, block(b"b"));
    let other = CarBlock {
        cid: a.cid,
        data: b"b".to_vec(),
    };
    assert_ne!(a, other);
}

#[test]
fn skip_frame_headers_and_footer() {
    let mut out = vec![];
    write_skip_frame_header(&mut out, 0x01020304);
    assert_eq!(out, [0x50, 0x2A, 0x4D, 0x18, 4, 3, 2, 1]);
    let footer = ForestCarFooter {
        index: 0x0102030405060708,
    };
    assert_eq!(
        footer.to_le_bytes(),
        [0x50, 0x2A, 0x4D, 0x18, 8, 0, 0, 0, 8, 7, 6, 5, 4, 3, 2, 1]
    );
}

#[test]
fn defaults() {
    assert_eq!(DEFAULT_FOREST_CAR_FRAME_SIZE, 8000_usize.next_power_of_two());
    assert_eq!(
        i32::from(DEFAULT_FOREST_CAR_COMPRESSION_LEVEL),
        zstd::DEFAULT_COMPRESSION_LEVEL
    );
}

#[test]
fn header_frame_holds_roots_and_version() {
    let root = Cid::from_cbor_blake2b256(b"root");
    let frame = encode_header(NonEmpty::of_one(root)).unwrap();
    let body = decode(&frame);
    assert_eq!(body[0] as usize, body.len() - 1);
    // {"roots": [link], "version": 1}
    let mut expected = vec![0xa2, 0x65];
    expected.extend(b"roots");
    expected.extend([0x81, 0xd8, 0x2a, 0x58, 0x27, 0x00]);
    expected.extend(root.to_bytes());
    expected.push(0x67);
    expected.extend(b"version");
    expected.push(1);
    assert_eq!(body[1..], expected);
}

#[test]
fn too_many_roots_do_not_fit_into_a_varint_frame() {
    let root = Cid::from_cbor_blake2b256(b"root");
    // 43 bytes each, over 128 MiB in all
    let roots = NonEmpty::new(vec![root; 3_130_000]).unwrap();
    let r = encode_header(roots);
    assert!(matches!(r, Err(HeaderError::TooLong)));
}

#[test]
fn headers_are_equal_by_roots_and_version() {
    let header = |data: &[u8], version: u64| CarV1Header {
        roots: NonEmpty::of_one(Cid::from_cbor_blake2b256(data)),
        version,
    };
    assert!(header(b"a", 1) == header(b"a", 1));
    assert!(header(b"a", 1) != header(b"b", 1));
    assert!(header(b"a", 1) != header(b"a", 2));
    let v2 = CarV2Header {
        characteristics: [0; 16],
        data_offset: 51,
        data_size: -1,
        index_offset: 0,
    };
    assert_eq!(v2, v2);
}

#[test]
fn no_blocks_no_frames() {
    assert!(Encoder::compress_stream_default(stream(&[])).unwrap().is_empty());
}

#[test]
fn tripwire_zero_puts_each_block_into_its_own_frame() {
    let blocks = blocks(5, 100);
    let frames = compress(0, 3, &blocks);
    assert_eq!(frames.len(), 5);
    for (block, (frame_cids, frame)) in blocks.iter().zip(&frames) {
        assert!(same_cids(frame_cids, &[block.cid]));
        assert_eq!(decode(frame), frames_of(&[block.clone()]));
    }
}

#[test]
fn large_tripwire_puts_all_blocks_into_one_frame() {
    let blocks = blocks(20, 500);
    let frames = compress(usize::MAX, 1, &blocks);
    assert_eq!(frames.len(), 1);
    assert!(same_cids(&frames[0].0, &cids(&blocks)));
    assert_eq!(decode(&frames[0].1), frames_of(&blocks));
}

#[test]
fn default_frames_are_small_and_lose_nothing() {
    let blocks = blocks(100, 1000);
    let frames: Vec<Frame> = Encoder::compress_stream_default(stream(&blocks))
        .unwrap()
        .into_iter()
        .map(|item| item.unwrap())
        .collect();
    assert!(frames.len() > 5);
    let all_cids: Vec<Cid> = frames.iter().flat_map(|(c, _)| c.clone()).collect();
    assert!(same_cids(&all_cids, &cids(&blocks)));
    let all: Vec<u8> = frames.iter().flat_map(|(_, f)| decode(f)).collect();
    assert_eq!(all, frames_of(&blocks));
    let (last, full) = frames.split_last().unwrap();
    for (_, frame) in full {
        assert!(frame.len() > 8192 && frame.len() < 8192 + 1200);
    }
    assert!(!last.0.is_empty());
}

#[test]
fn level_decides_the_compressed_bytes() {
    let block = block(&b"abcabcabcabdabcabdabcabe".repeat(200));
    let low = compress(0, 1, &[block.clone()]);
    let high = compress(0, 19, &[block.clone()]);
    assert_ne!(low[0].1, high[0].1);
    assert_eq!(decode(&low[0].1), decode(&high[0].1));
}

#[test]
fn compressor_step_by_step() {
    let blocks = blocks(2, 50);
    let mut compressor = FrameCompressor::new(0, 3);
    assert!(matches!(compressor.poll_frame(), Step::NeedBlock));
    assert!(compressor.end_of_stream().unwrap().is_none());
    compressor.push_block(&blocks[0]).unwrap();
    match compressor.poll_frame() {
        Step::Frame(frame_cids, frame) => {
            assert!(same_cids(&frame_cids, &[blocks[0].cid]));
            assert_eq!(decode(&frame), frames_of(&blocks[..1]));
        }
        _ => panic!("a frame is due"),
    }
    assert!(matches!(compressor.poll_frame(), Step::NeedBlock));
    let mut lazy = FrameCompressor::new(1 << 20, 3);
    lazy.push_block(&blocks[0]).unwrap();
    lazy.push_block(&blocks[1]).unwrap();
    assert!(matches!(lazy.poll_frame(), Step::NeedBlock));
    let (frame_cids, frame) = lazy.end_of_stream().unwrap().unwrap();
    assert!(same_cids(&frame_cids, &cids(&blocks)));
    assert_eq!(decode(&frame), frames_of(&blocks));
    assert!(lazy.end_of_stream().unwrap().is_none());
}

#[test]
fn archive_can_be_searched() {
    let blocks = blocks(60, 700);
    let root = blocks[0].cid;
    let frames = compress(2000, 3, &blocks);
    let archive = write(root, &frames);
    let len = archive.len();

    // The footer
    assert_eq!(archive[len - 16..len - 8], [0x50, 0x2A, 0x4D, 0x18, 8, 0, 0, 0]);
    let at = le_u64(&archive, len - 8) as usize;
    // The skip frame of the index
    assert_eq!(archive[at - 8..at - 4], [0x50, 0x2A, 0x4D, 0x18]);
    let index_len = u32::from_le_bytes(archive[at - 4..at].try_into().unwrap()) as usize;
    assert_eq!(at + index_len, len - 16);
    let index = &archive[at..len - 16];

    // Each block is in a frame to which its identifier leads.
    let buckets = le_u64(index, 24) as usize;
    for block in &blocks {
        let hash = summary(&block.cid).get();
        let mut slot = ideal_slot_ix(NonMaximalU64::fit(hash + 1), buckets);
        let mut offsets = vec![];
        while le_u64(index, 32 + 16 * slot) != u64::MAX {
            if le_u64(index, 32 + 16 * slot) == hash {
                offsets.push(le_u64(index, 40 + 16 * slot) as usize);
            }
            slot += 1;
        }
        assert_eq!(offsets.len(), 1);
        let (_, frame) = frames
            .iter()
            .find(|(frame_cids, _)| frame_cids.iter().any(|c| *c == block.cid))
            .unwrap();
        assert_eq!(archive[offsets[0]..offsets[0] + frame.len()], frame[..]);
        let plain = decode(frame);
        let wanted = frames_of(&[block.clone()]);
        assert!(plain.windows(wanted.len()).any(|w| w == wanted));
    }

    // The whole is a compressed CAR.
    let mut car = decode(&encode_header(NonEmpty::of_one(root)).unwrap());
    car.extend(frames_of(&blocks));
    assert_eq!(decode(&archive), car);
}

#[test]
fn archive_without_blocks() {
    let root = Cid::from_cbor_blake2b256(b"root");
    let header = encode_header(NonEmpty::of_one(root)).unwrap();
    let archive = write(root, &[]);
    let mut expected = header.clone();
    expected.extend([0x50, 0x2A, 0x4D, 0x18, 48, 0, 0, 0]);
    expected.extend([0xf0, 0xbe, 0xad, 0xde, 0, 0, 0, 0]);
    expected.extend([0; 24]);
    expected.extend([0xff; 16]);
    expected.extend([0x50, 0x2A, 0x4D, 0x18, 8, 0, 0, 0]);
    expected.extend((header.len() as u64 + 8).to_le_bytes());
    assert_eq!(archive, expected);
}

#[test]
fn archive_keeps_track_of_offsets() {
    let a = Cid::from_cbor_blake2b256(b"a");
    let b = Cid::from_cbor_blake2b256(b"b");
    let mut archive = Archive::new(100);
    archive.add_frame(vec![a], 11);
    archive.add_frame(vec![b], 13);
    let sealed = archive.seal();
    assert!(sealed.index_fits());
    let mut out = vec![];
    sealed.write_trailer(&mut out);
    let mut expected = vec![(summary(&a).get(), 100), (summary(&b).get(), 111)];
    expected.sort();
    let mut found = vec![];
    let mut at = 40;
    while at < out.len() - 16 {
        if le_u64(&out, at) != u64::MAX {
            found.push((le_u64(&out, at), le_u64(&out, at + 8)));
        }
        at += 16;
    }
    assert_eq!(found, expected);
    assert_eq!(le_u64(&out, out.len() - 8), 124 + 8);
}

#[test]
fn errors_of_a_stream_come_out_once_and_leave_the_frames() {
    let blocks = blocks(40, 300);
    let mut items = stream(&blocks);
    items.push(Err("last".to_string()));
    items.insert(25, Err("second".to_string()));
    items.insert(25, Err("first".to_string()));
    items.insert(0, Err("start".to_string()));
    let out = Encoder::compress_stream(1000, 3, items).unwrap();
    let errors: Vec<&str> = out
        .iter()
        .filter_map(|item| item.as_ref().err().map(|e| e.as_str()))
        .collect();
    assert_eq!(errors, ["start", "first", "second", "last"]);
    let frames: Vec<&Frame> = out.iter().filter_map(|item| item.as_ref().ok()).collect();
    let expected = compress(1000, 3, &blocks);
    assert!(expected.len() > 3);
    assert_eq!(frames.len(), expected.len());
    for (a, b) in frames.iter().zip(&expected) {
        assert!(same_cids(&a.0, &b.0));
        assert_eq!(a.1, b.1);
    }
    // An error comes out where it is met, before the frame it falls into.
    assert_eq!(out[0], Err("start".to_string()));
    assert_eq!(out[out.len() - 2], Err("last".to_string()));
}

#[test]
fn compressor_passes_errors_through() {
    let blocks = blocks(2, 50);
    let mut compressor = FrameCompressor::new(1 << 20, 3);
    let first: Option<Result<CarBlock, u8>> = Some(Ok(blocks[0].clone()));
    assert!(matches!(compressor.take_item(first), Taken::Block));
    let error: Option<Result<CarBlock, u8>> = Some(Err(7));
    assert!(matches!(compressor.take_item(error), Taken::Passed(7)));
    assert!(matches!(compressor.poll_frame(), Step::NeedBlock));
    let second: Option<Result<CarBlock, u8>> = Some(Ok(blocks[1].clone()));
    assert!(matches!(compressor.take_item(second), Taken::Block));
    let end: Option<Result<CarBlock, u8>> = None;
    match compressor.take_item(end) {
        Taken::Frame(frame_cids, frame) => {
            assert!(same_cids(&frame_cids, &cids(&blocks)));
            assert_eq!(decode(&frame), frames_of(&blocks));
        }
        _ => panic!("the last frame is due"),
    }
    let end: Option<Result<CarBlock, u8>> = None;
    assert!(matches!(compressor.take_item(end), Taken::Done));
}

#[test]
fn failed_stream_leaves_header_and_earlier_frames() {
    let blocks = blocks(20, 300);
    let root = blocks[0].cid;
    let frames = compress(1000, 3, &blocks);
    let mut items: Vec<Result<Frame, &str>> = frames.iter().map(|f| Ok(f.clone())).collect();
    items.insert(2, Err("broken"));
    items.insert(4, Err("never seen"));
    let mut sink = vec![1, 2, 3];
    let r = Encoder::write(&mut sink, NonEmpty::of_one(root), items);
    assert!(matches!(r, Err(WriteError::Stream("broken"))));
    let mut expected = vec![1, 2, 3];
    expected.extend(encode_header(NonEmpty::of_one(root)).unwrap());
    expected.extend(&frames[0].1);
    expected.extend(&frames[1].1);
    assert_eq!(sink, expected);
}

#[test]
fn archive_without_a_header_leaves_the_sink() {
    let root = Cid::from_cbor_blake2b256(b"root");
    let roots = NonEmpty::new(vec![root; 3_130_000]).unwrap();
    let mut sink = vec![5];
    let frames: Vec<Result<Frame, u8>> = vec![Err(1)];
    let r = Encoder::write(&mut sink, roots, frames);
    assert!(matches!(r, Err(WriteError::Header(HeaderError::TooLong))));
    assert_eq!(sink, [5]);
}

#[test]
fn archive_is_appended_to_the_sink() {
    let blocks = blocks(3, 100);
    let root = blocks[0].cid;
    let frames = compress(0, 3, &blocks);
    let items: Vec<Result<Frame, u8>> = frames.iter().map(|f| Ok(f.clone())).collect();
    let mut sink = vec![8, 9];
    Encoder::write(&mut sink, NonEmpty::of_one(root), items).unwrap();
    // Places are counted from the start of the archive.
    assert_eq!(sink[..2], [8, 9]);
    assert_eq!(sink[2..], write(root, &frames));
}

#[test]
fn blocks_are_ordered_by_identifier_and_data() {
    let low = CarBlock {
        cid: Cid::new_v1(0x71, 0x12, &[1, 2]).unwrap(),
        data: vec![9],
    };
    let high = CarBlock {
        cid: Cid::new_v1(0x71, 0x12, &[1, 3]).unwrap(),
        data: vec![0],
    };
    let longer = CarBlock {
        cid: low.cid,
        data: vec![9, 0],
    };
    assert!(low < high && low < longer && longer < high);
    let mut blocks = vec![high.clone(), longer.clone(), low.clone()];
    blocks.sort();
    assert_eq!(blocks, [low, longer, high]);
    assert!(Cid::new_v0(&[9; 32]).unwrap() < Cid::new_v1(0, 0, &[]).unwrap());
    assert!(Cid::new_v1(1, 9, &[9]).unwrap() < Cid::new_v1(2, 0, &[]).unwrap());
    assert!(Cid::new_v1(1, 1, &[9]).unwrap() < Cid::new_v1(1, 1, &[0, 0]).unwrap());
}
