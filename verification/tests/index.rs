use forest_car::db::car::forest::index::hash::{ideal_slot_ix, summary, NonMaximalU64};
use forest_car::db::car::forest::index::{
    initial_width, written_len, Builder, OccupiedSlot, RawSlot, Slot, V1Header, Version, Writeable,
    Writer,
};
use forest_car::utils::cid::{Cid, DAG_CBOR};

fn le(bytes: &[u8], at: usize) -> u64 {
    u64::from_le_bytes(bytes[at..at + 8].try_into().unwrap())
}

fn index_bytes(entries: &[(u64, u64)]) -> Vec<u8> {
    let mut builder = Builder::new();
    builder.extend_hashes(
        entries
            .iter()
            .map(|(hash, offset)| (NonMaximalU64::fit(hash + 1), *offset))
            .collect(),
    );
    let writer = builder.into_writer();
    let len = writer.written_len();
    let mut bytes = vec![0xaa];
    writer.write_into(&mut bytes);
    assert_eq!(bytes.remove(0), 0xaa);
    assert_eq!(bytes.len() as u64, len);
    bytes
}

/// Scans forward from the ideal slot to the first empty one.
fn look_up(bytes: &[u8], hash: u64) -> Vec<u64> {
    let buckets = le(bytes, 24) as usize;
    let mut found = vec![];
    if buckets == 0 {
        return found;
    }
    let mut slot = ideal_slot_ix(NonMaximalU64::fit(hash + 1), buckets);
    loop {
        let at = 32 + 16 * slot;
        match le(bytes, at) {
            u64::MAX => return found,
            h if h == hash => found.push(le(bytes, at + 8)),
            _ => {}
        }
        slot += 1;
    }
}

fn pseudo_random(n: usize, seed: u64) -> Vec<u64> {
    let mut state = seed;
    (0..n)
        .map(|_| {
            state = state
                .wrapping_mul(6364136223846793005)
                .wrapping_add(1442695040888963407);
            state >> 1
        })
        .collect()
}

#[test]
fn fit_stays_below_the_maximum() {
    assert_eq!(NonMaximalU64::fit(0).get(), 0);
    assert_eq!(NonMaximalU64::fit(1).get(), 0);
    assert_eq!(NonMaximalU64::fit(2).get(), 1);
    assert_eq!(NonMaximalU64::fit(u64::MAX).get(), u64::MAX - 1);
}

#[test]
fn ideal_slots_cut_the_range_evenly() {
    let top = NonMaximalU64::fit(u64::MAX);
    assert_eq!(ideal_slot_ix(NonMaximalU64::fit(0), 1), 0);
    assert_eq!(ideal_slot_ix(top, 1), 0);
    assert_eq!(ideal_slot_ix(top, 10), 9);
    assert_eq!(ideal_slot_ix(NonMaximalU64::fit((1 << 63) + 1), 2), 1);
    assert_eq!(ideal_slot_ix(NonMaximalU64::fit(1 << 63), 2), 0);
    assert_eq!(ideal_slot_ix(NonMaximalU64::fit((1 << 62) + 1), 8), 2);
    assert_eq!(ideal_slot_ix(top, usize::MAX), usize::MAX - 2);
}

#[test]
fn width_is_the_number_of_entries_over_the_load_factor() {
    let load_factor: f64 = 0.8;
    assert_eq!(initial_width(0), None);
    assert_eq!(initial_width(1), Some(1));
    assert_eq!(initial_width(4), Some(5));
    let mut samples: Vec<usize> = (1..100_000).collect();
    for shift in 17..50 {
        for delta in 0..9 {
            samples.push((1usize << shift) - 4 + delta);
            samples.push((3usize << (shift - 2)) - 4 + delta);
        }
    }
    for n in samples {
        let expected = std::cmp::max((n as f64 / load_factor) as usize, n);
        assert_eq!(initial_width(n), Some(expected), "{n}");
    }
}

#[test]
fn summary_folds_whole_groups_of_eight_bytes() {
    let digest: Vec<u8> = (0..19).collect();
    let cid = Cid::new_v1(DAG_CBOR, 0x1234, &digest).unwrap();
    let first = u64::from_le_bytes([0, 1, 2, 3, 4, 5, 6, 7]);
    let second = u64::from_le_bytes([8, 9, 10, 11, 12, 13, 14, 15]);
    let expected = (DAG_CBOR ^ 0x1234 ^ first ^ second) - 1;
    assert_eq!(summary(&cid).get(), expected);
    // Nothing to fold, and nothing left of codec and code.
    let cid = Cid::new_v1(7, 7, &[1, 2, 3]).unwrap();
    assert_eq!(summary(&cid).get(), 0);
}

#[test]
fn empty_index_is_a_header_and_an_empty_slot() {
    let mut expected = vec![0xf0, 0xbe, 0xad, 0xde, 0, 0, 0, 0];
    expected.extend([0; 24]);
    expected.extend([0xff; 16]);
    assert_eq!(index_bytes(&[]), expected);
}

#[test]
fn single_entry_index() {
    let mut expected = vec![0xf0, 0xbe, 0xad, 0xde, 0, 0, 0, 0];
    expected.extend([0; 16]);
    expected.extend([1, 0, 0, 0, 0, 0, 0, 0]);
    expected.extend([5, 0, 0, 0, 0, 0, 0, 0]);
    expected.extend([0, 1, 0, 0, 0, 0, 0, 0]);
    expected.extend([0xff; 16]);
    assert_eq!(index_bytes(&[(5, 256)]), expected);
}

#[test]
fn entries_are_sorted_and_repeated_ones_dropped() {
    let bytes = index_bytes(&[(9, 1), (3, 7), (9, 1), (3, 2)]);
    // three entries, two of them with the same hash
    assert_eq!(le(&bytes, 16), 1);
    assert_eq!(le(&bytes, 24), 3);
    assert_eq!((le(&bytes, 32), le(&bytes, 40)), (3, 2));
    assert_eq!((le(&bytes, 48), le(&bytes, 56)), (3, 7));
    assert_eq!((le(&bytes, 64), le(&bytes, 72)), (9, 1));
    // all want slot 0; the last is two slots off
    assert_eq!(le(&bytes, 8), 2);
    // three buckets, two slots for the longest distance, and a terminal one
    assert_eq!(bytes.len(), 32 + 6 * 16);
    assert_eq!(bytes[80..], [0xff; 48]);
}

#[test]
fn longest_distance_adds_slots_to_the_buckets() {
    // two entries of hash 0: two buckets, one slot more, and a terminal one
    let bytes = index_bytes(&[(0, 1), (0, 2)]);
    assert_eq!((le(&bytes, 8), le(&bytes, 16), le(&bytes, 24)), (1, 1, 2));
    assert_eq!(bytes.len(), 96);
    for n in [3, 40, 700] {
        let entries: Vec<(u64, u64)> = pseudo_random(n, 9).into_iter().map(|h| (h / 3, h)).collect();
        let bytes = index_bytes(&entries);
        let slots = le(&bytes, 24) + le(&bytes, 8) + 1;
        assert_eq!(bytes.len() as u64, 32 + 16 * slots);
        assert_eq!(le(&bytes, bytes.len() - 16), u64::MAX);
    }
}

#[test]
fn padding_moves_entries_to_their_ideal_slots() {
    let high = u64::MAX - 1;
    let bytes = index_bytes(&[(0, 10), (high, 20), (1, 11), (high - 1, 21)]);
    assert_eq!(le(&bytes, 24), 5);
    // slots 0 and 1, then two empty ones, then slots 4 and 5, then the last one
    let hashes: Vec<u64> = (0..7).map(|k| le(&bytes, 32 + 16 * k)).collect();
    assert_eq!(
        hashes,
        vec![0, 1, u64::MAX, u64::MAX, high - 1, high, u64::MAX]
    );
    assert_eq!(bytes.len(), 32 + 7 * 16);
    assert_eq!(le(&bytes, 8), 1);
}

#[test]
fn everything_is_found_and_nothing_else() {
    for (n, seed) in [(1, 1), (2, 2), (7, 3), (100, 4), (2000, 5)] {
        let hashes = pseudo_random(n, seed);
        let mut entries: Vec<(u64, u64)> = hashes
            .iter()
            .enumerate()
            .map(|(i, hash)| (*hash, i as u64 * 3))
            .collect();
        // some hashes with a second offset, and some entries twice
        let again: Vec<(u64, u64)> = entries.iter().step_by(5).map(|e| (e.0, 999)).collect();
        let twice: Vec<(u64, u64)> = entries.iter().step_by(7).copied().collect();
        entries.extend(again);
        entries.extend(twice);
        let bytes = index_bytes(&entries);
        for (hash, _) in &entries {
            let mut expected: Vec<u64> = entries
                .iter()
                .filter(|e| e.0 == *hash)
                .map(|e| e.1)
                .collect();
            expected.sort();
            expected.dedup();
            assert_eq!(look_up(&bytes, *hash), expected);
        }
        for absent in pseudo_random(50, seed + 100) {
            assert_eq!(look_up(&bytes, absent), Vec::<u64>::new());
        }
    }
}

#[test]
fn no_entry_is_further_off_than_the_header_says() {
    let entries: Vec<(u64, u64)> = pseudo_random(500, 11).into_iter().map(|h| (h / 50, 1)).collect();
    let bytes = index_bytes(&entries);
    let buckets = le(&bytes, 24) as usize;
    let mut longest = 0;
    for k in 0..(bytes.len() - 32) / 16 {
        let hash = le(&bytes, 32 + 16 * k);
        if hash != u64::MAX {
            let ideal = ideal_slot_ix(NonMaximalU64::fit(hash + 1), buckets);
            assert!(ideal <= k);
            longest = std::cmp::max(longest, k - ideal);
        }
    }
    assert_eq!(le(&bytes, 8), longest as u64);
}

#[test]
fn index_does_not_depend_on_the_order_of_insertion() {
    let forward: Vec<(u64, u64)> = pseudo_random(60, 3).into_iter().map(|h| (h, h % 9)).collect();
    let backward: Vec<(u64, u64)> = forward.iter().rev().copied().collect();
    assert_eq!(index_bytes(&forward), index_bytes(&backward));
}

#[test]
fn builder_hashes_identifiers() {
    let cid = Cid::from_cbor_blake2b256(b"block");
    let mut builder = Builder::default();
    builder.extend(vec![(cid, 77)]);
    assert_eq!(builder.len(), 1);
    let mut bytes = vec![];
    builder.into_writer().write_into(&mut bytes);
    assert_eq!(le(&bytes, 32), summary(&cid).get());
    assert_eq!(le(&bytes, 40), 77);
}

#[test]
fn parts_of_the_index_are_little_endian() {
    let mut out = vec![];
    Version::V0.write_to(&mut out);
    assert_eq!(out, [0xef, 0xbe, 0xad, 0xde, 0, 0, 0, 0]);
    assert_eq!(written_len(&Version::V1), 8);
    let header = V1Header {
        longest_distance: 1,
        collisions: 2,
        initial_buckets: 0x0304,
    };
    let mut out = vec![];
    header.write_to(&mut out);
    assert_eq!(
        out,
        [1, 0, 0, 0, 0, 0, 0, 0, 2, 0, 0, 0, 0, 0, 0, 0, 4, 3, 0, 0, 0, 0, 0, 0]
    );
    assert_eq!(written_len(&header), 24);
    let slot = Slot::Occupied(OccupiedSlot {
        hash: NonMaximalU64::fit(3),
        frame_offset: 4,
    });
    assert_eq!(
        slot.into_raw(),
        RawSlot {
            hash: 2,
            frame_offset: 4
        }
    );
    let mut out = vec![];
    slot.write_to(&mut out);
    Slot::Empty.write_to(&mut out);
    assert_eq!(out[..16], [2, 0, 0, 0, 0, 0, 0, 0, 4, 0, 0, 0, 0, 0, 0, 0]);
    assert_eq!(out[16..], [0xff; 16]);
    assert_eq!(written_len(&slot), 16);
}

#[test]
fn slots_are_padded_to_the_minimum() {
    let occupied = OccupiedSlot {
        hash: NonMaximalU64::fit(8),
        frame_offset: 1,
    };
    let rows = vec![(1, occupied), (0, occupied)];
    let full = Slot::Occupied(occupied);
    assert_eq!(
        Writer::slots(2, &rows),
        vec![Slot::Empty, full, full, Slot::Empty]
    );
    assert_eq!(
        Writer::slots(5, &rows),
        vec![Slot::Empty, full, full, Slot::Empty, Slot::Empty, Slot::Empty]
    );
    assert_eq!(Writer::slots(0, &vec![]), vec![Slot::Empty]);
}
