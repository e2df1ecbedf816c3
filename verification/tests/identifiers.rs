use forest_car::cid_collections::hash_map::{
    join_size_hints, smaller, CidHashMap, MaybeCompactedCid,
};
use forest_car::utils::cid::{cids_eq, Cid, BLAKE2B_256, DAG_CBOR, DAG_PB, SHA2_256};

const GENESIS: &str = "bafyreiaqpwbbyjo4a42saasj36kkrpv4tsherf2e7bvezkert2a7dhonoi";

fn from_outside(cid: &cid::Cid) -> Cid {
    match cid.version() {
        cid::Version::V0 => Cid::new_v0(cid.hash().digest()).unwrap(),
        cid::Version::V1 => {
            Cid::new_v1(cid.codec(), cid.hash().code(), cid.hash().digest()).unwrap()
        }
    }
}

fn samples() -> Vec<Cid> {
    vec![
        Cid::from_cbor_blake2b256(b"one"),
        Cid::from_cbor_blake2b256(b"two"),
        Cid::new_v1(DAG_CBOR, SHA2_256, &[3; 32]).unwrap(),
        Cid::new_v1(DAG_PB, BLAKE2B_256, &[3; 32]).unwrap(),
        Cid::new_v1(DAG_CBOR, BLAKE2B_256, &[3; 31]).unwrap(),
        Cid::new_v1(0x55, 0, &[]).unwrap(),
        Cid::new_v1(0x55, 0, &[0]).unwrap(),
        Cid::new_v1(0x55, 0, &[9; 64]).unwrap(),
        Cid::new_v0(&[3; 32]).unwrap(),
    ]
}

#[test]
fn text_and_bytes_are_those_of_the_identifier() {
    let outside: cid::Cid = GENESIS.parse().unwrap();
    let cid = from_outside(&outside);
    assert_eq!(cid.to_text(), GENESIS);
    assert_eq!(cid.to_bytes(), outside.to_bytes());
    assert_eq!(cid.encoded_len(), outside.to_bytes().len());
    assert_eq!((cid.version(), cid.codec(), cid.hash_code()), (1, 0x71, 0x12));
    assert_eq!(cid.digest(), outside.hash().digest());
}

#[test]
fn version_zero_has_neither_version_nor_codec() {
    let text = "QmdfTbBqBPQ7VNxZEYEj14VmRuZBkqFbiwReogJgS1zR1n";
    let outside: cid::Cid = text.parse().unwrap();
    let cid = from_outside(&outside);
    assert_eq!(cid.to_text(), text);
    assert_eq!(cid.to_bytes(), outside.to_bytes());
    assert_eq!(cid.to_bytes()[..2], [0x12, 0x20]);
    assert_eq!(cid.encoded_len(), 34);
    assert_eq!((cid.version(), cid.codec(), cid.hash_code()), (0, 0x70, 0x12));
}

#[test]
fn digests_of_the_wrong_length_are_refused() {
    assert!(Cid::new_v1(DAG_CBOR, BLAKE2B_256, &[0; 65]).is_none());
    assert!(Cid::new_v1(DAG_CBOR, BLAKE2B_256, &[0; 64]).is_some());
    assert!(Cid::new_v0(&[0; 31]).is_none());
    assert!(Cid::new_v0(&[0; 33]).is_none());
}

#[test]
fn dag_cbor_identifier_of_null() {
    let cid = Cid::from_cbor_blake2b256(&[0xf6]);
    let hash = blake2b_simd::Params::new().hash_length(32).hash(&[0xf6]);
    assert_eq!(cid.digest(), hash.as_bytes());
    assert_eq!(cid.to_bytes()[..6], [1, 0x71, 0xa0, 0xe4, 2, 32]);
}

#[test]
fn identifiers_are_equal_part_by_part() {
    let samples = samples();
    for (i, a) in samples.iter().enumerate() {
        for (j, b) in samples.iter().enumerate() {
            assert_eq!(a == b, i == j, "{i} {j}");
            assert_eq!(a.to_bytes() == b.to_bytes(), i == j);
        }
    }
    assert!(cids_eq(&samples, &samples.clone()));
    assert!(!cids_eq(&samples, &samples[1..].to_vec()));
    let mut other = samples.clone();
    other.swap(0, 1);
    assert!(!cids_eq(&samples, &other));
}

#[test]
fn compaction_and_back() {
    for (i, cid) in samples().iter().enumerate() {
        let compacted = MaybeCompactedCid::from_cid(cid);
        assert_eq!(matches!(compacted, MaybeCompactedCid::Compact(_)), i < 2);
        assert!(compacted.into_cid() == *cid);
    }
}

#[test]
fn map_inserts_and_replaces() {
    let mut map: CidHashMap<usize> = CidHashMap::new();
    for (i, cid) in samples().into_iter().enumerate() {
        assert!(!map.contains_key(&cid));
        assert_eq!(map.insert(cid, i), None);
        assert!(map.contains_key(&cid));
    }
    for (i, cid) in samples().into_iter().enumerate() {
        assert_eq!(map.insert(cid, i + 100), Some(i));
    }
    assert!(!map.contains_key(&Cid::from_cbor_blake2b256(b"three")));
    assert!(map.capacity_min() >= 2);
    let copy = map.clone();
    assert!(copy == map);
    map.insert(samples()[0], 7);
    assert!(copy != map);
}

#[test]
fn map_gives_everything_back_once() {
    let samples = samples();
    let entries: Vec<(Cid, usize)> = samples.iter().copied().zip(0..).collect();
    let mut map = CidHashMap::from_iter(entries);
    map.extend(vec![(samples[0], 50), (samples[2], 51), (samples[0], 52)]);

    let mut keys = map.keys();
    assert_eq!(keys.size_hint(), (9, Some(9)));
    let mut seen = vec![];
    while let Some(cid) = keys.next() {
        seen.push(cid);
    }
    assert_eq!(keys.size_hint(), (0, Some(0)));
    assert_eq!(seen.len(), 9);
    for cid in &samples {
        assert!(seen.iter().any(|c| c == cid));
    }

    let mut iter = map.into_iter();
    assert_eq!(iter.size_hint(), (9, Some(9)));
    let mut values = vec![None; 9];
    let mut compact_first = vec![];
    while let Some((cid, value)) = iter.next() {
        let at = samples.iter().position(|c| *c == cid).unwrap();
        assert_eq!(values[at], None);
        values[at] = Some(value);
        compact_first.push(at < 2);
    }
    assert_eq!(iter.size_hint(), (0, Some(0)));
    assert!(iter.next().is_none());
    assert_eq!(compact_first[..2], [true, true]);
    let expected: Vec<Option<usize>> = [52, 1, 51, 3, 4, 5, 6, 7, 8].map(Some).to_vec();
    assert_eq!(values, expected);
}

#[test]
fn empty_map() {
    let map: CidHashMap<String> = CidHashMap::default();
    assert_eq!(map.capacity_min(), 0);
    assert!(map.keys().next().is_none());
    assert!(map.into_iter().next().is_none());
}

#[test]
fn size_hints_are_joined() {
    let m = usize::MAX;
    assert_eq!(join_size_hints((1, Some(2)), (3, Some(4))), (4, Some(6)));
    assert_eq!(join_size_hints((1, None), (3, Some(4))), (4, None));
    assert_eq!(join_size_hints((1, Some(1)), (3, None)), (4, None));
    assert_eq!(join_size_hints((m, Some(m)), (1, Some(1))), (m, None));
    assert_eq!(join_size_hints((m, Some(m)), (0, Some(0))), (m, Some(m)));
    assert_eq!(smaller(3, 2), 2);
    assert_eq!(smaller(2, 3), 2);
}
