use forest_car::blocks::tipset::{verify_block_headers, verify_weight_and_receipts, LoadError};
use forest_car::blocks::{
    BeaconEntry, CachingBlockHeader, CreateTipsetError, ElectionProof, RawBlockHeader, Ticket,
    Tipset, TipsetKey, VRFProof,
};
use forest_car::shim::address::Address;
use forest_car::shim::crypto::{Signature, SignatureType};
use forest_car::shim::econ::{BigInt, TokenAmount};
use forest_car::shim::sector::PoStProof;
use forest_car::utils::cid::Cid;
use forest_car::utils::encoding::blake2b_256;
use forest_car::utils::nonempty::NonEmpty;
use fvm_ipld_encoding::strict_bytes::ByteBuf;
use std::cell::RefCell;
use std::sync::Arc;

fn key(names: &[&str]) -> TipsetKey {
    let cids = names
        .iter()
        .map(|name| Cid::from_cbor_blake2b256(name.as_bytes()))
        .collect();
    TipsetKey::from(NonEmpty::new(cids).unwrap())
}

fn raw(miner: u64) -> RawBlockHeader {
    let zero = BigInt::from_bytes_be(false, &[]);
    RawBlockHeader {
        miner_address: Address::new_id(miner),
        ticket: Some(Ticket {
            vrfproof: VRFProof(vec![miner as u8]),
        }),
        election_proof: None,
        beacon_entries: vec![],
        winning_post_proof: vec![],
        parents: key(&["genesis"]),
        weight: zero.clone(),
        epoch: 1,
        state_root: Cid::from_cbor_blake2b256(b"state"),
        message_receipts: Cid::from_cbor_blake2b256(b"receipts"),
        messages: Cid::from_cbor_blake2b256(b"messages"),
        bls_aggregate: None,
        timestamp: 0,
        signature: None,
        fork_signal: 0,
        parent_base_fee: TokenAmount { atto: zero },
    }
}

fn caching(miners: &[u64]) -> Vec<CachingBlockHeader> {
    miners
        .iter()
        .map(|m| CachingBlockHeader::new(raw(*m)))
        .collect()
}

fn miners(tipset: &Tipset) -> Vec<u64> {
    tipset
        .block_headers()
        .as_vec()
        .iter()
        .map(|h| h.uncached().miner_address.id().unwrap())
        .collect()
}

fn outside(cid: &Cid) -> cid::Cid {
    cid::Cid::try_from(cid.to_bytes()).unwrap()
}

fn blake_cid(cbor: &[u8]) -> Vec<u8> {
    let mut bytes = vec![1, 0x71, 0xa0, 0xe4, 2, 32];
    bytes.extend(blake2b_256(cbor));
    bytes
}

#[test]
fn header_identifier_is_that_of_its_tuple() {
    let mut header = raw(1234);
    header.election_proof = Some(ElectionProof {
        win_count: -3,
        vrfproof: VRFProof(vec![4, 5]),
    });
    header.beacon_entries = vec![
        BeaconEntry {
            round: 77,
            signature: vec![1, 2, 3],
        },
        BeaconEntry {
            round: u64::MAX,
            signature: vec![],
        },
    ];
    header.winning_post_proof = vec![PoStProof {
        post_proof: 3,
        proof_bytes: vec![9; 192],
    }];
    header.parents = key(&["a", "b"]);
    header.weight = BigInt::from_bytes_be(false, &[0, 0, 1, 0]);
    header.epoch = i64::MIN;
    header.bls_aggregate = Some(Signature {
        sig_type: SignatureType::Bls,
        bytes: vec![6; 96],
    });
    header.timestamp = 1_600_000_000;
    header.signature = Some(Signature {
        sig_type: SignatureType::Secp256k1,
        bytes: vec![],
    });
    header.fork_signal = 24;
    header.parent_base_fee = TokenAmount {
        atto: BigInt::from_bytes_be(true, &[100]),
    };
    let tuple = (
        ByteBuf(vec![0, 0xd2, 0x09]),
        Some((ByteBuf(vec![0xd2]),)),
        Some((-3i64, ByteBuf(vec![4, 5]))),
        vec![
            (77u64, ByteBuf(vec![1, 2, 3])),
            (u64::MAX, ByteBuf(vec![])),
        ],
        vec![(3i64, ByteBuf(vec![9; 192]))],
        header.parents.iter().iter().map(outside).collect::<Vec<_>>(),
        ByteBuf(vec![0, 1, 0]),
        i64::MIN,
        outside(&header.state_root),
        outside(&header.message_receipts),
        outside(&header.messages),
        Some(ByteBuf([&[2u8][..], &[6; 96]].concat())),
        1_600_000_000u64,
        Some(ByteBuf(vec![1])),
        24u64,
        ByteBuf(vec![1, 100]),
    );
    let cbor = fvm_ipld_encoding::to_vec(&tuple).unwrap();
    assert_eq!(cbor[0], 0x90);
    assert_eq!(header.cid().to_bytes(), blake_cid(&cbor));
}

#[test]
fn header_without_options() {
    let mut header = raw(0);
    header.ticket = None;
    let none: Option<ByteBuf> = None;
    let empty: Vec<ByteBuf> = vec![];
    let tuple = (
        ByteBuf(vec![0, 0]),
        none.clone(),
        none.clone(),
        empty.clone(),
        empty,
        header.parents.iter().iter().map(outside).collect::<Vec<_>>(),
        ByteBuf(vec![]),
        1i64,
        outside(&header.state_root),
        outside(&header.message_receipts),
        outside(&header.messages),
        none.clone(),
        0u64,
        none,
        0u64,
        ByteBuf(vec![]),
    );
    let cbor = fvm_ipld_encoding::to_vec(&tuple).unwrap();
    assert_eq!(header.cid().to_bytes(), blake_cid(&cbor));
    assert_eq!(header.tipset_sort_key(), None);
}

#[test]
fn sort_key_is_ticket_hash_and_identifier() {
    let header = raw(5);
    let expected = (blake2b_256(&[5]), header.cid().to_bytes());
    assert_eq!(header.tipset_sort_key(), Some(expected));
}

#[test]
fn big_integers_are_normalised() {
    let int = BigInt::from_bytes_be(true, &[0, 0]);
    assert!(!int.is_negative());
    assert!(int.magnitude().is_empty());
    assert!(int == BigInt::from_bytes_be(false, &[]));
    let int = BigInt::from_bytes_be(true, &[0, 3, 0]);
    assert!(int == BigInt::from_bytes_be(true, &[3, 0]));
    assert!(int != BigInt::from_bytes_be(false, &[3, 0]));
    assert!(int.is_negative());
    assert_eq!(*int.magnitude(), vec![3, 0]);
}

#[test]
fn caching_header_remembers_the_identifier_it_was_loaded_under() {
    let fresh = CachingBlockHeader::new(raw(1));
    assert!(fresh.cid() == raw(1).cid());
    assert!(!fresh.has_ever_been_verified());
    let asked = Cid::from_cbor_blake2b256(b"asked");
    let found = |_: Cid| -> Result<Option<RawBlockHeader>, String> { Ok(Some(raw(1))) };
    let loaded = CachingBlockHeader::load(&found, asked).unwrap().unwrap();
    assert!(loaded.cid() == asked);
    assert!(loaded.uncached().cid() == raw(1).cid());
    assert!(!loaded.eq(&fresh));
    assert!(fresh.eq(&fresh.clone()));
    assert!(!fresh.eq(&CachingBlockHeader::new(raw(2))));
    let absent = |_: Cid| -> Result<Option<RawBlockHeader>, String> { Ok(None) };
    assert!(CachingBlockHeader::load(&absent, asked).unwrap().is_none());
    let broken = |_: Cid| -> Result<Option<RawBlockHeader>, String> { Err("io".to_string()) };
    assert_eq!(CachingBlockHeader::load(&broken, asked).unwrap_err(), "io");
}

#[test]
fn tipset_is_ordered_by_ticket() {
    let mut expected: Vec<u64> = (1..20).collect();
    expected.sort_by_key(|m| blake2b_256(&[*m as u8]));
    let forward = Tipset::new(caching(&(1..20).collect::<Vec<_>>())).unwrap();
    let backward = Tipset::new(caching(&(1..20).rev().collect::<Vec<_>>())).unwrap();
    assert_eq!(miners(&forward), expected);
    assert_eq!(miners(&backward), expected);
    assert!(forward.eq(&backward));
    let first = forward.min_ticket_block().uncached();
    assert_eq!(first.miner_address.id(), Some(expected[0]));
    assert_eq!(forward.epoch(), 1);
    assert!(*forward.parents() == key(&["genesis"]));
    assert_eq!(forward.into_block_headers().len(), 19);
}

#[test]
fn equal_tickets_are_ordered_by_identifier() {
    let with_ticket = |miner: u64| {
        let mut header = raw(miner);
        header.ticket = Some(Ticket {
            vrfproof: VRFProof(vec![1]),
        });
        header
    };
    let mut expected: Vec<u64> = (1..10).collect();
    expected.sort_by_key(|m| with_ticket(*m).cid().to_bytes());
    let headers = (1..10)
        .map(|m| CachingBlockHeader::new(with_ticket(m)))
        .collect();
    assert_eq!(miners(&Tipset::new(headers).unwrap()), expected);
}

#[test]
fn blocks_without_ticket_come_first_as_given() {
    let mut headers = caching(&[1, 2]);
    for miner in [9, 4] {
        let mut header = raw(miner);
        header.ticket = None;
        headers.push(CachingBlockHeader::new(header));
    }
    assert_eq!(miners(&Tipset::new(headers).unwrap())[..2], [9, 4]);
}

#[test]
fn blocks_that_form_no_tipset() {
    let create = |changed: RawBlockHeader| {
        let mut headers = caching(&[1, 2]);
        headers.push(CachingBlockHeader::new(changed));
        let verified = verify_block_headers(&headers);
        let created = Tipset::new(headers).map(|_| ());
        if verified.is_err() {
            assert_eq!(verified, created);
        }
        created
    };
    assert_eq!(create(raw(3)), Ok(()));
    let mut header = raw(3);
    header.message_receipts = Cid::from_cbor_blake2b256(b"other");
    assert_eq!(create(header.clone()), Err(CreateTipsetError::BadReceipts));
    header.weight = BigInt::from_bytes_be(false, &[1]);
    assert_eq!(create(header.clone()), Err(CreateTipsetError::BadWeight));
    header.miner_address = Address::new_id(1);
    assert_eq!(
        create(header.clone()),
        Err(CreateTipsetError::DuplicateMiner)
    );
    header.epoch = 2;
    assert_eq!(create(header.clone()), Err(CreateTipsetError::BadEpoch));
    header.state_root = Cid::from_cbor_blake2b256(b"other");
    assert_eq!(create(header.clone()), Err(CreateTipsetError::BadStateRoot));
    header.parents = key(&["genesis", "other"]);
    assert_eq!(create(header), Err(CreateTipsetError::BadParents));
    assert!(matches!(
        Tipset::new(vec![]),
        Err(CreateTipsetError::Empty)
    ));
    assert_eq!(
        verify_block_headers(&vec![]),
        Err(CreateTipsetError::Empty)
    );
}

#[test]
fn weight_and_receipts_are_checked_after_the_rest() {
    let with = |miner: u64, weight: &[u8], receipts: &[u8]| {
        let mut header = raw(miner);
        header.weight = BigInt::from_bytes_be(false, weight);
        header.message_receipts = Cid::from_cbor_blake2b256(receipts);
        CachingBlockHeader::new(header)
    };
    let headers = |b: CachingBlockHeader| NonEmpty::new(vec![with(1, &[7], b"r"), b]).unwrap();
    assert_eq!(verify_weight_and_receipts(&headers(with(2, &[7], b"r"))), Ok(()));
    let other = headers(with(2, &[8], b"s"));
    assert_eq!(verify_block_headers(other.as_vec()), Ok(()));
    assert_eq!(
        verify_weight_and_receipts(&other),
        Err(CreateTipsetError::BadWeight)
    );
    assert_eq!(
        verify_weight_and_receipts(&headers(with(2, &[7], b"s"))),
        Err(CreateTipsetError::BadReceipts)
    );
    assert!(Tipset::new(headers(with(2, &[7], b"r")).into_vec()).is_ok());
}

#[test]
fn single_block_needs_no_identifier() {
    let mut header = raw(1);
    header.weight = BigInt::from_bytes_be(false, &[1; 128]);
    let tipset = Tipset::new(vec![CachingBlockHeader::new(header)]).unwrap();
    assert_eq!(miners(&tipset), vec![1]);
    assert_eq!(tipset.epoch(), 1);
}

#[test]
fn errors_in_words() {
    assert_eq!(
        CreateTipsetError::Empty.message(),
        "tipsets must not be empty"
    );
    assert_eq!(
        CreateTipsetError::BadParents.message(),
        "parent CID is inconsistent. All block headers in a tipset must agree on their parent tipset"
    );
    assert_eq!(
        CreateTipsetError::BadStateRoot.message(),
        "state root is inconsistent. All block headers in a tipset must agree on their parent state root"
    );
    assert_eq!(
        CreateTipsetError::BadEpoch.message(),
        "epoch is inconsistent. All block headers in a tipset must agree on their epoch"
    );
    assert_eq!(
        CreateTipsetError::DuplicateMiner.message(),
        "duplicate miner address. All miners in a tipset must be unique."
    );
    assert_eq!(
        CreateTipsetError::BadWeight.message(),
        "weight is inconsistent. All block headers in a tipset must agree on the weight of their parent tipset"
    );
    assert_eq!(
        CreateTipsetError::BadReceipts.message(),
        "receipt root is inconsistent. All block headers in a tipset must agree on their parent receipt root"
    );
}

#[test]
fn single_block_tipset() {
    let tipset = Tipset::from(CachingBlockHeader::new(raw(8)));
    assert_eq!(miners(&tipset), vec![8]);
    assert_eq!(tipset.key().len(), 1);
    assert!(tipset.key().contains(raw(8).cid()));
    assert!(tipset.eq(&tipset.clone()));
    assert!(!tipset.eq(&Tipset::new(caching(&[8, 9])).unwrap()));
}

#[test]
fn keys() {
    let k = key(&["a", "b"]);
    let cids = k.to_cids().into_vec();
    assert_eq!(k.len(), 2);
    assert!(k.contains(cids[0]) && k.contains(cids[1]));
    assert!(!k.contains(Cid::from_cbor_blake2b256(b"c")));
    assert_eq!(
        k.to_text(),
        format!("[{}, {}]", outside(&cids[0]), outside(&cids[1]))
    );
    assert_eq!(key(&["a"]).to_text(), format!("[{}]", outside(&cids[0])));
    assert!(k == k.clone());
    assert!(k != key(&["b", "a"]));
    assert!(k != key(&["a"]));
    let mut cbor = vec![0x58, 76];
    cbor.extend(cids[0].to_bytes());
    cbor.extend(cids[1].to_bytes());
    assert_eq!(k.cid().to_bytes(), blake_cid(&cbor));
    assert_eq!(k.into_cids().len(), 2);
}

#[test]
fn stored_tipset_is_loaded_by_its_key() {
    let tipset = Tipset::new(caching(&[1, 2, 3, 4])).unwrap();
    let fetch = |cid: Cid| -> Result<Option<RawBlockHeader>, String> {
        Ok((1..5).map(raw).find(|h| h.cid() == cid))
    };
    let loaded = Tipset::load(&fetch, &tipset.key()).unwrap().unwrap();
    assert!(loaded.eq(&tipset));
    assert!(loaded.key() == tipset.key());
    // the order of the key does not matter
    let mut cids = tipset.key().into_cids().into_vec();
    cids.reverse();
    let reversed = TipsetKey::from(NonEmpty::new(cids).unwrap());
    let loaded = Tipset::load_required(&fetch, &reversed).unwrap();
    assert!(loaded.eq(&tipset));
}

#[test]
fn first_block_that_cannot_be_had_decides() {
    let tsk = key(&["a", "b", "c"]);
    let cids = tsk.to_cids().into_vec();
    let asked = RefCell::new(vec![]);
    let missing_then_broken = |cid: Cid| -> Result<Option<RawBlockHeader>, String> {
        asked.borrow_mut().push(cid);
        if cid == cids[0] {
            Ok(Some(raw(1)))
        } else if cid == cids[1] {
            Ok(None)
        } else {
            Err("broken".to_string())
        }
    };
    assert!(Tipset::load(&missing_then_broken, &tsk).unwrap().is_none());
    assert_eq!(asked.borrow().len(), 2);
    assert!(matches!(
        Tipset::load_required(&missing_then_broken, &tsk),
        Err(LoadError::Missing)
    ));
    let broken_then_missing = |cid: Cid| -> Result<Option<RawBlockHeader>, String> {
        if cid == cids[0] {
            Err("broken".to_string())
        } else {
            Ok(None)
        }
    };
    match Tipset::load(&broken_then_missing, &tsk) {
        Err(LoadError::Fetch(e)) => assert_eq!(e, "broken"),
        _ => panic!("the error comes first"),
    }
    let invalid = |_: Cid| -> Result<Option<RawBlockHeader>, String> { Ok(Some(raw(1))) };
    assert!(matches!(
        Tipset::load(&invalid, &tsk),
        Err(LoadError::Invalid(CreateTipsetError::DuplicateMiner))
    ));
    assert!(matches!(
        Tipset::load_required(&invalid, &tsk),
        Err(LoadError::Invalid(CreateTipsetError::DuplicateMiner))
    ));
}

#[test]
fn chain_goes_from_child_to_parents() {
    // Three generations; the parents of the first are not stored.
    let mut headers = vec![raw(1)];
    for epoch in 2..4 {
        let mut header = raw(1);
        header.epoch = epoch;
        let parent = headers.last().unwrap().cid();
        header.parents = TipsetKey::from(NonEmpty::of_one(parent));
        headers.push(header);
    }
    let head = Tipset::from(CachingBlockHeader::new(headers[2].clone()));
    let fetch = |cid: Cid| -> Result<Option<RawBlockHeader>, String> {
        Ok(headers.iter().find(|h| h.cid() == cid).cloned())
    };
    let mut chain = head.clone().chain(&fetch);
    let mut epochs = vec![];
    while let Some(tipset) = chain.next() {
        epochs.push(tipset.epoch());
    }
    assert_eq!(epochs, vec![3, 2, 1]);
    assert!(chain.next().is_none());

    let mut chain = Tipset::chain_arc(Arc::new(head.clone()), fetch);
    let mut epochs = vec![];
    while let Some(tipset) = chain.next() {
        epochs.push(tipset.epoch());
    }
    assert_eq!(epochs, vec![3, 2, 1]);

    let mut chain = head.chain_owned(fetch);
    let mut epochs = vec![];
    while let Some(tipset) = chain.next() {
        epochs.push(tipset.epoch());
    }
    assert_eq!(epochs, vec![3, 2, 1]);
}

#[test]
fn keys_are_ordered_by_their_identifiers() {
    let cid = |last: u8| Cid::new_v1(0x71, 0x12, &[0, last]).unwrap();
    let of = |lasts: &[u8]| {
        TipsetKey::from(NonEmpty::new(lasts.iter().map(|l| cid(*l)).collect()).unwrap())
    };
    assert!(of(&[1]) < of(&[1, 0]));
    assert!(of(&[1, 9]) < of(&[2]));
    assert!(of(&[1, 2]) < of(&[1, 3]));
    assert!(of(&[4]) <= of(&[4]));
    let mut keys = vec![of(&[3]), of(&[1, 2]), of(&[1])];
    keys.sort();
    assert!(keys == [of(&[1]), of(&[1, 2]), of(&[3])]);
}
