use bls_signatures::Serialize;
use forest_car::shim::address::{Address, Protocol};
use forest_car::shim::crypto::{
    check_key, verify_delegated_sig, BlsConversionError, EthAddress, EthAddressError, Signature,
    SignatureError, SignatureType, VerifyError,
};
use forest_car::utils::encoding::{blake2b_256, keccak_256};

fn signature(sig_type: SignatureType, bytes: &[u8]) -> Signature {
    Signature {
        sig_type,
        bytes: bytes.to_vec(),
    }
}

fn secret_key() -> libsecp256k1::SecretKey {
    libsecp256k1::SecretKey::parse(&[0x42; 32]).unwrap()
}

fn sign(hash: [u8; 32]) -> Vec<u8> {
    let message = libsecp256k1::Message::parse(&hash);
    let (signature, recovery) = libsecp256k1::sign(&message, &secret_key());
    let mut bytes = signature.serialize().to_vec();
    bytes.push(recovery.serialize());
    bytes
}

fn public_key() -> [u8; 65] {
    libsecp256k1::PublicKey::from_secret_key(&secret_key()).serialize()
}

fn secp_address() -> Address {
    let hash = blake2b_simd::Params::new().hash_length(20).hash(&public_key());
    Address::new_secp256k1(hash.as_bytes().try_into().unwrap())
}

fn eth_address() -> EthAddress {
    EthAddress::eth_address_from_pub_key(&public_key()).unwrap()
}

#[test]
fn signature_types_and_their_bytes() {
    for (byte, sig_type, name) in [
        (1, SignatureType::Secp256k1, "secp256k1"),
        (2, SignatureType::Bls, "bls"),
        (3, SignatureType::Delegated, "delegated"),
    ] {
        assert_eq!(SignatureType::try_from(byte), Ok(sig_type));
        assert_eq!(sig_type.as_u8(), byte);
        assert_eq!(sig_type.name(), name);
        assert_eq!(SignatureType::from_name(name), Some(sig_type));
    }
    for name in ["", "BLS", "Bls", "bls ", "secp256k", "secp256k11", "delegate"] {
        assert_eq!(SignatureType::from_name(name), None);
    }
    for byte in [0, 4, 255] {
        assert_eq!(SignatureType::try_from(byte), Err(byte));
    }
}

#[test]
fn signature_round_trip() {
    let sig = signature(SignatureType::Bls, &[7, 8]);
    assert_eq!(sig.to_bytes(), [2, 7, 8]);
    assert_eq!(sig.serialize(), [0x43, 2, 7, 8]);
    for sig_type in [
        SignatureType::Secp256k1,
        SignatureType::Bls,
        SignatureType::Delegated,
    ] {
        for len in [0, 1, 65, 96, 300] {
            let sig = signature(sig_type, &vec![0x5a; len]);
            assert_eq!(Signature::from_bytes(&sig.to_bytes()), Ok(sig.clone()));
            assert_eq!(Signature::deserialize(&sig.serialize()), Ok(sig.clone()));
        }
    }
}

#[test]
fn bytes_that_are_no_signature() {
    assert_eq!(Signature::from_bytes(&[]), Err(SignatureError::Empty));
    assert_eq!(
        Signature::from_bytes(&[4, 1]),
        Err(SignatureError::InvalidType(4))
    );
    assert_eq!(Signature::deserialize(&[0x40]), Err(SignatureError::Empty));
    assert_eq!(
        Signature::deserialize(&[0x41, 0]),
        Err(SignatureError::InvalidType(0))
    );
    assert_eq!(
        Signature::deserialize(&[0x01]),
        Err(SignatureError::Malformed)
    );
}

#[test]
fn bls_signatures_are_verified() {
    let key = bls_signatures::PrivateKey::new([7; 32]);
    let addr = Address::new_bls(key.public_key().as_bytes().try_into().unwrap());
    let sig = signature(SignatureType::Bls, &key.sign(b"data").as_bytes());
    assert!(sig.verify(b"data", &addr).is_ok());
    assert!(matches!(
        sig.verify(b"other", &addr),
        Err(VerifyError::Rejected(_))
    ));
    assert!(matches!(
        sig.verify(b"data", &secp_address()),
        Err(VerifyError::Rejected(_))
    ));
    let broken = signature(SignatureType::Bls, &[0; 96]);
    assert!(broken.verify(b"data", &addr).is_err());
}

#[test]
fn secp256k1_signatures_are_verified() {
    let sig = signature(SignatureType::Secp256k1, &sign(blake2b_256(b"data")));
    assert!(sig.verify(b"data", &secp_address()).is_ok());
    assert!(sig.verify(b"other", &secp_address()).is_err());
    assert!(sig.verify(b"data", &Address::new_id(5)).is_err());
    let short = signature(SignatureType::Secp256k1, &sig.bytes[..64]);
    assert!(matches!(
        short.verify(b"data", &secp_address()),
        Err(VerifyError::Rejected(_))
    ));
}

#[test]
fn delegated_signatures_are_verified() {
    let addr = eth_address().to_filecoin_address();
    let bytes = sign(keccak_256(b"data"));
    let sig = signature(SignatureType::Delegated, &bytes);
    assert!(sig.verify(b"data", &addr).is_ok());
    assert!(verify_delegated_sig(&bytes, b"data", &addr).is_ok());
    assert!(matches!(
        verify_delegated_sig(&bytes, b"other", &addr),
        Err(VerifyError::Mismatch)
    ));
    assert!(matches!(
        verify_delegated_sig(&bytes, b"data", &Address::new_id(5)),
        Err(VerifyError::NotDelegated(Protocol::ID))
    ));
    assert!(matches!(
        verify_delegated_sig(&bytes[..64], b"data", &addr),
        Err(VerifyError::InvalidLength(64))
    ));
    let mut unrecoverable = bytes.clone();
    unrecoverable[64] = 77;
    assert!(matches!(
        verify_delegated_sig(&unrecoverable, b"data", &addr),
        Err(VerifyError::Recovery(_))
    ));
    let other = Address::new_delegated(32, &eth_address().0).unwrap();
    assert!(matches!(
        sig.verify(b"data", &other),
        Err(VerifyError::Mismatch)
    ));
}

#[test]
fn keys_are_checked_against_addresses() {
    let addr = eth_address().to_filecoin_address();
    assert!(check_key(&public_key(), &addr).is_ok());
    assert!(matches!(
        check_key(&public_key()[..64], &addr),
        Err(VerifyError::PublicKey(EthAddressError::PublicKeyLength(64)))
    ));
    let mut compressed = public_key();
    compressed[0] = 2;
    assert!(matches!(
        check_key(&compressed, &addr),
        Err(VerifyError::PublicKey(EthAddressError::PublicKeyPrefix))
    ));
    assert!(matches!(
        check_key(&public_key(), &secp_address()),
        Err(VerifyError::Mismatch)
    ));
}

#[test]
fn conversion_to_bls_signatures() {
    let key = bls_signatures::PrivateKey::new([9; 32]);
    let point = key.sign(b"x").as_bytes();
    let bls = signature(SignatureType::Bls, &point).to_bls().unwrap();
    assert_eq!(bls.bytes, point);
    assert!(matches!(
        signature(SignatureType::Bls, &[1; 96]).to_bls(),
        Err(BlsConversionError::Invalid(_))
    ));
    assert!(matches!(
        signature(SignatureType::Bls, &point[..95]).to_bls(),
        Err(BlsConversionError::Invalid(_))
    ));
    assert!(matches!(
        signature(SignatureType::Secp256k1, &point).to_bls(),
        Err(BlsConversionError::Secp256k1)
    ));
    assert!(matches!(
        signature(SignatureType::Delegated, &point).to_bls(),
        Err(BlsConversionError::Delegated)
    ));
}

#[test]
fn eth_address_of_a_known_key() {
    // The key of the secret key 1
    let secret = libsecp256k1::SecretKey::parse_slice(&[&[0u8; 31][..], &[1]].concat()).unwrap();
    let key = libsecp256k1::PublicKey::from_secret_key(&secret).serialize();
    let address = EthAddress::eth_address_from_pub_key(&key).unwrap();
    assert_eq!(
        address.0,
        [
            0x7e, 0x5f, 0x45, 0x52, 0x09, 0x1a, 0x69, 0x12, 0x5d, 0x5d, 0xfc, 0xb7, 0xb8, 0xc2,
            0x65, 0x90, 0x29, 0x39, 0x5b, 0xdf
        ]
    );
}

#[test]
fn masked_ids() {
    let address = EthAddress::from_actor_id(0x0102);
    let mut bytes = [0; 20];
    bytes[0] = 0xff;
    bytes[18] = 1;
    bytes[19] = 2;
    assert_eq!(address.0, bytes);
    assert!(address.is_masked_id());
    assert!(address.to_filecoin_address() == Address::new_id(0x0102));
    bytes[11] = 1;
    assert!(!EthAddress(bytes).is_masked_id());
    bytes[11] = 0;
    bytes[0] = 0xfe;
    assert!(!EthAddress(bytes).is_masked_id());
}

#[test]
fn eth_addresses_and_back() {
    for id in [0, 1, 255, 256, u64::MAX] {
        let addr = Address::new_id(id);
        let eth = EthAddress::from_filecoin_address(&addr).unwrap();
        assert_eq!(eth, EthAddress::from_actor_id(id));
        assert!(eth.to_filecoin_address() == addr);
    }
    let eth = EthAddress([0x11; 20]);
    let addr = eth.to_filecoin_address();
    assert!(addr == Address::new_delegated(10, &[0x11; 20]).unwrap());
    assert_eq!(EthAddress::from_filecoin_address(&addr), Ok(eth));
}

#[test]
fn addresses_without_eth_address() {
    let from = |addr: Option<Address>| EthAddress::from_filecoin_address(&addr.unwrap());
    assert_eq!(
        from(Some(secp_address())),
        Err(EthAddressError::InvalidAddress)
    );
    assert_eq!(
        from(Some(Address::new_actor([1; 20]))),
        Err(EthAddressError::InvalidAddress)
    );
    assert_eq!(
        from(Some(Address::new_bls([1; 48]))),
        Err(EthAddressError::InvalidAddress)
    );
    assert_eq!(
        from(Address::new_delegated(11, &[1; 20])),
        Err(EthAddressError::InvalidAddress)
    );
    assert_eq!(
        from(Address::new_delegated(10, &[1; 19])),
        Err(EthAddressError::IncorrectLength)
    );
    assert_eq!(
        from(Address::new_delegated(10, &EthAddress::from_actor_id(3).0)),
        Err(EthAddressError::MaskedId)
    );
    assert_eq!(
        EthAddress::try_from(&[0; 21][..]),
        Err(EthAddressError::IncorrectLength)
    );
    assert_eq!(EthAddress::try_from(&[5; 20][..]), Ok(EthAddress([5; 20])));
}

#[test]
fn addresses_encode_as_their_protocol_says() {
    assert_eq!(Address::new_id(300).to_bytes(), [0, 0xac, 0x02]);
    assert_eq!(Address::new_secp256k1([7; 20]).to_bytes()[..2], [1, 7]);
    assert_eq!(Address::new_actor([7; 20]).to_bytes()[..2], [2, 7]);
    assert_eq!(Address::new_bls([7; 48]).to_bytes().len(), 49);
    assert_eq!(
        Address::new_delegated(200, &[9]).unwrap().to_bytes(),
        [4, 0xc8, 1, 9]
    );
    assert!(Address::new_delegated(1, &[0; 54]).is_some());
    assert!(Address::new_delegated(1, &[0; 55]).is_none());
    for addr in [
        Address::new_id(u64::MAX),
        Address::new_secp256k1([7; 20]),
        Address::new_actor([8; 20]),
        Address::new_bls([9; 48]),
        Address::new_delegated(10, &[3; 20]).unwrap(),
        Address::new_delegated(u64::MAX, &[]).unwrap(),
    ] {
        let outside = fvm_shared::address::Address::from_bytes(&addr.to_bytes()).unwrap();
        assert_eq!(outside.to_bytes(), addr.to_bytes());
        assert_eq!(outside.protocol() as u8, addr.protocol().as_u8());
        assert_eq!(outside.id().ok(), addr.id());
    }
}

#[test]
fn addresses_are_equal_by_value() {
    let a = Address::new_delegated(10, &[1, 2]).unwrap();
    assert!(a == Address::new_delegated(10, &[1, 2]).unwrap());
    assert!(a != Address::new_delegated(10, &[1, 2, 0]).unwrap());
    assert!(a != Address::new_delegated(11, &[1, 2]).unwrap());
    assert!(Address::new_actor([1; 20]) != Address::new_secp256k1([1; 20]));
    assert_eq!(a.delegated(), Some((10, vec![1, 2])));
    assert_eq!(Address::new_id(1).delegated(), None);
}
