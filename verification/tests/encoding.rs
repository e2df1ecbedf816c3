use forest_car::utils::bytes::bytes_eq;
use forest_car::utils::encoding::serde_byte_array::{
    check_len, deserialize, serialize, ByteArrayError, BYTE_ARRAY_MAX_LEN,
};
use forest_car::utils::encoding::{blake2b_256, from_slice_with_fallback, keccak_256};
use forest_car::utils::nonempty::NonEmpty;

fn hex(bytes: &[u8]) -> String {
    bytes.iter().map(|b| format!("{b:02x}")).collect()
}

#[test]
fn blake2b_of_nothing() {
    assert_eq!(
        hex(&blake2b_256(&[])),
        "0e5751c026e543b2e8ab2eb06099daa1d1e5df47778f7787faab45cdf12fe3a8"
    );
}

#[test]
fn keccak_of_nothing() {
    assert_eq!(
        hex(&keccak_256(&[])),
        "c5d2460186f7233c927e7db2dcc703c0e500b653ca82273b7bfad8045d85a470"
    );
}

#[test]
fn hashes_depend_on_the_data() {
    assert_ne!(blake2b_256(b"a"), blake2b_256(b"b"));
    assert_ne!(keccak_256(b"a"), keccak_256(b"b"));
    assert_eq!(blake2b_256(b"a").len(), 32);
    assert_eq!(keccak_256(b"a").len(), 32);
}

#[test]
fn byte_array_round_trip() {
    assert_eq!(BYTE_ARRAY_MAX_LEN, 2097152);
    assert_eq!(serialize(&[1, 2, 3]), Ok(vec![0x43, 1, 2, 3]));
    assert_eq!(serialize(&[]), Ok(vec![0x40]));
    for len in [0, 1, 23, 24, 255, 256, 70_000, BYTE_ARRAY_MAX_LEN] {
        let bytes = vec![0xab; len];
        let cbor = serialize(&bytes).unwrap();
        assert_ne!(cbor, bytes);
        assert_eq!(deserialize(&cbor), Ok(bytes));
    }
}

#[test]
fn byte_array_that_is_too_long() {
    let long = vec![0; BYTE_ARRAY_MAX_LEN + 1];
    assert_eq!(serialize(&long), Err(ByteArrayError::ExceedsMaxLength));
    let mut cbor = vec![0x5a, 0x00, 0x20, 0x00, 0x01];
    cbor.extend(&long);
    assert_eq!(deserialize(&cbor), Err(ByteArrayError::ExceedsMaxLength));
    assert_eq!(check_len(long), Err(ByteArrayError::ExceedsMaxLength));
    assert_eq!(check_len(vec![7]), Ok(vec![7]));
}

#[test]
fn byte_array_that_is_none() {
    // a text string, a list, an integer, nothing, and something behind the string
    for cbor in [&[0x61, 0x61][..], &[0x81, 0x01], &[0x07], &[], &[0x41, 1, 2]] {
        assert_eq!(deserialize(cbor), Err(ByteArrayError::Malformed));
    }
}

#[test]
fn fallback_is_only_asked_after_a_failure() {
    let regular: Result<u8, String> = Ok(5);
    let r = from_slice_with_fallback(regular, || panic!("not needed"));
    assert_eq!(r, Ok(5));
    let failed: Result<u8, String> = Err("bad".to_string());
    assert_eq!(from_slice_with_fallback(failed.clone(), || Ok(6)), Ok(6));
    assert_eq!(
        from_slice_with_fallback(failed, || Err("worse".to_string())),
        Err("Fallback deserialization failed: worse. Original error: bad".to_string())
    );
}

#[test]
fn non_empty_vectors() {
    let empty: Vec<u8> = vec![];
    assert!(NonEmpty::new(empty).is_err());
    let v = NonEmpty::new(vec![4, 5]).unwrap();
    assert_eq!(*v.first(), 4);
    assert_eq!(v.len(), 2);
    assert_eq!(*v.as_vec(), vec![4, 5]);
    assert_eq!(v.into_vec(), vec![4, 5]);
    assert_eq!(NonEmpty::of_one(1).into_vec(), vec![1]);
}

#[test]
fn byte_strings_are_compared() {
    assert!(bytes_eq(&[], &[]));
    assert!(bytes_eq(&[1, 2], &[1, 2]));
    assert!(!bytes_eq(&[1, 2], &[1, 3]));
    assert!(!bytes_eq(&[1], &[1, 3]));
}
