//! Signatures and Ethereum addresses.

use crate::shim::address::{
    address_bytes, Address, AddressView, Protocol, ETHEREUM_ACCOUNT_MANAGER_ACTOR_ID,
};
use crate::utils::bytes::{
    bytes_eq, lemma_u64_bytes_value, lemma_u64_from_be_value, lemma_u64_from_le_round_trip,
    lemma_u64_le_round_trip, u64_be, u64_from_be,
};
use crate::utils::encoding::{keccak_256, keccak_256_digest};
use crate::utils::ipld::{
    bytes_from_slice, content, dag_cbor, decoded_bytes, ipld_bytes, to_vec, IpldView,
};
use fvm_shared::crypto::signature::ops::{
    recover_secp_public_key, verify_bls_sig, verify_secp256k1_sig,
};
use ipld_core::ipld::Ipld;
use vstd::prelude::*;
use vstd::slice::{slice_subrange, slice_to_vec};

verus! {

/// Length of a recoverable secp256k1 signature.
pub const SECP_SIG_LEN: usize = 65;

/// Length of an uncompressed secp256k1 public key.
pub const FULL_PUBLIC_KEY_SIZE: usize = 65;

/// Signature variants for Filecoin signatures.
#[derive(Debug, Clone, Copy, PartialEq, Eq, Hash, Structural)]
pub enum SignatureType {
    Secp256k1,
    Bls,
    Delegated,
}

impl SignatureType {
    /// The byte that stands for the type.
    pub open spec fn byte(self) -> u8 {
        match self {
            SignatureType::Secp256k1 => 1,
            SignatureType::Bls => 2,
            SignatureType::Delegated => 3,
        }
    }

    /// The byte that stands for the type.
    pub fn as_u8(self) -> (r: u8)
        ensures
            r == self.byte(),
    {
        match self {
            SignatureType::Secp256k1 => 1,
            SignatureType::Bls => 2,
            SignatureType::Delegated => 3,
        }
    }

    /// The type that a byte stands for, or the byte itself if there is none.
    pub fn try_from(value: u8) -> (r: Result<Self, u8>)
        ensures
            match r {
                Ok(sig_type) => sig_type.byte() == value,
                Err(invalid) => invalid == value && !(1 <= value <= 3),
            },
    {
        match value {
            1 => Ok(SignatureType::Secp256k1),
            2 => Ok(SignatureType::Bls),
            3 => Ok(SignatureType::Delegated),
            invalid => Err(invalid),
        }
    }

    /// The name of the type, in lower case.
    pub open spec fn text(self) -> Seq<char> {
        match self {
            SignatureType::Secp256k1 => "secp256k1"@,
            SignatureType::Bls => "bls"@,
            SignatureType::Delegated => "delegated"@,
        }
    }

    /// The name of the type, in lower case.
    pub fn name(self) -> (r: &'static str)
        ensures
            r@ == self.text(),
    {
        match self {
            SignatureType::Secp256k1 => "secp256k1",
            SignatureType::Bls => "bls",
            SignatureType::Delegated => "delegated",
        }
    }

    /// The type with the given name, which is to be in lower case.
    pub fn from_name(s: &str) -> (r: Option<SignatureType>)
        ensures
            match r {
                Some(sig_type) => sig_type.text() == s@,
                None => forall|sig_type: SignatureType| #[trigger] sig_type.text() != s@,
            },
    {
        let name = s.to_string();
        if name == SignatureType::Secp256k1.name().to_string() {
            Some(SignatureType::Secp256k1)
        } else if name == SignatureType::Bls.name().to_string() {
            Some(SignatureType::Bls)
        } else if name == SignatureType::Delegated.name().to_string() {
            Some(SignatureType::Delegated)
        } else {
            None
        }
    }
}

/// No two types have the same name.
pub proof fn lemma_names_unique(a: SignatureType, b: SignatureType)
    requires
        a.text() == b.text(),
    ensures
        a == b,
{
    reveal_strlit("secp256k1");
    reveal_strlit("bls");
    reveal_strlit("delegated");
    assert("secp256k1"@[0] != "delegated"@[0]);
}

/// A signature as plain values.
#[verifier::ext_equal]
pub struct SignatureView {
    pub sig_type: SignatureType,
    pub bytes: Seq<u8>,
}

/// A cryptographic signature, represented in bytes, of any key protocol.
#[derive(Debug, PartialEq, Eq, Hash)]
pub struct Signature {
    pub sig_type: SignatureType,
    pub bytes: Vec<u8>,
}

impl View for Signature {
    type V = SignatureView;

    open spec fn view(&self) -> SignatureView {
        SignatureView { sig_type: self.sig_type, bytes: self.bytes@ }
    }
}

impl Clone for Signature {
    fn clone(&self) -> (r: Self)
        ensures
            r@ == self@,
    {
        Signature { sig_type: self.sig_type, bytes: self.bytes.clone() }
    }
}

/// Why bytes are no signature.
#[derive(Debug, PartialEq, Eq)]
pub enum SignatureError {
    /// Not the encoding of a byte string.
    Malformed,
    /// There is no byte for the type.
    Empty,
    /// The byte for the type must be 1, 2 or 3.
    InvalidType(u8),
}

/// The bytes of a signature: the byte for its type, then the signature proper.
pub open spec fn signature_bytes(signature: SignatureView) -> Seq<u8> {
    seq![signature.sig_type.byte()] + signature.bytes
}

/// The signature that bytes stand for, or why they stand for none.
pub open spec fn is_parsed(
    bytes: Seq<u8>,
    r: Result<Signature, SignatureError>,
) -> bool {
    match r {
        Ok(signature) => bytes == signature_bytes(signature@),
        Err(SignatureError::Empty) => bytes.len() == 0,
        Err(SignatureError::InvalidType(byte)) => bytes.len() > 0 && byte == bytes[0] && !(1
            <= byte <= 3),
        Err(SignatureError::Malformed) => false,
    }
}

/// The first byte says which signature type the rest has: no bytes stand for
/// two signatures.
pub proof fn lemma_signature_bytes_injective(a: SignatureView, b: SignatureView)
    requires
        signature_bytes(a) == signature_bytes(b),
    ensures
        a == b,
{
    assert(signature_bytes(a)[0] == a.sig_type.byte());
    assert(signature_bytes(b)[0] == b.sig_type.byte());
    assert(a.bytes =~= signature_bytes(a).drop_first());
    assert(b.bytes =~= signature_bytes(b).drop_first());
}

/// The bytes of a signature can be read by place: the number of its type, then
/// the signature proper as it is.
pub proof fn lemma_signature_bytes_in_place(signature: SignatureView)
    ensures
        ({
            let bytes = signature_bytes(signature);
            &&& bytes.len() == signature.bytes.len() + 1
            &&& bytes.skip(1) == signature.bytes
            &&& match signature.sig_type {
                SignatureType::Secp256k1 => bytes[0] == 1,
                SignatureType::Bls => bytes[0] == 2,
                SignatureType::Delegated => bytes[0] == 3,
            }
        }),
{
    assert(signature_bytes(signature).skip(1) =~= signature.bytes);
}

/// A signature can be read back from its bytes.
pub proof fn lemma_signature_round_trip(
    signature: SignatureView,
    r: Result<Signature, SignatureError>,
)
    requires
        is_parsed(signature_bytes(signature), r),
    ensures
        r matches Ok(back) && back@ == signature,
{
    assert(signature_bytes(signature)[0] == signature.sig_type.byte());
    if let Ok(back) = r {
        lemma_signature_bytes_injective(back@, signature);
    }
}

impl Signature {
    /// The byte for the type, then the signature proper.
    pub fn to_bytes(&self) -> (r: Vec<u8>)
        ensures
            r@ == signature_bytes(self@),
            r@.skip(1) == self.bytes@,
    {
        proof {
            lemma_signature_bytes_in_place(self@);
        }
        let mut bytes: Vec<u8> = Vec::new();
        // Insert signature type byte
        bytes.push(self.sig_type.as_u8());
        bytes.extend_from_slice(self.bytes.as_slice());
        assert(bytes@ =~= signature_bytes(self@));
        bytes
    }

    /// The signature that bytes stand for.
    pub fn from_bytes(bytes: &[u8]) -> (r: Result<Self, SignatureError>)
        ensures
            is_parsed(bytes@, r),
            r is Ok <==> bytes.len() > 0 && 1 <= bytes@[0] <= 3,
            r matches Ok(signature) ==> signature.bytes@ == bytes@.skip(1),
    {
        if bytes.len() == 0 {
            return Err(SignatureError::Empty);
        }
        // Remove signature type byte
        match SignatureType::try_from(bytes[0]) {
            Ok(sig_type) => {
                let rest = slice_to_vec(slice_subrange(bytes, 1, bytes.len()));
                let signature = Signature { sig_type, bytes: rest };
                assert(bytes@ =~= signature_bytes(signature@));
                assert(signature.bytes@ =~= bytes@.skip(1));
                Ok(signature)
            },
            Err(byte) => Err(SignatureError::InvalidType(byte)),
        }
    }

    /// The signature as a value of the data model: a byte string.
    pub(crate) fn to_ipld(&self) -> (r: Ipld)
        ensures
            content(r) == IpldView::Bytes(signature_bytes(self@)),
    {
        ipld_bytes(self.to_bytes())
    }

    /// The encoding: the bytes of the signature as a DAG-CBOR byte string.
    pub fn serialize(&self) -> (r: Vec<u8>)
        ensures
            r@ == dag_cbor(IpldView::Bytes(signature_bytes(self@))),
    {
        to_vec(&self.to_ipld())
    }

    /// The signature that is encoded as `cbor`.
    pub fn deserialize(cbor: &[u8]) -> (r: Result<Self, SignatureError>)
        ensures
            match decoded_bytes(cbor@) {
                Some(bytes) => is_parsed(bytes, r),
                None => r == Err::<Self, SignatureError>(SignatureError::Malformed),
            },
            forall|bytes: Seq<u8>|
                cbor@ == #[trigger] dag_cbor(IpldView::Bytes(bytes)) ==> decoded_bytes(cbor@)
                    == Some(bytes),
            forall|signature: SignatureView|
                cbor@ == dag_cbor(IpldView::Bytes(#[trigger] signature_bytes(signature)))
                    ==> (r matches Ok(back) && back@ == signature),
    {
        match bytes_from_slice(cbor) {
            Some(bytes) => {
                let r = Self::from_bytes(bytes.as_slice());
                proof {
                    assert forall|signature: SignatureView|
                        cbor@ == dag_cbor(
                            IpldView::Bytes(#[trigger] signature_bytes(signature)),
                        ) implies r matches Ok(back) && back@ == signature by {
                        lemma_signature_round_trip(signature, r);
                    }
                }
                r
            },
            None => Err(SignatureError::Malformed),
        }
    }

    /// Checks if a signature is valid given data and address.
    pub fn verify(&self, data: &[u8], addr: &Address) -> (r: Result<(), VerifyError>)
        ensures
            r is Ok <==> signature_valid(self@, data@, addr@),
            r is Ok <==> match self.sig_type {
                SignatureType::Bls => bls_verifies(self.bytes@, data@, address_bytes(addr@)),
                SignatureType::Secp256k1 => secp256k1_verifies(
                    self.bytes@,
                    data@,
                    address_bytes(addr@),
                ),
                SignatureType::Delegated => signed_for(self.bytes@, data@, addr@),
            },
            r is Ok ==> addr@.protocol() == signer_protocol(self.sig_type),
            r is Ok && self.sig_type == SignatureType::Delegated ==> is_eth_delegated(addr@),
            self.sig_type == SignatureType::Delegated ==> is_delegated_outcome(
                self.bytes@,
                data@,
                addr@,
                r,
            ),
            self.sig_type != SignatureType::Delegated ==> (r matches Err(e) ==> e is Rejected),
    {
        proof {
            lemma_delegated_is_signed_for(self.bytes@, data@, addr@);
        }
        let encoded = addr.to_bytes();
        let bytes = encoded.as_slice();
        assert(is_address(bytes@));
        assert(bytes@[0] == addr@.protocol().number());
        match self.sig_type {
            SignatureType::Bls => match bls_check(self.bytes.as_slice(), data, bytes) {
                Ok(()) => Ok(()),
                Err(reason) => Err(VerifyError::Rejected(reason)),
            },
            SignatureType::Secp256k1 => match secp256k1_check(self.bytes.as_slice(), data, bytes) {
                Ok(()) => Ok(()),
                Err(reason) => Err(VerifyError::Rejected(reason)),
            },
            SignatureType::Delegated => verify_delegated_sig(self.bytes.as_slice(), data, addr),
        }
    }

    /// The same signature as a BLS signature: a point of the curve.
    pub fn to_bls(&self) -> (r: Result<BlsSignature, BlsConversionError>)
        ensures
            match self.sig_type {
                SignatureType::Secp256k1 => r matches Err(BlsConversionError::Secp256k1),
                SignatureType::Delegated => r matches Err(BlsConversionError::Delegated),
                SignatureType::Bls => match bls_decoded(self.bytes@) {
                    Some(bytes) => r matches Ok(signature) && signature.bytes@ == bytes,
                    None => r matches Err(BlsConversionError::Invalid(_)),
                },
            },
    {
        match self.sig_type {
            SignatureType::Secp256k1 => Err(BlsConversionError::Secp256k1),
            SignatureType::Bls => match bls_from_bytes(self.bytes.as_slice()) {
                Ok(bytes) => Ok(BlsSignature { bytes }),
                Err(reason) => Err(BlsConversionError::Invalid(reason)),
            },
            SignatureType::Delegated => Err(BlsConversionError::Delegated),
        }
    }
}

/// A BLS signature in compressed form.
#[derive(Debug)]
pub struct BlsSignature {
    pub bytes: Vec<u8>,
}

/// Why a signature is no BLS signature.
#[derive(Debug)]
pub enum BlsConversionError {
    /// A Secp256k1 signature cannot be converted.
    Secp256k1,
    /// A delegated signature cannot be converted.
    Delegated,
    /// The bytes are no point of the curve, for the reason given.
    Invalid(String),
}

/// The compressed form of the curve point that bytes stand for, if they do.
pub uninterp spec fn bls_decoded(bytes: Seq<u8>) -> Option<Seq<u8>>;

/// Reads a BLS signature, and gives its compressed form.
///
/// Calls `bls_signatures::Signature::from_bytes`, and `as_bytes` on the
/// outcome. The contract names the outcome as a function of the bytes. Nothing
/// is said of the text that describes a failure.
#[verifier::external_body]
fn bls_from_bytes(bytes: &[u8]) -> (r: Result<Vec<u8>, String>)
    ensures
        r is Ok <==> bls_decoded(bytes@) is Some,
        r matches Ok(signature) ==> bls_decoded(bytes@) == Some(signature@),
{
    match <bls_signatures::Signature as bls_signatures::Serialize>::from_bytes(bytes) {
        Ok(signature) => Ok(bls_signatures::Serialize::as_bytes(&signature)),
        Err(e) => Err(e.to_string()),
    }
}

/// Whether a BLS signature on some data is valid for an encoded address.
pub uninterp spec fn bls_verifies(signature: Seq<u8>, data: Seq<u8>, addr: Seq<u8>) -> bool;

/// Whether a secp256k1 signature on some data is valid for an encoded address.
pub uninterp spec fn secp256k1_verifies(
    signature: Seq<u8>,
    data: Seq<u8>,
    addr: Seq<u8>,
) -> bool;

/// The uncompressed public key that made a signature on a hash, if there is one.
pub uninterp spec fn recovered_key(hash: Seq<u8>, signature: Seq<u8>) -> Option<Seq<u8>>;

/// Checks a BLS signature.
///
/// Calls `fvm_shared::crypto::signature::ops::verify_bls_sig`. The contract
/// names the outcome as a function of signature, data and encoded address, and
/// claims that only BLS addresses pass. Nothing is said of the text that describes a
/// failure.
#[verifier::external_body]
fn bls_check(signature: &[u8], data: &[u8], addr: &[u8]) -> (r: Result<(), String>)
    requires
        is_address(addr@),
    ensures
        r is Ok <==> bls_verifies(signature@, data@, addr@),
        r is Ok ==> addr@[0] == Protocol::BLS.number(),
{
    let addr = fvm_shared::address::Address::from_bytes(addr).unwrap();
    verify_bls_sig(signature, data, &addr)
}

/// Checks a secp256k1 signature.
///
/// Calls `fvm_shared::crypto::signature::ops::verify_secp256k1_sig`. The
/// contract names the outcome as a function of signature, data and encoded
/// address, and claims that only signatures of the right length and secp256k1 addresses
/// pass. Nothing is said of the text that describes a failure.
#[verifier::external_body]
fn secp256k1_check(signature: &[u8], data: &[u8], addr: &[u8]) -> (r: Result<(), String>)
    requires
        is_address(addr@),
    ensures
        r is Ok <==> secp256k1_verifies(signature@, data@, addr@),
        r is Ok ==> signature.len() == SECP_SIG_LEN,
        r is Ok ==> addr@[0] == Protocol::Secp256k1.number(),
{
    let addr = fvm_shared::address::Address::from_bytes(addr).unwrap();
    verify_secp256k1_sig(signature, data, &addr)
}

/// Recovers the public key that made a signature.
///
/// Calls `fvm_shared::crypto::signature::ops::recover_secp_public_key`. The
/// contract names the outcome as a function of hash and signature. Nothing is
/// said of the text that describes a failure.
#[verifier::external_body]
fn recover_key(hash: &[u8; 32], signature: &[u8; 65]) -> (r: Result<[u8; 65], String>)
    ensures
        r is Ok <==> recovered_key(hash@, signature@) is Some,
        r matches Ok(key) ==> recovered_key(hash@, signature@) == Some(key@),
{
    recover_secp_public_key(hash, signature).map_err(|e| e.to_string())
}

/// Why a signature is not valid.
#[derive(Debug)]
pub enum VerifyError {
    /// The BLS or secp256k1 signature was rejected, for the reason given.
    Rejected(String),
    /// The address is not a delegated one.
    NotDelegated(Protocol),
    /// The signature has the wrong length.
    InvalidLength(usize),
    /// No key could have made the signature, for the reason given.
    Recovery(String),
    /// The recovered key has no Ethereum address.
    PublicKey(EthAddressError),
    /// The recovered key has another address.
    Mismatch,
}

/// The kind of address that a type of signature is for.
pub open spec fn signer_protocol(sig_type: SignatureType) -> Protocol {
    match sig_type {
        SignatureType::Secp256k1 => Protocol::Secp256k1,
        SignatureType::Bls => Protocol::BLS,
        SignatureType::Delegated => Protocol::Delegated,
    }
}

/// Whether bytes are the encoding of an address.
pub open spec fn is_address(bytes: Seq<u8>) -> bool {
    exists|addr: AddressView| addr.valid() && bytes == #[trigger] address_bytes(addr)
}

/// Whether an address is one that the Ethereum account manager gives out for an
/// Ethereum address.
pub open spec fn is_eth_delegated(addr: AddressView) -> bool {
    match addr {
        AddressView::Delegated(namespace, subaddress) => namespace
            == ETHEREUM_ACCOUNT_MANAGER_ACTOR_ID && subaddress.len() == 20,
        _ => false,
    }
}

/// For one signature and message, at most one address verifies: a delegated one
/// of the Ethereum account manager, with twenty bytes.
pub proof fn lemma_delegated_address_unique(
    signature: Seq<u8>,
    data: Seq<u8>,
    a: AddressView,
    b: AddressView,
)
    requires
        delegated_verifies(signature, data, a),
        delegated_verifies(signature, data, b),
    ensures
        a == b,
        is_eth_delegated(a),
{
}

/// Whether a key belongs to an address by way of its Ethereum address.
pub open spec fn key_has_address(key: Seq<u8>, addr: AddressView) -> bool {
    &&& key.len() == FULL_PUBLIC_KEY_SIZE
    &&& key[0] == 0x04
    &&& eth_address_of_key(key).len() == 20
    &&& addr == filecoin_address(eth_address_of_key(key))
}

/// Whether a delegated signature on some data is valid for an address: it was
/// made, on the Keccak hash of the data, with the key that the address is
/// derived from.
pub open spec fn delegated_verifies(
    signature: Seq<u8>,
    data: Seq<u8>,
    addr: AddressView,
) -> bool {
    &&& addr.protocol() == Protocol::Delegated
    &&& signature.len() == SECP_SIG_LEN
    &&& recovered_key(keccak_256_digest(data), signature) matches Some(key)
    &&& key_has_address(key, addr)
}

/// Whether a signature on some data is valid for an address.
pub open spec fn signature_valid(
    signature: SignatureView,
    data: Seq<u8>,
    addr: AddressView,
) -> bool {
    match signature.sig_type {
        SignatureType::Bls => bls_verifies(signature.bytes, data, address_bytes(addr)),
        SignatureType::Secp256k1 => secp256k1_verifies(
            signature.bytes,
            data,
            address_bytes(addr),
        ),
        SignatureType::Delegated => delegated_verifies(signature.bytes, data, addr),
    }
}

/// Which check of a key against an address fails first, if any does.
pub open spec fn is_key_outcome(key: Seq<u8>, addr: AddressView, r: Result<(), VerifyError>) -> bool {
    if key.len() != FULL_PUBLIC_KEY_SIZE {
        r matches Err(VerifyError::PublicKey(EthAddressError::PublicKeyLength(len))) && len
            == key.len()
    } else if key[0] != 0x04 {
        r matches Err(VerifyError::PublicKey(EthAddressError::PublicKeyPrefix))
    } else if addr != filecoin_address(eth_address_of_key(key)) {
        r matches Err(VerifyError::Mismatch)
    } else {
        r is Ok
    }
}

/// Which check of a delegated signature fails first, if any does.
pub open spec fn is_delegated_outcome(
    signature: Seq<u8>,
    data: Seq<u8>,
    addr: AddressView,
    r: Result<(), VerifyError>,
) -> bool {
    if addr.protocol() != Protocol::Delegated {
        r matches Err(VerifyError::NotDelegated(protocol)) && protocol == addr.protocol()
    } else if signature.len() != SECP_SIG_LEN {
        r matches Err(VerifyError::InvalidLength(len)) && len == signature.len()
    } else {
        match recovered_key(keccak_256_digest(data), signature) {
            None => r matches Err(VerifyError::Recovery(_)),
            Some(key) => is_key_outcome(key, addr, r),
        }
    }
}

/// Checks that an address is derived from a key.
pub fn check_key(pub_key: &[u8], addr: &Address) -> (r: Result<(), VerifyError>)
    ensures
        is_key_outcome(pub_key@, addr@, r),
        r is Ok <==> key_has_address(pub_key@, addr@),
        r is Ok <==> pub_key.len() == 65 && pub_key@[0] == 4 && addr@ == filecoin_address(
            keccak_256_digest(pub_key@.skip(1)).subrange(12, 32),
        ),
{
    let eth_addr = match EthAddress::eth_address_from_pub_key(pub_key) {
        Ok(eth_addr) => eth_addr,
        Err(e) => return Err(VerifyError::PublicKey(e)),
    };
    let rec_addr = eth_addr.to_filecoin_address();
    // check address against recovered address
    if rec_addr == *addr {
        Ok(())
    } else {
        Err(VerifyError::Mismatch)
    }
}

/// Checks a delegated signature.
pub fn verify_delegated_sig(signature: &[u8], data: &[u8], addr: &Address) -> (r: Result<
    (),
    VerifyError,
>)
    ensures
        is_delegated_outcome(signature@, data@, addr@, r),
        r is Ok <==> delegated_verifies(signature@, data@, addr@),
        r is Ok <==> signed_for(signature@, data@, addr@),
        r is Ok ==> {
            let recovered = recovered_key(keccak_256_digest(data@), signature@);
            &&& recovered is Some
            &&& addr@ == AddressView::Delegated(
                10,
                keccak_256_digest(recovered->0.skip(1)).subrange(12, 32),
            )
        },
        r is Ok ==> is_eth_delegated(addr@),
{
    proof {
        lemma_delegated_is_signed_for(signature@, data@, addr@);
    }
    let protocol = addr.protocol();
    if protocol != Protocol::Delegated {
        return Err(VerifyError::NotDelegated(protocol));
    }
    if signature.len() != SECP_SIG_LEN {
        return Err(VerifyError::InvalidLength(signature.len()));
    }
    let mut sig: [u8; 65] = [0u8; 65];
    let mut i: usize = 0;
    while i < 65
        invariant
            i <= 65,
            signature.len() == 65,
            forall|k: int| 0 <= k < i ==> sig@[k] == signature@[k],
        decreases 65 - i,
    {
        sig[i] = signature[i];
        i += 1;
    }
    assert(sig@ =~= signature@);
    let hash = keccak_256(data);
    match recover_key(&hash, &sig) {
        Ok(pub_key) => check_key(pub_key.as_slice(), addr),
        Err(reason) => Err(VerifyError::Recovery(reason)),
    }
}

/// Recovering the key from a signature on the Keccak hash of the data gives an
/// uncompressed key, and behind its first byte there is what hashes, by Keccak, to
/// a string whose last twenty bytes are the subaddress of an address in the
/// namespace of the Ethereum account manager. These bytes are no masked ID.
pub open spec fn signed_for(signature: Seq<u8>, data: Seq<u8>, addr: AddressView) -> bool {
    &&& signature.len() == 65
    &&& recovered_key(keccak_256_digest(data), signature) matches Some(key)
    &&& key.len() == 65
    &&& key[0] == 4
    &&& addr matches AddressView::Delegated(namespace, subaddress)
    &&& namespace == 10
    &&& subaddress.len() == 20
    &&& subaddress == keccak_256_digest(key.skip(1)).subrange(12, 32)
    &&& !(subaddress[0] == 0xff && forall|k: int| 1 <= k < 12 ==> #[trigger] subaddress[k] == 0)
}

/// A delegated signature is valid exactly if it was made for the address.
pub proof fn lemma_delegated_is_signed_for(signature: Seq<u8>, data: Seq<u8>, addr: AddressView)
    ensures
        delegated_verifies(signature, data, addr) <==> signed_for(signature, data, addr),
{
    if let Some(key) = recovered_key(keccak_256_digest(data), signature) {
        if key.len() == 65 {
            assert(key.subrange(1, 65) =~= key.skip(1));
        }
    }
}

/// A masked ID is a byte of ones, eleven of zeros, and the digits of the ID to
/// the base 256, most significant first.
pub proof fn lemma_mask_in_place(id: u64)
    ensures
        ({
            let s = mask(id);
            &&& s.len() == 20
            &&& s[0] == 0xff
            &&& forall|k: int| 1 <= k < 12 ==> #[trigger] s[k] == 0
            &&& id == s[19] + s[18] * 0x100 + s[17] * 0x1_0000 + s[16] * 0x100_0000 + s[15]
                * 0x1_0000_0000 + s[14] * 0x100_0000_0000 + s[13] * 0x1_0000_0000_0000 + s[12]
                * 0x100_0000_0000_0000
        }),
{
    lemma_u64_bytes_value(id);
    let (s, t) = (mask(id), u64_be(id));
    assert forall|k: int| 0 <= k < 8 implies #[trigger] t[k] == s[12 + k] by {}
    assert(t[0] == s[12] && t[1] == s[13] && t[2] == s[14] && t[3] == s[15]);
    assert(t[4] == s[16] && t[5] == s[17] && t[6] == s[18] && t[7] == s[19]);
}

/// Which address an Ethereum address stands for: an ID if it starts with a byte
/// of ones and eleven of zeros, and that ID is the number behind them; else the
/// same twenty bytes in the namespace of the Ethereum account manager.
pub proof fn lemma_filecoin_address_in_place(eth: Seq<u8>)
    requires
        eth.len() == 20,
    ensures
        eth[0] == 0xff && (forall|k: int| 1 <= k < 12 ==> #[trigger] eth[k] == 0) ==> (
        filecoin_address(eth) matches AddressView::ID(id) && id == eth[19] + eth[18] * 0x100
            + eth[17] * 0x1_0000 + eth[16] * 0x100_0000 + eth[15] * 0x1_0000_0000 + eth[14]
            * 0x100_0000_0000 + eth[13] * 0x1_0000_0000_0000 + eth[12] * 0x100_0000_0000_0000),
        !(eth[0] == 0xff && forall|k: int| 1 <= k < 12 ==> #[trigger] eth[k] == 0)
            ==> filecoin_address(eth) == AddressView::Delegated(10, eth),
{
    lemma_u64_from_be_value(eth.subrange(12, 20));
}

/// Why there is no Ethereum address.
#[derive(Debug, PartialEq, Eq)]
pub enum EthAddressError {
    /// Neither an ID address nor an address of the Ethereum account manager.
    InvalidAddress,
    /// An Ethereum address has 20 bytes.
    IncorrectLength,
    /// A delegated address cannot embed a masked ID.
    MaskedId,
    /// An uncompressed public key has 65 bytes, and not that many.
    PublicKeyLength(usize),
    /// The first byte of an uncompressed public key is 4.
    PublicKeyPrefix,
}

/// Whether an Ethereum address is a masked actor ID: a byte of ones, then
/// eleven bytes of zeros.
pub open spec fn masked(eth: Seq<u8>) -> bool {
    eth[0] == 0xff && forall|i: int| 1 <= i < 12 ==> eth[i] == 0
}

/// The masked ID of an actor: the mark, then the ID with the most significant
/// byte first.
pub open spec fn mask(id: u64) -> Seq<u8> {
    seq![0xffu8, 0, 0, 0, 0, 0, 0, 0, 0, 0, 0, 0] + u64_be(id)
}

/// The address of an Ethereum address: the ID that it masks, or an address that
/// the Ethereum account manager gives out.
pub open spec fn filecoin_address(eth: Seq<u8>) -> AddressView {
    if masked(eth) {
        AddressView::ID(u64_from_be(eth.subrange(12, 20)))
    } else {
        AddressView::Delegated(ETHEREUM_ACCOUNT_MANAGER_ACTOR_ID, eth)
    }
}

/// The Ethereum address of an address, or why it has none.
pub open spec fn eth_address(addr: AddressView) -> Result<Seq<u8>, EthAddressError> {
    match addr {
        AddressView::ID(id) => Ok(mask(id)),
        AddressView::Delegated(namespace, subaddress) => if namespace
            != ETHEREUM_ACCOUNT_MANAGER_ACTOR_ID {
            Err(EthAddressError::InvalidAddress)
        } else if subaddress.len() != 20 {
            Err(EthAddressError::IncorrectLength)
        } else if masked(subaddress) {
            Err(EthAddressError::MaskedId)
        } else {
            Ok(subaddress)
        },
        _ => Err(EthAddressError::InvalidAddress),
    }
}

/// The Ethereum address of an uncompressed public key: the last twenty bytes of
/// the Keccak hash of the key without its first byte.
pub open spec fn eth_address_of_key(key: Seq<u8>) -> Seq<u8> {
    keccak_256_digest(key.subrange(1, key.len() as int)).subrange(12, 32)
}

/// From an Ethereum address to an address and back is the identity.
pub proof fn lemma_eth_round_trip(eth: Seq<u8>)
    requires
        eth.len() == 20,
    ensures
        eth_address(filecoin_address(eth)) == Ok::<Seq<u8>, EthAddressError>(eth),
{
    if masked(eth) {
        let tail = eth.subrange(12, 20);
        lemma_u64_from_le_round_trip(tail.reverse());
        assert(u64_be(u64_from_be(tail)) =~= tail);
        assert(mask(u64_from_be(tail)) =~= eth);
    }
}

/// Where an address has an Ethereum address, going there and back is the
/// identity.
pub proof fn lemma_filecoin_round_trip(addr: AddressView)
    requires
        eth_address(addr) is Ok,
    ensures
        filecoin_address(eth_address(addr)->Ok_0) == addr,
{
    if let AddressView::ID(id) = addr {
        lemma_u64_le_round_trip(id);
        assert(mask(id).subrange(12, 20) =~= u64_be(id));
        assert(masked(mask(id)));
    }
}

/// Which Ethereum address an address has, case by case. An ID is masked. An
/// address of twenty bytes that the Ethereum account manager gives out has these
/// bytes, unless they are a masked ID. No other address has one.
pub proof fn lemma_eth_address_by_case(addr: AddressView)
    ensures
        match addr {
            AddressView::ID(id) => eth_address(addr) == Ok::<Seq<u8>, EthAddressError>(mask(id)),
            AddressView::Delegated(namespace, bytes) => {
                let masks_id = bytes[0] == 0xff && forall|k: int|
                    1 <= k < 12 ==> #[trigger] bytes[k] == 0;
                &&& namespace != 10 ==> eth_address(addr) == Err::<Seq<u8>, EthAddressError>(
                    EthAddressError::InvalidAddress,
                )
                &&& namespace == 10 && bytes.len() != 20 ==> eth_address(addr) == Err::<
                    Seq<u8>,
                    EthAddressError,
                >(EthAddressError::IncorrectLength)
                &&& namespace == 10 && bytes.len() == 20 && masks_id ==> eth_address(addr) == Err::<
                    Seq<u8>,
                    EthAddressError,
                >(EthAddressError::MaskedId)
                &&& namespace == 10 && bytes.len() == 20 && !masks_id ==> eth_address(addr) == Ok::<
                    Seq<u8>,
                    EthAddressError,
                >(bytes)
            },
            _ => eth_address(addr) == Err::<Seq<u8>, EthAddressError>(
                EthAddressError::InvalidAddress,
            ),
        },
{
}

/// Which check of a delegated signature fails is told by the error: the kind of
/// address, the length, the recovery of the key, the key itself, and last the
/// address, in this order.
pub proof fn lemma_delegated_errors_in_order(
    signature: Seq<u8>,
    data: Seq<u8>,
    addr: AddressView,
    r: Result<(), VerifyError>,
)
    requires
        is_delegated_outcome(signature, data, addr, r),
    ensures
        ({
            let recovered = recovered_key(keccak_256_digest(data), signature);
            match r {
                Ok(()) => is_eth_delegated(addr) ==> signed_for(signature, data, addr),
                Err(VerifyError::NotDelegated(protocol)) => !(addr is Delegated) && protocol
                    == addr.protocol(),
                Err(VerifyError::InvalidLength(len)) => addr is Delegated && len == signature.len()
                    && len != 65,
                Err(VerifyError::Recovery(_)) => addr is Delegated && signature.len() == 65
                    && recovered is None,
                Err(VerifyError::PublicKey(EthAddressError::PublicKeyLength(len))) => addr
                    is Delegated && signature.len() == 65 && recovered is Some && len
                    == recovered->0.len() && len != 65,
                Err(VerifyError::PublicKey(EthAddressError::PublicKeyPrefix)) => addr is Delegated
                    && signature.len() == 65 && recovered is Some && recovered->0.len() == 65
                    && recovered->0[0] != 4,
                Err(VerifyError::Mismatch) => addr is Delegated && signature.len() == 65
                    && recovered is Some && recovered->0.len() == 65 && recovered->0[0] == 4 && addr
                    != filecoin_address(
                    keccak_256_digest(recovered->0.skip(1)).subrange(12, 32),
                ),
                Err(_) => false,
            }
        }),
{
    lemma_delegated_is_signed_for(signature, data, addr);
    if let Some(key) = recovered_key(keccak_256_digest(data), signature) {
        if key.len() == 65 {
            assert(key.subrange(1, 65) =~= key.skip(1));
        }
    }
}

/// An Ethereum address.
#[derive(Debug, Clone, Copy, Default)]
pub struct EthAddress(pub [u8; 20]);

impl EthAddress {
    /// The address of this Ethereum address.
    pub fn to_filecoin_address(&self) -> (r: Address)
        ensures
            r@ == filecoin_address(self.0@),
    {
        if self.is_masked_id() {
            // This is a masked ID address.
            let id = read_u64_be(&self.0);
            Address::new_id(id)
        } else {
            // Otherwise, translate the address into an address controlled by the
            // Ethereum Address Manager.
            Address::new_delegated(ETHEREUM_ACCOUNT_MANAGER_ACTOR_ID, self.0.as_slice()).unwrap()
        }
    }

    /// The Ethereum address of an address.
    pub fn from_filecoin_address(addr: &Address) -> (r: Result<Self, EthAddressError>)
        ensures
            match eth_address(addr@) {
                Ok(eth) => r matches Ok(eth_addr) && eth_addr.0@ == eth,
                Err(e) => r == Err::<Self, EthAddressError>(e),
            },
    {
        match addr.id() {
            Some(id) => return Ok(Self::from_actor_id(id)),
            None => {},
        }
        match addr.delegated() {
            Some((namespace, subaddress)) => {
                if namespace != ETHEREUM_ACCOUNT_MANAGER_ACTOR_ID {
                    return Err(EthAddressError::InvalidAddress);
                }
                let eth_addr = match Self::try_from(subaddress.as_slice()) {
                    Ok(eth_addr) => eth_addr,
                    Err(e) => return Err(e),
                };
                if eth_addr.is_masked_id() {
                    return Err(EthAddressError::MaskedId);
                }
                Ok(eth_addr)
            },
            None => Err(EthAddressError::InvalidAddress),
        }
    }

    /// Returns the Ethereum address corresponding to an uncompressed secp256k1
    /// public key.
    pub fn eth_address_from_pub_key(pubkey: &[u8]) -> (r: Result<Self, EthAddressError>)
        ensures
            match r {
                Ok(eth_addr) => pubkey.len() == FULL_PUBLIC_KEY_SIZE && pubkey@[0] == 0x04
                    && eth_addr.0@ == eth_address_of_key(pubkey@) && eth_addr.0@
                    == keccak_256_digest(pubkey@.skip(1)).subrange(12, 32),
                Err(EthAddressError::PublicKeyLength(len)) => len == pubkey.len() && len
                    != FULL_PUBLIC_KEY_SIZE,
                Err(EthAddressError::PublicKeyPrefix) => pubkey.len() == FULL_PUBLIC_KEY_SIZE
                    && pubkey@[0] != 0x04,
                Err(_) => false,
            },
    {
        // Check if the public key has the correct length (65 bytes)
        if pubkey.len() != FULL_PUBLIC_KEY_SIZE {
            return Err(EthAddressError::PublicKeyLength(pubkey.len()));
        }
        // Check if the first byte of the public key is 0x04 (uncompressed)

        if pubkey[0] != 0x04 {
            return Err(EthAddressError::PublicKeyPrefix);
        }
        assert(pubkey@.subrange(1, pubkey.len() as int) =~= pubkey@.skip(1));
        let hash = keccak_256(slice_subrange(pubkey, 1, pubkey.len()));
        Self::try_from(slice_subrange(hash.as_slice(), 12, 32))
    }

    /// Whether this is a masked actor ID.
    pub fn is_masked_id(&self) -> (r: bool)
        ensures
            r == masked(self.0@),
            r == (self.0@[0] == 0xff && forall|k: int| 1 <= k < 12 ==> #[trigger] self.0@[k] == 0),
    {
        if self.0[0] != 0xff {
            return false;
        }
        let mut i: usize = 1;
        while i < 12
            invariant
                1 <= i <= 12,
                forall|k: int| 1 <= k < i ==> self.0@[k] == 0,
            decreases 12 - i,
        {
            if self.0[i] != 0 {
                return false;
            }
            i += 1;
        }
        true
    }

    /// The masked ID of an actor.
    pub fn from_actor_id(id: u64) -> (r: Self)
        ensures
            r.0@ == mask(id),
    {
        let payload: [u8; 20] = [
            0xff,
            0,
            0,
            0,
            0,
            0,
            0,
            0,
            0,
            0,
            0,
            0,
            (id >> 56) as u8,
            (id >> 48) as u8,
            (id >> 40) as u8,
            (id >> 32) as u8,
            (id >> 24) as u8,
            (id >> 16) as u8,
            (id >> 8) as u8,
            id as u8,
        ];
        assert(payload@ =~= mask(id));
        EthAddress(payload)
    }

    /// The Ethereum address with the given bytes.
    pub fn try_from(value: &[u8]) -> (r: Result<Self, EthAddressError>)
        ensures
            match r {
                Ok(eth_addr) => value.len() == 20 && eth_addr.0@ == value@,
                Err(e) => value.len() != 20 && e == EthAddressError::IncorrectLength,
            },
    {
        if value.len() != 20 {
            return Err(EthAddressError::IncorrectLength);
        }
        let mut payload: [u8; 20] = [0u8; 20];
        let mut i: usize = 0;
        while i < 20
            invariant
                i <= 20,
                value.len() == 20,
                forall|k: int| 0 <= k < i ==> payload@[k] == value@[k],
            decreases 20 - i,
        {
            payload[i] = value[i];
            i += 1;
        }
        assert(payload@ =~= value@);
        Ok(EthAddress(payload))
    }
}

impl PartialEq for EthAddress {
    fn eq(&self, other: &Self) -> (r: bool) {
        bytes_eq(self.0.as_slice(), other.0.as_slice())
    }
}

impl vstd::std_specs::cmp::PartialEqSpecImpl for EthAddress {
    open spec fn obeys_eq_spec() -> bool {
        true
    }

    open spec fn eq_spec(&self, other: &Self) -> bool {
        self.0@ == other.0@
    }
}

/// The last eight bytes as an integer, most significant first.
fn read_u64_be(bytes: &[u8; 20]) -> (r: u64)
    ensures
        r == u64_from_be(bytes@.subrange(12, 20)),
{
    assert(bytes@.subrange(12, 20).reverse() =~= seq![
        bytes@[19],
        bytes@[18],
        bytes@[17],
        bytes@[16],
        bytes@[15],
        bytes@[14],
        bytes@[13],
        bytes@[12],
    ]);
    bytes[19] as u64 | (bytes[18] as u64) << 8 | (bytes[17] as u64) << 16 | (bytes[16] as u64) << 24
        | (bytes[15] as u64) << 32 | (bytes[14] as u64) << 40 | (bytes[13] as u64) << 48 | (
    bytes[12] as u64) << 56
}

} // verus!
