//! Content identifiers.

use super::bytes::{
    bytes_eq, lemma_read_uvarint, lemma_uvarint_prefix_free, read_uvarint, uvarint,
};
use super::encoding::{blake2b_256, blake2b_256_digest};
use vstd::prelude::*;
use vstd::slice::slice_subrange;

verus! {

/// Multicodec code of DAG-PB.
pub const DAG_PB: u64 = 0x70;

/// Multicodec code of DAG-CBOR.
pub const DAG_CBOR: u64 = 0x71;

/// Multihash code of SHA2-256.
pub const SHA2_256: u64 = 0x12;

/// Multihash code of BLAKE2b with a 32-byte output.
pub const BLAKE2B_256: u64 = 0xb220;

/// Number of bytes that a digest can have.
pub const MAX_DIGEST_LEN: usize = 64;

/// What a content identifier says: how the content is encoded, and its hash.
#[verifier::ext_equal]
pub struct CidView {
    pub version: u64,
    pub codec: u64,
    pub code: u64,
    pub digest: Seq<u8>,
}

impl CidView {
    /// Version 0 is for DAG-PB content with a SHA2-256 hash only.
    pub open spec fn valid(self) -> bool {
        &&& self.version <= 1
        &&& self.digest.len() <= MAX_DIGEST_LEN
        &&& self.version == 0 ==> self.codec == DAG_PB && self.code == SHA2_256
            && self.digest.len() == 32
    }
}

/// The binary form: version and codec (in version 1 only), then the code,
/// length and bytes of the digest.
pub open spec fn cid_bytes(cid: CidView) -> Seq<u8> {
    let multihash = uvarint(cid.code as nat) + uvarint(cid.digest.len()) + cid.digest;
    if cid.version == 0 {
        multihash
    } else {
        uvarint(cid.version as nat) + uvarint(cid.codec as nat) + multihash
    }
}

/// The binary form of an identifier is not empty.
pub(crate) proof fn lemma_cid_bytes_nonempty(cid: CidView)
    ensures
        cid_bytes(cid).len() > 0,
{
    assert(uvarint(cid.code as nat).len() > 0);
    assert(uvarint(cid.version as nat).len() > 0);
}

/// The binary form of an identifier says by itself where it ends, and which
/// identifier it is.
pub proof fn lemma_cid_bytes_prefix_free(a: CidView, b: CidView, x: Seq<u8>, y: Seq<u8>)
    requires
        a.valid(),
        b.valid(),
        cid_bytes(a) + x == cid_bytes(b) + y,
    ensures
        a == b,
        x == y,
{
    let left = cid_bytes(a) + x;
    let right = cid_bytes(b) + y;
    let a_hash = uvarint(a.digest.len()) + a.digest;
    let b_hash = uvarint(b.digest.len()) + b.digest;
    let a_multihash = uvarint(a.code as nat) + uvarint(a.digest.len()) + a.digest;
    let b_multihash = uvarint(b.code as nat) + uvarint(b.digest.len()) + b.digest;
    let a_first = if a.version == 0 {
        a.code as nat
    } else {
        1
    };
    let b_first = if b.version == 0 {
        b.code as nat
    } else {
        1
    };
    let a_rest = if a.version == 0 {
        a_hash + x
    } else {
        uvarint(a.codec as nat) + a_multihash + x
    };
    let b_rest = if b.version == 0 {
        b_hash + y
    } else {
        uvarint(b.codec as nat) + b_multihash + y
    };
    assert(left =~= uvarint(a_first) + a_rest);
    assert(right =~= uvarint(b_first) + b_rest);
    lemma_uvarint_prefix_free(a_first, b_first, a_rest, b_rest);
    if a.version == 1 {
        assert(a_rest =~= uvarint(a.codec as nat) + (a_multihash + x));
        assert(b_rest =~= uvarint(b.codec as nat) + (b_multihash + y));
        lemma_uvarint_prefix_free(
            a.codec as nat,
            b.codec as nat,
            a_multihash + x,
            b_multihash + y,
        );
        assert(a_multihash + x =~= uvarint(a.code as nat) + (a_hash + x));
        assert(b_multihash + y =~= uvarint(b.code as nat) + (b_hash + y));
        lemma_uvarint_prefix_free(a.code as nat, b.code as nat, a_hash + x, b_hash + y);
    }
    assert(a_hash + x =~= uvarint(a.digest.len()) + (a.digest + x));
    assert(b_hash + y =~= uvarint(b.digest.len()) + (b.digest + y));
    lemma_uvarint_prefix_free(a.digest.len(), b.digest.len(), a.digest + x, b.digest + y);
    let n = a.digest.len() as int;
    assert(a.digest =~= (a.digest + x).take(n));
    assert(b.digest =~= (b.digest + y).take(n));
    assert(x =~= (a.digest + x).skip(n));
    assert(y =~= (b.digest + y).skip(n));
    assert(a =~= b);
}

/// The identifier at the start of some bytes, and what follows it. Version 0 is
/// told by the code and length of a SHA2-256 hash at the start.
pub open spec fn read_cid(bytes: Seq<u8>) -> (CidView, Seq<u8>) {
    if bytes[0] == 0x12 && bytes[1] == 32 {
        let digest = bytes.subrange(2, 34);
        (CidView { version: 0, codec: 0x70, code: 0x12, digest }, bytes.skip(34))
    } else {
        let (version, rest) = read_uvarint(bytes);
        let (codec, rest) = read_uvarint(rest);
        let (code, rest) = read_uvarint(rest);
        let (size, rest) = read_uvarint(rest);
        let digest = rest.take(size as int);
        (
            CidView { version: version as u64, codec: codec as u64, code: code as u64, digest },
            rest.skip(size as int),
        )
    }
}

/// An identifier is read back from its binary form, whatever follows.
pub proof fn lemma_read_cid(cid: CidView, rest: Seq<u8>)
    requires
        cid.valid(),
    ensures
        read_cid(cid_bytes(cid) + rest) == (cid, rest),
{
    let bytes = cid_bytes(cid) + rest;
    let size = cid.digest.len();
    let hash = cid.digest + rest;
    assert(hash.take(size as int) =~= cid.digest);
    assert(hash.skip(size as int) =~= rest);
    if cid.version == 0 {
        assert(uvarint(0x12) =~= seq![0x12u8]);
        assert(uvarint(32) =~= seq![32u8]);
        assert(bytes =~= seq![0x12u8, 32u8] + hash);
        assert(bytes.subrange(2, 34) =~= cid.digest);
        assert(bytes.skip(34) =~= rest);
    } else {
        let a = uvarint(size) + hash;
        let b = uvarint(cid.code as nat) + a;
        let c = uvarint(cid.codec as nat) + b;
        assert(bytes =~= uvarint(1) + c);
        assert(uvarint(1) =~= seq![1u8]);
        assert(bytes[0] == 1);
        lemma_read_uvarint(1, c);
        lemma_read_uvarint(cid.codec as nat, b);
        lemma_read_uvarint(cid.code as nat, a);
        lemma_read_uvarint(size, hash);
    }
}

/// The binary form ends with the bytes of the digest as they are. It starts with
/// a byte for version 1, and in version 0 with the code and length of the hash.
pub proof fn lemma_cid_bytes_end_with_digest(cid: CidView)
    requires
        cid.valid(),
    ensures
        ({
            let bytes = cid_bytes(cid);
            let start = bytes.len() - cid.digest.len();
            &&& 2 <= start
            &&& forall|k: int|
                0 <= k < cid.digest.len() ==> #[trigger] bytes[start + k] == cid.digest[k]
            &&& cid.version == 1 ==> bytes[0] == 1 && bytes[start - 1] == cid.digest.len()
            &&& cid.version == 0 ==> start == 2 && bytes[0] == 0x12 && bytes[1] == 0x20
        }),
{
    let bytes = cid_bytes(cid);
    let size = cid.digest.len();
    assert(uvarint(size) =~= seq![size as u8]);
    assert(uvarint(cid.code as nat).len() > 0);
    if cid.version == 0 {
        assert(uvarint(0x12) =~= seq![0x12u8]);
    } else {
        assert(uvarint(1) =~= seq![1u8]);
    }
}

/// The identifier of DAG-CBOR content, hashed with BLAKE2b.
pub open spec fn dag_cbor_cid(cbor: Seq<u8>) -> CidView {
    CidView {
        version: 1,
        codec: DAG_CBOR,
        code: BLAKE2B_256,
        digest: blake2b_256_digest(cbor),
    }
}

/// The binary form of the identifier of DAG-CBOR content determines the
/// identifier.
pub proof fn lemma_dag_cbor_cid_bytes_unique(a: Seq<u8>, b: Seq<u8>)
    requires
        cid_bytes(dag_cbor_cid(a)) == cid_bytes(dag_cbor_cid(b)),
    ensures
        dag_cbor_cid(a) == dag_cbor_cid(b),
{
    let (x, y) = (blake2b_256_digest(a), blake2b_256_digest(b));
    let prefix = uvarint(1) + uvarint(DAG_CBOR as nat) + uvarint(BLAKE2B_256 as nat);
    let n = prefix.len() as int;
    assert(cid_bytes(dag_cbor_cid(a)) =~= prefix + (uvarint(x.len()) + x));
    assert(cid_bytes(dag_cbor_cid(b)) =~= prefix + (uvarint(y.len()) + y));
    assert(uvarint(x.len()) + x =~= cid_bytes(dag_cbor_cid(a)).skip(n));
    assert(uvarint(y.len()) + y =~= cid_bytes(dag_cbor_cid(b)).skip(n));
    lemma_uvarint_prefix_free(x.len(), y.len(), x, y);
}

/// The text form of an identifier: the binary form in base 32, or in base 58
/// for version 0.
pub uninterp spec fn cid_text(cid: CidView) -> Seq<char>;

/// The parts of an identifier as fixed-size values.
pub type CidParts = (u64, u64, u64, u8, [u8; 64]);

/// The parts belong to the identifier.
pub open spec fn is_parts_of(parts: CidParts, cid: CidView) -> bool {
    &&& parts.0 == cid.version
    &&& parts.1 == cid.codec
    &&& parts.2 == cid.code
    &&& parts.3 == cid.digest.len()
    &&& parts.3 <= MAX_DIGEST_LEN
    &&& parts.4@.take(parts.3 as int) == cid.digest
    &&& forall|i: int| parts.3 <= i < MAX_DIGEST_LEN ==> parts.4@[i] == 0
}

/// Parts and identifiers belong together one to one.
pub proof fn lemma_parts_one_to_one(a: CidParts, b: CidParts, x: CidView, y: CidView)
    requires
        is_parts_of(a, x),
        is_parts_of(b, y),
    ensures
        a == b <==> x == y,
{
    if x == y {
        assert forall|i: int| 0 <= i < MAX_DIGEST_LEN implies a.4@[i] == b.4@[i] by {
            if i < a.3 {
                assert(a.4@[i] == a.4@.take(a.3 as int)[i]);
                assert(b.4@[i] == b.4@.take(b.3 as int)[i]);
            }
        }
        assert(a.4@ =~= b.4@);
        assert(a.4 =~= b.4);
    }
    if a == b {
        assert(x =~= y);
    }
}

/// A content identifier.
#[derive(Debug, Clone, Copy, Eq, Hash, PartialOrd, Ord)]
pub struct Cid {
    version: u64,
    codec: u64,
    code: u64,
    size: u8,
    /// Zero from `size` on.
    digest: [u8; 64],
}

impl View for Cid {
    type V = CidView;

    closed spec fn view(&self) -> CidView {
        CidView {
            version: self.version,
            codec: self.codec,
            code: self.code,
            digest: self.digest@.take(self.size as int),
        }
    }
}

impl Cid {
    #[verifier::type_invariant]
    spec fn inv(self) -> bool {
        &&& self@.valid()
        &&& self.size <= MAX_DIGEST_LEN
        &&& forall|i: int| self.size <= i < MAX_DIGEST_LEN ==> self.digest@[i] == 0
    }

    /// An identifier of version 1, unless the digest is too long.
    pub fn new_v1(codec: u64, code: u64, digest: &[u8]) -> (r: Option<Self>)
        ensures
            r is Some <==> digest.len() <= MAX_DIGEST_LEN,
            r matches Some(cid) ==> cid@ == (CidView { version: 1, codec, code, digest: digest@ }),
    {
        if digest.len() > MAX_DIGEST_LEN {
            return None;
        }
        let (buffer, size) = fill(digest);
        Some(Cid { version: 1, codec, code, size, digest: buffer })
    }

    /// An identifier of version 0, unless the digest has the wrong length.
    pub fn new_v0(digest: &[u8]) -> (r: Option<Self>)
        ensures
            r is Some <==> digest.len() == 32,
            r matches Some(cid) ==> cid@ == (CidView {
                version: 0,
                codec: DAG_PB,
                code: SHA2_256,
                digest: digest@,
            }),
    {
        if digest.len() != 32 {
            return None;
        }
        let (buffer, size) = fill(digest);
        Some(Cid { version: 0, codec: DAG_PB, code: SHA2_256, size, digest: buffer })
    }

    /// The identifier of content that is encoded as DAG-CBOR: version 1,
    /// hashed with BLAKE2b.
    pub fn from_cbor_blake2b256(cbor: &[u8]) -> (r: Self)
        ensures
            r@ == dag_cbor_cid(cbor@),
            r@.version == 1 && r@.codec == 0x71 && r@.code == 0xb220,
            r@.digest == blake2b_256_digest(cbor@),
            r@.valid(),
            r@.digest.len() == 32,
    {
        let hash = blake2b_256(cbor);
        let (buffer, size) = fill(hash.as_slice());
        Cid { version: 1, codec: DAG_CBOR, code: BLAKE2B_256, size, digest: buffer }
    }

    /// All parts as fixed-size values: version, codec, hash code, length of
    /// the digest, and the digest with zeros behind it.
    pub(crate) fn to_parts(&self) -> (r: CidParts)
        ensures
            is_parts_of(r, self@),
    {
        proof {
            use_type_invariant(self);
        }
        (self.version, self.codec, self.code, self.size, self.digest)
    }

    /// The identifier with the given parts.
    pub(crate) fn from_parts(parts: CidParts) -> (r: Self)
        requires
            exists|view: CidView| view.valid() && #[trigger] is_parts_of(parts, view),
        ensures
            is_parts_of(parts, r@),
    {
        let (version, codec, code, size, digest) = parts;
        proof {
            let view = choose|view: CidView| view.valid() && #[trigger] is_parts_of(parts, view);
            assert(parts.4@.take(parts.3 as int) == view.digest);
        }
        Cid { version, codec, code, size, digest }
    }

    /// The version.
    pub fn version(&self) -> (r: u64)
        ensures
            r == self@.version,
    {
        self.version
    }

    /// Multicodec code of the content.
    pub fn codec(&self) -> (r: u64)
        ensures
            r == self@.codec,
    {
        self.codec
    }

    /// Multihash code of the digest.
    pub fn hash_code(&self) -> (r: u64)
        ensures
            r == self@.code,
    {
        self.code
    }

    /// The digest.
    pub fn digest(&self) -> (r: &[u8])
        ensures
            r@ == self@.digest,
            self@.valid(),
    {
        proof {
            use_type_invariant(self);
        }
        let all = self.digest.as_slice();
        assert(all@.subrange(0, self.size as int) =~= self@.digest);
        slice_subrange(all, 0, self.size as usize)
    }

    /// The binary form.
    pub fn to_bytes(&self) -> (r: Vec<u8>)
        ensures
            r@ == cid_bytes(self@),
            self@.valid(),
            read_cid(r@) == (self@, Seq::<u8>::empty()),
    {
        proof {
            use_type_invariant(self);
        }
        let bytes = outside_to_bytes(self.version, self.codec, self.code, self.digest());
        proof {
            lemma_read_cid(self@, Seq::empty());
            assert(bytes@ + Seq::<u8>::empty() =~= bytes@);
        }
        bytes
    }

    /// The length of the binary form.
    pub fn encoded_len(&self) -> (r: usize)
        ensures
            r == cid_bytes(self@).len(),
    {
        proof {
            use_type_invariant(self);
        }
        outside_encoded_len(self.version, self.codec, self.code, self.digest())
    }

    /// The text form.
    pub fn to_text(&self) -> (r: String)
        ensures
            r@ == cid_text(self@),
    {
        proof {
            use_type_invariant(self);
        }
        outside_to_string(self.version, self.codec, self.code, self.digest())
    }
}

impl PartialEq for Cid {
    fn eq(&self, other: &Self) -> (r: bool) {
        let same = self.version == other.version && self.codec == other.codec && self.code
            == other.code && bytes_eq(self.digest(), other.digest());
        assert(same == (self@ =~= other@));
        same
    }
}

impl vstd::std_specs::cmp::PartialEqSpecImpl for Cid {
    open spec fn obeys_eq_spec() -> bool {
        true
    }

    open spec fn eq_spec(&self, other: &Self) -> bool {
        self@ == other@
    }
}

/// The identifiers as plain values.
pub open spec fn cid_views(cids: Seq<Cid>) -> Seq<CidView> {
    cids.map_values(|cid: Cid| cid@)
}

/// A digest at the start of a buffer, and its length.
fn fill(digest: &[u8]) -> (r: ([u8; 64], u8))
    requires
        digest.len() <= MAX_DIGEST_LEN,
    ensures
        r.1 == digest.len(),
        r.0@.take(r.1 as int) == digest@,
        forall|i: int| r.1 <= i < MAX_DIGEST_LEN ==> r.0@[i] == 0,
{
    let mut buffer: [u8; 64] = [0u8; 64];
    let mut i: usize = 0;
    while i < digest.len()
        invariant
            i <= digest.len() <= MAX_DIGEST_LEN,
            forall|j: int| 0 <= j < i ==> buffer@[j] == digest@[j],
            forall|j: int| i <= j < MAX_DIGEST_LEN ==> buffer@[j] == 0,
        decreases digest.len() - i,
    {
        buffer[i] = digest[i];
        i += 1;
    }
    assert(buffer@.take(i as int) =~= digest@);
    (buffer, i as u8)
}

/// Whether two lists hold the same identifiers.
pub fn cids_eq(a: &Vec<Cid>, b: &Vec<Cid>) -> (r: bool)
    ensures
        r == (cid_views(a@) == cid_views(b@)),
{
    if a.len() != b.len() {
        assert(cid_views(a@).len() != cid_views(b@).len());
        return false;
    }
    let mut i: usize = 0;
    while i < a.len()
        invariant
            i <= a.len(),
            a.len() == b.len(),
            forall|k: int| 0 <= k < i ==> cid_views(a@)[k] == cid_views(b@)[k],
        decreases a.len() - i,
    {
        if a[i] != b[i] {
            assert(cid_views(a@)[i as int] != cid_views(b@)[i as int]);
            return false;
        }
        i += 1;
    }
    assert(cid_views(a@) =~= cid_views(b@));
    true
}

/// The binary form of the identifier with the given parts.
///
/// Calls `cid::Cid::to_bytes`. The contract claims that it gives the version
/// and codec as variable-length integers (not in version 0), then the
/// multihash: code and length as variable-length integers, and the digest.
#[verifier::external_body]
fn outside_to_bytes(version: u64, codec: u64, code: u64, digest: &[u8]) -> (r: Vec<u8>)
    requires
        (CidView { version, codec, code, digest: digest@ }).valid(),
    ensures
        r@ == cid_bytes(CidView { version, codec, code, digest: digest@ }),
{
    let hash = cid::multihash::Multihash::wrap(code, digest).unwrap();
    cid::Cid::new(version.try_into().unwrap(), codec, hash).unwrap().to_bytes()
}

/// The length of the binary form of the identifier with the given parts.
///
/// Calls `cid::Cid::encoded_len`. The contract claims that it is the number of
/// bytes that `to_bytes` gives.
#[verifier::external_body]
fn outside_encoded_len(version: u64, codec: u64, code: u64, digest: &[u8]) -> (r: usize)
    requires
        (CidView { version, codec, code, digest: digest@ }).valid(),
    ensures
        r == cid_bytes(CidView { version, codec, code, digest: digest@ }).len(),
{
    let hash = cid::multihash::Multihash::wrap(code, digest).unwrap();
    cid::Cid::new(version.try_into().unwrap(), codec, hash).unwrap().encoded_len()
}

/// The text form of the identifier with the given parts.
///
/// Calls `cid::Cid::to_string`. The contract names the text as a function of
/// the parts, and says nothing else of it.
#[verifier::external_body]
fn outside_to_string(version: u64, codec: u64, code: u64, digest: &[u8]) -> (r: String)
    requires
        (CidView { version, codec, code, digest: digest@ }).valid(),
    ensures
        r@ == cid_text(CidView { version, codec, code, digest: digest@ }),
{
    let hash = cid::multihash::Multihash::wrap(code, digest).unwrap();
    cid::Cid::new(version.try_into().unwrap(), codec, hash).unwrap().to_string()
}

} // verus!
