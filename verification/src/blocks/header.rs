//! Block headers.

use super::proofs::{
    ipld_numbered_bytes, lemma_numbered_bytes_have_encoding, numbered_bytes, short_enough,
    ticket_value, BeaconEntry, ElectionProof, Ticket,
};
use super::tipset::TipsetKey;
use crate::shim::address::{address_bytes, lemma_address_bytes_unique, Address, AddressView};
use crate::shim::clock::ChainEpoch;
use crate::shim::crypto::{signature_bytes, Signature, SignatureType, SignatureView};
use crate::shim::econ::{bigint_bytes, bigint_encodable, BigInt, BigIntView, TokenAmount};
use crate::shim::sector::{PoStProof, PoStProofView};
use crate::utils::cid::{cid_bytes, cid_views, dag_cbor_cid, read_cid, Cid, CidView};
use crate::utils::encoding::{blake2b_256, blake2b_256_digest};
use crate::utils::ipld::{
    content, contents, dag_cbor, has_encoding, ipld_bytes, ipld_integer, ipld_link, ipld_list,
    ipld_null, to_vec, IpldView,
};
use ipld_core::ipld::Ipld;
use vstd::prelude::*;

verus! {

/// A block header as plain values.
#[verifier::ext_equal]
pub struct HeaderView {
    pub miner_address: AddressView,
    pub ticket: Option<Seq<u8>>,
    pub election_proof: Option<(i64, Seq<u8>)>,
    pub beacon_entries: Seq<(u64, Seq<u8>)>,
    pub winning_post_proof: Seq<PoStProofView>,
    pub parents: Seq<CidView>,
    pub weight: BigIntView,
    pub epoch: i64,
    pub state_root: CidView,
    pub message_receipts: CidView,
    pub messages: CidView,
    pub bls_aggregate: Option<SignatureView>,
    pub timestamp: u64,
    pub signature: Option<SignatureView>,
    pub fork_signal: u64,
    pub parent_base_fee: BigIntView,
}

/// A block header.
#[derive(Debug, PartialEq, Eq, Hash)]
pub struct RawBlockHeader {
    /// The address of the miner actor that mined this block
    pub miner_address: Address,
    pub ticket: Option<Ticket>,
    pub election_proof: Option<ElectionProof>,
    /// The verifiable oracle randomness used to elect this block's author leader
    pub beacon_entries: Vec<BeaconEntry>,
    pub winning_post_proof: Vec<PoStProof>,
    /// The set of parents this block was based on.
    /// Typically one, but can be several in the case where there were multiple
    /// winning ticket-holders for an epoch
    pub parents: TipsetKey,
    /// The aggregate chain weight of the parent set
    pub weight: BigInt,
    /// The period in which a new block is generated.
    /// There may be multiple rounds in an epoch.
    pub epoch: ChainEpoch,
    /// The CID of the parent state root after calculating parent tipset.
    pub state_root: Cid,
    /// The CID of the root of an array of `MessageReceipts`
    pub message_receipts: Cid,
    /// The CID of the Merkle links for `bls_messages` and `secp_messages`
    pub messages: Cid,
    /// Aggregate signature of miner in block
    pub bls_aggregate: Option<Signature>,
    /// Block creation time, in seconds since the Unix epoch
    pub timestamp: u64,
    pub signature: Option<Signature>,
    pub fork_signal: u64,
    /// The base fee of the parent block
    pub parent_base_fee: TokenAmount,
}

/// What an optional value holds.
pub open spec fn optional<T: View>(value: Option<T>) -> Option<T::V> {
    match value {
        Some(v) => Some(v@),
        None => None,
    }
}

/// What the elements of a vector hold.
pub open spec fn views<T: View>(values: Seq<T>) -> Seq<T::V> {
    values.map_values(|value: T| value@)
}

impl View for RawBlockHeader {
    type V = HeaderView;

    open spec fn view(&self) -> HeaderView {
        HeaderView {
            miner_address: self.miner_address@,
            ticket: optional(self.ticket),
            election_proof: optional(self.election_proof),
            beacon_entries: views(self.beacon_entries@),
            winning_post_proof: views(self.winning_post_proof@),
            parents: self.parents@,
            weight: self.weight@,
            epoch: self.epoch,
            state_root: self.state_root@,
            message_receipts: self.message_receipts@,
            messages: self.messages@,
            bls_aggregate: optional(self.bls_aggregate),
            timestamp: self.timestamp,
            signature: optional(self.signature),
            fork_signal: self.fork_signal,
            parent_base_fee: self.parent_base_fee.atto@,
        }
    }
}

/// A header holds the values of its fields as they are.
pub proof fn lemma_header_holds_its_fields(header: RawBlockHeader)
    ensures
        header@.miner_address == header.miner_address@,
        header@.ticket == match header.ticket {
            Some(ticket) => Some(ticket.vrfproof.0@),
            None => None,
        },
        header@.election_proof == match header.election_proof {
            Some(proof) => Some((proof.win_count, proof.vrfproof.0@)),
            None => None,
        },
        header@.beacon_entries.len() == header.beacon_entries.len(),
        forall|i: int|
            0 <= i < header.beacon_entries.len() ==> #[trigger] header@.beacon_entries[i] == (
                header.beacon_entries@[i].round,
                header.beacon_entries@[i].signature@,
            ),
        header@.winning_post_proof.len() == header.winning_post_proof.len(),
        forall|i: int|
            0 <= i < header.winning_post_proof.len() ==> (
            #[trigger] header@.winning_post_proof[i]).post_proof
                == header.winning_post_proof@[i].post_proof
                && header@.winning_post_proof[i].proof_bytes
                == header.winning_post_proof@[i].proof_bytes@,
        header@.parents == cid_views(header.parents.cids()),
        header@.weight == header.weight@,
        header@.epoch == header.epoch,
        header@.state_root == header.state_root@,
        header@.message_receipts == header.message_receipts@,
        header@.messages == header.messages@,
        header@.bls_aggregate == match header.bls_aggregate {
            Some(s) => Some((SignatureView { sig_type: s.sig_type, bytes: s.bytes@ })),
            None => None,
        },
        header@.timestamp == header.timestamp,
        header@.signature == match header.signature {
            Some(s) => Some((SignatureView { sig_type: s.sig_type, bytes: s.bytes@ })),
            None => None,
        },
        header@.fork_signal == header.fork_signal,
        header@.parent_base_fee == header.parent_base_fee.atto@,
{
}

/// The proofs as values of the data model.
pub open spec fn post_proof_values(proofs: Seq<PoStProofView>) -> Seq<IpldView> {
    proofs.map_values(
        |proof: PoStProofView| numbered_bytes(proof.post_proof as int, proof.proof_bytes),
    )
}

/// The entries as values of the data model.
pub open spec fn beacon_values(entries: Seq<(u64, Seq<u8>)>) -> Seq<IpldView> {
    entries.map_values(|entry: (u64, Seq<u8>)| numbered_bytes(entry.0 as int, entry.1))
}

/// The links to the given identifiers.
pub open spec fn link_values(cids: Seq<CidView>) -> Seq<IpldView> {
    cids.map_values(|cid: CidView| IpldView::Link(cid))
}

/// A signature as a byte string, or nothing.
pub open spec fn signature_value(signature: Option<SignatureView>) -> IpldView {
    match signature {
        Some(s) => IpldView::Bytes(signature_bytes(s)),
        None => IpldView::Null,
    }
}

/// A header as a value of the data model: its fields in order.
pub open spec fn header_value(header: HeaderView) -> IpldView {
    IpldView::List(
        seq![
            IpldView::Bytes(address_bytes(header.miner_address)),
            match header.ticket {
                Some(ticket) => ticket_value(ticket),
                None => IpldView::Null,
            },
            match header.election_proof {
                Some((win_count, proof)) => numbered_bytes(win_count as int, proof),
                None => IpldView::Null,
            },
            IpldView::List(beacon_values(header.beacon_entries)),
            IpldView::List(post_proof_values(header.winning_post_proof)),
            IpldView::List(link_values(header.parents)),
            IpldView::Bytes(bigint_bytes(header.weight)),
            IpldView::Integer(header.epoch as int),
            IpldView::Link(header.state_root),
            IpldView::Link(header.message_receipts),
            IpldView::Link(header.messages),
            signature_value(header.bls_aggregate),
            IpldView::Integer(header.timestamp as int),
            signature_value(header.signature),
            IpldView::Integer(header.fork_signal as int),
            IpldView::Bytes(bigint_bytes(header.parent_base_fee)),
        ],
    )
}

/// A byte string that stands for an integer: nothing for zero, else a sign byte
/// and the magnitude as it is.
pub open spec fn holds_bigint(bytes: Seq<u8>, value: BigIntView) -> bool {
    if value.magnitude.len() == 0 {
        bytes.len() == 0
    } else {
        &&& bytes.len() == value.magnitude.len() + 1
        &&& bytes[0] == if value.negative {
            1u8
        } else {
            0u8
        }
        &&& bytes.skip(1) == value.magnitude
    }
}

/// A field that stands for an optional signature: nothing, or a byte string with
/// the number of its type, and behind it all bytes of the signature as they are.
pub open spec fn holds_signature(field: IpldView, signature: Option<SignatureView>) -> bool {
    match signature {
        None => field == IpldView::Null,
        Some(s) => field matches IpldView::Bytes(bytes) && {
            &&& bytes.len() == s.bytes.len() + 1
            &&& bytes[0] == match s.sig_type {
                SignatureType::Secp256k1 => 1u8,
                SignatureType::Bls => 2u8,
                SignatureType::Delegated => 3u8,
            }
            &&& bytes.skip(1) == s.bytes
        },
    }
}

/// A field that stands for a number and a byte string: a list of the two.
pub open spec fn holds_numbered(field: IpldView, number: int, data: Seq<u8>) -> bool {
    &&& field matches IpldView::List(pair)
    &&& pair.len() == 2
    &&& pair[0] == IpldView::Integer(number)
    &&& pair[1] == IpldView::Bytes(data)
}

/// Every field of a header can be read at its place in the value that is
/// encoded, byte for byte.
pub proof fn lemma_header_fields_in_place(header: HeaderView)
    ensures
        header_value(header) matches IpldView::List(fields) && {
            &&& fields.len() == 16
            &&& fields[0] == IpldView::Bytes(address_bytes(header.miner_address))
            &&& match header.ticket {
                None => fields[1] == IpldView::Null,
                Some(ticket) => fields[1] matches IpldView::List(proof) && proof.len() == 1
                    && proof[0] == IpldView::Bytes(ticket),
            }
            &&& match header.election_proof {
                None => fields[2] == IpldView::Null,
                Some((win_count, proof)) => holds_numbered(fields[2], win_count as int, proof),
            }
            &&& fields[3] matches IpldView::List(list) && list.len()
                == header.beacon_entries.len() && forall|i: int|
                0 <= i < list.len() ==> holds_numbered(
                    #[trigger] list[i],
                    header.beacon_entries[i].0 as int,
                    header.beacon_entries[i].1,
                )
            &&& fields[4] matches IpldView::List(list) && list.len()
                == header.winning_post_proof.len() && forall|i: int|
                0 <= i < list.len() ==> holds_numbered(
                    #[trigger] list[i],
                    header.winning_post_proof[i].post_proof as int,
                    header.winning_post_proof[i].proof_bytes,
                )
            &&& fields[5] matches IpldView::List(list) && list.len() == header.parents.len()
                && forall|i: int|
                0 <= i < list.len() ==> #[trigger] list[i] == IpldView::Link(header.parents[i])
            &&& fields[6] matches IpldView::Bytes(bytes) && holds_bigint(bytes, header.weight)
            &&& fields[7] == IpldView::Integer(header.epoch as int)
            &&& fields[8] == IpldView::Link(header.state_root)
            &&& fields[9] == IpldView::Link(header.message_receipts)
            &&& fields[10] == IpldView::Link(header.messages)
            &&& holds_signature(fields[11], header.bls_aggregate)
            &&& fields[12] == IpldView::Integer(header.timestamp as int)
            &&& holds_signature(fields[13], header.signature)
            &&& fields[14] == IpldView::Integer(header.fork_signal as int)
            &&& fields[15] matches IpldView::Bytes(bytes) && holds_bigint(
                bytes,
                header.parent_base_fee,
            )
        },
{
    lemma_holds_bigint(header.weight);
    lemma_holds_bigint(header.parent_base_fee);
    lemma_holds_signature(header.bls_aggregate);
    lemma_holds_signature(header.signature);
}

proof fn lemma_holds_bigint(value: BigIntView)
    ensures
        holds_bigint(bigint_bytes(value), value),
{
    if value.magnitude.len() > 0 {
        assert(bigint_bytes(value).skip(1) =~= value.magnitude);
    }
}

proof fn lemma_holds_signature(signature: Option<SignatureView>)
    ensures
        holds_signature(signature_value(signature), signature),
{
    if let Some(s) = signature {
        assert(signature_bytes(s).skip(1) =~= s.bytes);
    }
}

/// An integer that has one form only: zero has no sign.
pub open spec fn one_zero(value: BigIntView) -> bool {
    value.magnitude.len() == 0 ==> !value.negative
}

proof fn lemma_bigint_held_once(bytes: Seq<u8>, a: BigIntView, b: BigIntView)
    requires
        holds_bigint(bytes, a),
        holds_bigint(bytes, b),
        one_zero(a),
        one_zero(b),
    ensures
        a == b,
{
    assert(a.magnitude =~= b.magnitude);
    assert(a =~= b);
}

proof fn lemma_signature_held_once(
    field: IpldView,
    a: Option<SignatureView>,
    b: Option<SignatureView>,
)
    requires
        holds_signature(field, a),
        holds_signature(field, b),
    ensures
        a == b,
{
    if let (Some(x), Some(y)) = (a, b) {
        assert(x =~= y);
    }
}

/// The value that is encoded determines the header: no field, and no byte of
/// one, is left out of what is hashed.
pub proof fn lemma_header_value_unique(a: HeaderView, b: HeaderView)
    requires
        header_value(a) == header_value(b),
        one_zero(a.weight),
        one_zero(b.weight),
        one_zero(a.parent_base_fee),
        one_zero(b.parent_base_fee),
    ensures
        a == b,
{
    lemma_header_fields_in_place(a);
    lemma_header_fields_in_place(b);
    let fields = header_value(a)->List_0;
    lemma_address_bytes_unique(a.miner_address, b.miner_address);
    assert(a.ticket == b.ticket);
    assert(a.election_proof == b.election_proof) by {
        if let (Some(x), Some(y)) = (a.election_proof, b.election_proof) {
            assert(x == y);
        }
    }
    let beacons = fields[3]->List_0;
    assert forall|i: int| 0 <= i < beacons.len() implies a.beacon_entries[i]
        == b.beacon_entries[i] by {
        assert(holds_numbered(
            beacons[i],
            a.beacon_entries[i].0 as int,
            a.beacon_entries[i].1,
        ));
        assert(holds_numbered(
            beacons[i],
            b.beacon_entries[i].0 as int,
            b.beacon_entries[i].1,
        ));
    }
    assert(a.beacon_entries =~= b.beacon_entries);
    let proofs = fields[4]->List_0;
    assert forall|i: int| 0 <= i < proofs.len() implies a.winning_post_proof[i]
        == b.winning_post_proof[i] by {
        let (x, y) = (a.winning_post_proof[i], b.winning_post_proof[i]);
        assert(holds_numbered(proofs[i], x.post_proof as int, x.proof_bytes));
        assert(holds_numbered(proofs[i], y.post_proof as int, y.proof_bytes));
        assert(x =~= y);
    }
    assert(a.winning_post_proof =~= b.winning_post_proof);
    let parents = fields[5]->List_0;
    assert forall|i: int| 0 <= i < parents.len() implies a.parents[i] == b.parents[i] by {
        assert(parents[i] == IpldView::Link(a.parents[i]));
        assert(parents[i] == IpldView::Link(b.parents[i]));
    }
    assert(a.parents =~= b.parents);
    lemma_bigint_held_once(fields[6]->Bytes_0, a.weight, b.weight);
    lemma_bigint_held_once(fields[15]->Bytes_0, a.parent_base_fee, b.parent_base_fee);
    lemma_signature_held_once(fields[11], a.bls_aggregate, b.bls_aggregate);
    lemma_signature_held_once(fields[13], a.signature, b.signature);
    assert(a =~= b);
}

/// Every integer of a header has an encoding.
proof fn lemma_header_has_encoding(header: HeaderView)
    ensures
        has_encoding(header_value(header)),
{
    let beacons = beacon_values(header.beacon_entries);
    assert forall|i: int| 0 <= i < beacons.len() implies has_encoding(#[trigger] beacons[i]) by {
        let entry = header.beacon_entries[i];
        lemma_numbered_bytes_have_encoding(entry.0 as int, entry.1);
    }
    let proofs = post_proof_values(header.winning_post_proof);
    assert forall|i: int| 0 <= i < proofs.len() implies has_encoding(#[trigger] proofs[i]) by {
        let proof = header.winning_post_proof[i];
        lemma_numbered_bytes_have_encoding(proof.post_proof as int, proof.proof_bytes);
    }
    if let Some((win_count, proof)) = header.election_proof {
        lemma_numbered_bytes_have_encoding(win_count as int, proof);
    }
    let parents = link_values(header.parents);
    assert forall|i: int| 0 <= i < parents.len() implies has_encoding(#[trigger] parents[i]) by {
        assert(parents[i] is Link);
    }
    if let Some(ticket) = header.ticket {
        assert(has_encoding(IpldView::Bytes(ticket)));
        assert(has_encoding(ticket_value(ticket)));
    }
    assert(has_encoding(IpldView::List(beacons)));
    assert(has_encoding(IpldView::List(proofs)));
    assert(has_encoding(IpldView::List(parents)));
    if let IpldView::List(fields) = header_value(header) {
        assert forall|i: int| 0 <= i < fields.len() implies has_encoding(#[trigger] fields[i]) by {
            if i == 11 || i == 13 {
                assert(fields[i] is Bytes || fields[i] is Null);
            }
        }
    }
}

/// Whether a header has an encoding: no proof and no integer is too long.
pub open spec fn encodable(header: HeaderView) -> bool {
    &&& header.ticket matches Some(ticket) ==> short_enough(ticket)
    &&& header.election_proof matches Some(proof) ==> short_enough(proof.1)
    &&& forall|i: int|
        0 <= i < header.beacon_entries.len() ==> short_enough(
            (#[trigger] header.beacon_entries[i]).1,
        )
    &&& bigint_encodable(header.weight)
    &&& bigint_encodable(header.parent_base_fee)
}

/// The identifier of a header: that of its encoding.
pub open spec fn raw_cid(header: HeaderView) -> CidView {
    dag_cbor_cid(dag_cbor(header_value(header)))
}

/// What orders the blocks of a tipset: the hash of the ticket, then the
/// identifier. Blocks without a ticket come first.
pub open spec fn sort_key(header: HeaderView) -> Option<(Seq<u8>, Seq<u8>)> {
    match header.ticket {
        Some(ticket) => Some((blake2b_256_digest(ticket), cid_bytes(raw_cid(header)))),
        None => None,
    }
}

/// Whether a header has a place among others: it needs an identifier if it has a
/// ticket.
pub open spec fn sortable(header: HeaderView) -> bool {
    header.ticket is Some ==> encodable(header)
}

fn ipld_beacon_entries(entries: &Vec<BeaconEntry>) -> (r: Ipld)
    ensures
        content(r) == IpldView::List(beacon_values(views(entries@))),
{
    let mut values: Vec<Ipld> = Vec::new();
    let mut i: usize = 0;
    while i < entries.len()
        invariant
            i <= entries.len(),
            values.len() == i,
            forall|k: int|
                0 <= k < i ==> content(#[trigger] values@[k]) == beacon_values(views(entries@))[k],
        decreases entries.len() - i,
    {
        let entry = &entries[i];
        let value = ipld_numbered_bytes(entry.round as i128, entry.signature.clone());
        assert(views(entries@)[i as int] == entries@[i as int]@);
        values.push(value);
        i += 1;
    }
    assert(contents(values@) =~= beacon_values(views(entries@)));
    ipld_list(values)
}

fn ipld_post_proofs(proofs: &Vec<PoStProof>) -> (r: Ipld)
    ensures
        content(r) == IpldView::List(post_proof_values(views(proofs@))),
{
    let mut values: Vec<Ipld> = Vec::new();
    let mut i: usize = 0;
    while i < proofs.len()
        invariant
            i <= proofs.len(),
            values.len() == i,
            forall|k: int|
                0 <= k < i ==> content(#[trigger] values@[k]) == post_proof_values(
                    views(proofs@),
                )[k],
        decreases proofs.len() - i,
    {
        let proof = &proofs[i];
        let value = ipld_numbered_bytes(proof.post_proof as i128, proof.proof_bytes.clone());
        assert(views(proofs@)[i as int] == proofs@[i as int]@);
        values.push(value);
        i += 1;
    }
    assert(contents(values@) =~= post_proof_values(views(proofs@)));
    ipld_list(values)
}

fn ipld_signature(signature: &Option<Signature>) -> (r: Ipld)
    ensures
        content(r) == signature_value(optional(*signature)),
{
    match signature {
        Some(s) => s.to_ipld(),
        None => ipld_null(),
    }
}

impl RawBlockHeader {
    /// The header as a value of the data model.
    pub(crate) fn to_ipld(&self) -> (r: Ipld)
        requires
            encodable(self@),
        ensures
            content(r) == header_value(self@),
    {
        let mut fields: Vec<Ipld> = Vec::new();
        fields.push(ipld_bytes(self.miner_address.to_bytes()));
        fields.push(
            match &self.ticket {
                Some(ticket) => ticket.to_ipld(),
                None => ipld_null(),
            },
        );
        fields.push(
            match &self.election_proof {
                Some(proof) => ipld_numbered_bytes(
                    proof.win_count as i128,
                    proof.vrfproof.0.clone(),
                ),
                None => ipld_null(),
            },
        );
        fields.push(ipld_beacon_entries(&self.beacon_entries));
        fields.push(ipld_post_proofs(&self.winning_post_proof));
        fields.push(self.parents.to_ipld());
        fields.push(self.weight.to_ipld().unwrap());
        fields.push(ipld_integer(self.epoch as i128));
        fields.push(ipld_link(&self.state_root));
        fields.push(ipld_link(&self.message_receipts));
        fields.push(ipld_link(&self.messages));
        fields.push(ipld_signature(&self.bls_aggregate));
        fields.push(ipld_integer(self.timestamp as i128));
        fields.push(ipld_signature(&self.signature));
        fields.push(ipld_integer(self.fork_signal as i128));
        fields.push(self.parent_base_fee.atto.to_ipld().unwrap());
        proof {
            if let IpldView::List(want) = header_value(self@) {
                assert(contents(fields@) =~= want);
            }
        }
        ipld_list(fields)
    }

    /// The identifier of the header.
    pub fn cid(&self) -> (r: Cid)
        requires
            encodable(self@),
        ensures
            r@ == raw_cid(self@),
            r@.version == 1 && r@.codec == 0x71 && r@.code == 0xb220,
            r@.digest == blake2b_256_digest(dag_cbor(header_value(self@))),
    {
        proof {
            lemma_header_has_encoding(self@);
        }
        Cid::from_cbor_blake2b256(to_vec(&self.to_ipld()).as_slice())
    }

    /// What orders the blocks of a tipset.
    pub fn tipset_sort_key(&self) -> (r: Option<([u8; 32], Vec<u8>)>)
        requires
            sortable(self@),
        ensures
            r is Some <==> self.ticket is Some,
            r matches Some(key) ==> {
                &&& key.0@ == blake2b_256_digest(self.ticket->0.vrfproof.0@)
                &&& read_cid(key.1@).0 == raw_cid(self@)
                &&& read_cid(key.1@).1.len() == 0
            },
            match sort_key(self@) {
                Some((ticket_hash, cid)) => r matches Some(key) && key.0@ == ticket_hash && key.1@
                    == cid,
                None => r is None,
            },
    {
        match &self.ticket {
            Some(ticket) => {
                let ticket_hash = blake2b_256(ticket.vrfproof.as_bytes());
                Some((ticket_hash, self.cid().to_bytes()))
            },
            None => None,
        }
    }
}

/// A block header with its identifier, if that is known, as plain values.
#[verifier::ext_equal]
pub struct BlockView {
    pub header: HeaderView,
    pub cid: Option<CidView>,
    pub verified: bool,
}

/// The identifier of a block: the one that is known, or that of its header.
pub open spec fn block_cid(block: BlockView) -> CidView {
    match block.cid {
        Some(cid) => cid,
        None => raw_cid(block.header),
    }
}

/// Whether a block has an identifier.
pub open spec fn identifiable(block: BlockView) -> bool {
    block.cid is None ==> encodable(block.header)
}

/// A [`RawBlockHeader`] that remembers its identifier, and whether its signature
/// was ever verified.
#[derive(Debug)]
pub struct CachingBlockHeader {
    uncached: RawBlockHeader,
    cid: Option<Cid>,
    has_ever_been_verified_against_any_signature: bool,
}

impl View for CachingBlockHeader {
    type V = BlockView;

    closed spec fn view(&self) -> BlockView {
        BlockView {
            header: self.uncached@,
            cid: optional(self.cid),
            verified: self.has_ever_been_verified_against_any_signature,
        }
    }
}

impl CachingBlockHeader {
    /// A block whose identifier is not known yet.
    pub fn new(uncached: RawBlockHeader) -> (r: Self)
        ensures
            r@ == (BlockView { header: uncached@, cid: None, verified: false }),
    {
        CachingBlockHeader {
            uncached,
            cid: None,
            has_ever_been_verified_against_any_signature: false,
        }
    }

    /// The block that `fetch` finds for an identifier. Returns [`None`] if it
    /// finds none.
    pub fn load<E, F: Fn(Cid) -> Result<Option<RawBlockHeader>, E>>(fetch: &F, cid: Cid) -> (r:
        Result<Option<Self>, E>)
        requires
            call_requires(*fetch, (cid,)),
        ensures
            exists|found: Result<Option<RawBlockHeader>, E>| #[trigger]
                call_ensures(*fetch, (cid,), found) && is_loaded(cid@, found, r),
            exists|found: Result<Option<RawBlockHeader>, E>| #[trigger]
                call_ensures(*fetch, (cid,), found) && match found {
                    Ok(Some(header)) => r matches Ok(Some(block)) && block@.header == header@
                        && block@.cid == Some(cid@) && !block@.verified,
                    Ok(None) => r matches Ok(None),
                    Err(e) => r matches Err(reason) && reason == e,
                },
    {
        let found = fetch(cid);
        let ghost outcome = found;
        assert(call_ensures(*fetch, (cid,), outcome));
        let r = match found {
            Ok(Some(uncached)) => Ok(
                Some(
                    CachingBlockHeader {
                        uncached,
                        cid: Some(cid),
                        has_ever_been_verified_against_any_signature: false,
                    },
                ),
            ),
            Ok(None) => Ok(None),
            Err(e) => Err(e),
        };
        assert(is_loaded(cid@, outcome, r));
        r
    }

    /// The header itself.
    pub fn uncached(&self) -> (r: &RawBlockHeader)
        ensures
            r@ == self@.header,
    {
        &self.uncached
    }

    /// The identifiers of the parents.
    pub closed spec fn parent_cids(&self) -> Seq<Cid> {
        self.uncached.parents.cids()
    }

    /// The parents are those of the header.
    pub(crate) proof fn lemma_parent_cids(self)
        ensures
            self@.header.parents == cid_views(self.parent_cids()),
    {
    }

    /// The key of the parents.
    pub fn parents(&self) -> (r: &TipsetKey)
        ensures
            r@ == self@.header.parents,
            r.cids() == self.parent_cids(),
    {
        &self.uncached.parents
    }

    /// Whether the signature was ever verified.
    pub fn has_ever_been_verified(&self) -> (r: bool)
        ensures
            r == self@.verified,
    {
        self.has_ever_been_verified_against_any_signature
    }

    /// The identifier.
    pub fn cid(&self) -> (r: Cid)
        requires
            identifiable(self@),
        ensures
            r@ == block_cid(self@),
            r@ == match self@.cid {
                Some(known) => known,
                None => raw_cid(self@.header),
            },
    {
        match self.cid {
            Some(cid) => cid,
            None => self.uncached.cid(),
        }
    }

    /// Whether two blocks are the same, by epoch and identifier.
    pub fn eq(&self, other: &Self) -> (r: bool)
        requires
            identifiable(self@),
            identifiable(other@),
        ensures
            r == same_block(self@, other@),
            r == (self@.header.epoch == other@.header.epoch && block_cid(self@) == block_cid(
                other@,
            )),
    {
        // Epoch check is redundant but cheap.
        self.uncached.epoch == other.uncached.epoch && self.cid() == other.cid()
    }
}

/// Two blocks have the same epoch and identifier.
pub open spec fn same_block(a: BlockView, b: BlockView) -> bool {
    a.header.epoch == b.header.epoch && block_cid(a) == block_cid(b)
}

/// What was found under an identifier is returned as a block that knows it.
pub open spec fn is_loaded<E>(
    cid: CidView,
    found: Result<Option<RawBlockHeader>, E>,
    r: Result<Option<CachingBlockHeader>, E>,
) -> bool {
    match found {
        Ok(Some(header)) => {
            &&& r matches Ok(Some(block))
            &&& block@ == (BlockView { header: header@, cid: Some(cid), verified: false })
        },
        Ok(None) => r matches Ok(None),
        Err(e) => r == Err::<Option<CachingBlockHeader>, E>(e),
    }
}

impl Clone for RawBlockHeader {
    fn clone(&self) -> (r: Self)
        ensures
            r@ == self@,
    {
        let beacon_entries = self.beacon_entries.clone();
        let winning_post_proof = self.winning_post_proof.clone();
        assert(views(beacon_entries@) =~= views(self.beacon_entries@));
        assert(views(winning_post_proof@) =~= views(self.winning_post_proof@));
        RawBlockHeader {
            miner_address: self.miner_address,
            ticket: match &self.ticket {
                Some(ticket) => Some(ticket.clone()),
                None => None,
            },
            election_proof: match &self.election_proof {
                Some(proof) => Some(proof.clone()),
                None => None,
            },
            beacon_entries,
            winning_post_proof,
            parents: self.parents.clone(),
            weight: self.weight.clone(),
            epoch: self.epoch,
            state_root: self.state_root,
            message_receipts: self.message_receipts,
            messages: self.messages,
            bls_aggregate: match &self.bls_aggregate {
                Some(signature) => Some(signature.clone()),
                None => None,
            },
            timestamp: self.timestamp,
            signature: match &self.signature {
                Some(signature) => Some(signature.clone()),
                None => None,
            },
            fork_signal: self.fork_signal,
            parent_base_fee: self.parent_base_fee.clone(),
        }
    }
}

impl Clone for CachingBlockHeader {
    fn clone(&self) -> (r: Self)
        ensures
            r@ == self@,
    {
        CachingBlockHeader {
            uncached: self.uncached.clone(),
            cid: self.cid,
            has_ever_been_verified_against_any_signature:
                self.has_ever_been_verified_against_any_signature,
        }
    }
}

} // verus!
