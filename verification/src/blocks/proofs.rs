//! The proofs that a block header carries.

use crate::utils::encoding::serde_byte_array::BYTE_ARRAY_MAX_LEN;
use crate::utils::ipld::{
    content, contents, has_encoding, ipld_bytes, ipld_integer, ipld_list, IpldView,
};
use ipld_core::ipld::Ipld;
use vstd::prelude::*;

verus! {

/// A byte string that is not too long to be encoded.
pub open spec fn short_enough(bytes: Seq<u8>) -> bool {
    bytes.len() <= BYTE_ARRAY_MAX_LEN
}

/// The output from running a verifiable random function.
#[derive(Debug, PartialEq, Eq, Hash)]
pub struct VRFProof(pub Vec<u8>);

impl VRFProof {
    /// The bytes of the proof.
    pub fn as_bytes(&self) -> (r: &[u8])
        ensures
            r@ == self.0@,
    {
        self.0.as_slice()
    }
}

/// The ticket of a block, which decides its place in the tipset.
#[derive(Debug, PartialEq, Eq, Hash)]
pub struct Ticket {
    pub vrfproof: VRFProof,
}

/// The proof that the miner was elected.
#[derive(Debug, PartialEq, Eq, Hash)]
pub struct ElectionProof {
    pub win_count: i64,
    pub vrfproof: VRFProof,
}

/// Randomness of the beacon for a round.
#[derive(Debug, PartialEq, Eq, Hash)]
pub struct BeaconEntry {
    pub round: u64,
    pub signature: Vec<u8>,
}

impl Clone for VRFProof {
    fn clone(&self) -> (r: Self)
        ensures
            r.0@ == self.0@,
    {
        VRFProof(self.0.clone())
    }
}

impl Clone for Ticket {
    fn clone(&self) -> (r: Self)
        ensures
            r@ == self@,
    {
        Ticket { vrfproof: self.vrfproof.clone() }
    }
}

impl Clone for ElectionProof {
    fn clone(&self) -> (r: Self)
        ensures
            r@ == self@,
    {
        ElectionProof { win_count: self.win_count, vrfproof: self.vrfproof.clone() }
    }
}

impl Clone for BeaconEntry {
    fn clone(&self) -> (r: Self)
        ensures
            r@ == self@,
    {
        BeaconEntry { round: self.round, signature: self.signature.clone() }
    }
}

impl View for Ticket {
    type V = Seq<u8>;

    open spec fn view(&self) -> Seq<u8> {
        self.vrfproof.0@
    }
}

impl View for ElectionProof {
    type V = (i64, Seq<u8>);

    open spec fn view(&self) -> (i64, Seq<u8>) {
        (self.win_count, self.vrfproof.0@)
    }
}

impl View for BeaconEntry {
    type V = (u64, Seq<u8>);

    open spec fn view(&self) -> (u64, Seq<u8>) {
        (self.round, self.signature@)
    }
}

/// A pair of an integer and a byte string, as a list.
pub open spec fn numbered_bytes(number: int, bytes: Seq<u8>) -> IpldView {
    IpldView::List(seq![IpldView::Integer(number), IpldView::Bytes(bytes)])
}

pub(crate) proof fn lemma_numbered_bytes_have_encoding(number: int, bytes: Seq<u8>)
    requires
        -0x1_0000_0000_0000_0000 <= number <= u64::MAX,
    ensures
        has_encoding(numbered_bytes(number, bytes)),
{
    assert(has_encoding(IpldView::Integer(number)));
    assert(has_encoding(IpldView::Bytes(bytes)));
}

/// A pair of an integer and a byte string, as a list.
pub(crate) fn ipld_numbered_bytes(number: i128, bytes: Vec<u8>) -> (r: Ipld)
    requires
        -0x1_0000_0000_0000_0000 <= number <= u64::MAX,
    ensures
        content(r) == numbered_bytes(number as int, bytes@),
{
    let mut values: Vec<Ipld> = Vec::new();
    values.push(ipld_integer(number));
    values.push(ipld_bytes(bytes));
    assert(contents(values@) =~= seq![IpldView::Integer(number as int), IpldView::Bytes(bytes@)]);
    ipld_list(values)
}

/// A ticket as a list with its proof.
pub open spec fn ticket_value(ticket: Seq<u8>) -> IpldView {
    IpldView::List(seq![IpldView::Bytes(ticket)])
}

impl Ticket {
    /// The ticket as a value of the data model.
    pub(crate) fn to_ipld(&self) -> (r: Ipld)
        ensures
            content(r) == ticket_value(self@),
    {
        let mut values: Vec<Ipld> = Vec::new();
        values.push(ipld_bytes(self.vrfproof.0.clone()));
        assert(contents(values@) =~= seq![IpldView::Bytes(self@)]);
        ipld_list(values)
    }
}

} // verus!
