//! Values of the IPLD data model and their DAG-CBOR encoding.

use super::cid::{Cid, CidView};
use ipld_core::ipld::Ipld;
use vstd::prelude::*;

verus! {

/// A value of the IPLD data model, as far as headers need it. All other values
/// are one here.
pub enum IpldView {
    Null,
    Integer(int),
    Bytes(Seq<u8>),
    List(Seq<IpldView>),
    Record(Map<Seq<char>, IpldView>),
    Link(CidView),
    Other,
}

/// Whether DAG-CBOR has an encoding for a value: all its integers fit into 64
/// bits and a sign, and it is made of the values that are told apart here.
pub open spec fn has_encoding(value: IpldView) -> bool
    decreases value,
{
    match value {
        IpldView::Null | IpldView::Bytes(_) | IpldView::Link(_) => true,
        IpldView::Integer(number) => -0x1_0000_0000_0000_0000 <= number <= u64::MAX,
        IpldView::List(values) => forall|i: int|
            0 <= i < values.len() ==> has_encoding(#[trigger] values[i]),
        IpldView::Record(fields) => forall|key: Seq<char>|
            fields.contains_key(key) ==> has_encoding(#[trigger] fields[key]),
        IpldView::Other => false,
    }
}

/// `ipld_core::ipld::Ipld`, of which only the [content](content) is known.
#[verifier::external_type_specification]
#[verifier::external_body]
pub struct ExIpld(ipld_core::ipld::Ipld);

/// The value that an [`Ipld`] holds.
pub uninterp spec fn content(value: Ipld) -> IpldView;

/// The DAG-CBOR encoding of a value.
pub uninterp spec fn dag_cbor(value: IpldView) -> Seq<u8>;

/// The values that a list of [`Ipld`] holds.
pub open spec fn contents(values: Seq<Ipld>) -> Seq<IpldView> {
    values.map_values(|value: Ipld| content(value))
}

/// The map with the given entries; of two entries with one key, the later one
/// counts.
pub open spec fn entries_map(entries: Seq<(String, Ipld)>) -> Map<Seq<char>, IpldView>
    decreases entries.len(),
{
    if entries.len() == 0 {
        Map::empty()
    } else {
        entries_map(entries.drop_last()).insert(entries.last().0@, content(entries.last().1))
    }
}

/// The null value.
///
/// Makes an `ipld_core::ipld::Ipld::Null`. The contract says that this is what
/// it holds.
#[verifier::external_body]
pub(crate) fn ipld_null() -> (r: Ipld)
    ensures
        content(r) == IpldView::Null,
{
    Ipld::Null
}

/// An integer.
///
/// Makes an `ipld_core::ipld::Ipld::Integer`. The contract says that this is
/// what it holds. Integers that DAG-CBOR cannot encode are left out.
#[verifier::external_body]
pub(crate) fn ipld_integer(value: i128) -> (r: Ipld)
    requires
        -0x1_0000_0000_0000_0000 <= value <= u64::MAX,
    ensures
        content(r) == IpldView::Integer(value as int),
{
    Ipld::Integer(value)
}

/// A byte string.
///
/// Makes an `ipld_core::ipld::Ipld::Bytes`. The contract says that this is what
/// it holds.
#[verifier::external_body]
pub(crate) fn ipld_bytes(value: Vec<u8>) -> (r: Ipld)
    ensures
        content(r) == IpldView::Bytes(value@),
{
    Ipld::Bytes(value)
}

/// A list.
///
/// Makes an `ipld_core::ipld::Ipld::List`. The contract says that it holds what
/// the values hold, in order.
#[verifier::external_body]
pub(crate) fn ipld_list(values: Vec<Ipld>) -> (r: Ipld)
    ensures
        content(r) == IpldView::List(contents(values@)),
{
    Ipld::List(values)
}

/// A map.
///
/// Makes an `ipld_core::ipld::Ipld::Map` from entries with distinct keys. The
/// contract says that it holds each key with what its value holds.
#[verifier::external_body]
pub(crate) fn ipld_map(entries: Vec<(String, Ipld)>) -> (r: Ipld)
    requires
        forall|i: int, j: int|
            0 <= i < j < entries.len() ==> (#[trigger] entries@[i]).0@ != (
            #[trigger] entries@[j]).0@,
    ensures
        content(r) == IpldView::Record(entries_map(entries@)),
{
    Ipld::Map(entries.into_iter().collect())
}

/// A link.
///
/// Makes an `ipld_core::ipld::Ipld::Link`. The contract says that it holds the
/// identifier.
#[verifier::external_body]
pub(crate) fn ipld_link(cid: &Cid) -> (r: Ipld)
    ensures
        content(r) == IpldView::Link(cid@),
{
    let hash = cid::multihash::Multihash::wrap(cid.hash_code(), cid.digest()).unwrap();
    Ipld::Link(cid::Cid::new(cid.version().try_into().unwrap(), cid.codec(), hash).unwrap())
}

/// The DAG-CBOR encoding of a value.
///
/// Calls `fvm_ipld_encoding::to_vec`. The contract names the bytes as a
/// function of the value, and says nothing else of them. The encoder refuses
/// floats that are not finite and integers out of range, which are left out;
/// besides that it gives up only when memory runs out.
#[verifier::external_body]
pub(crate) fn to_vec(value: &Ipld) -> (r: Vec<u8>)
    requires
        has_encoding(content(*value)),
    ensures
        r@ == dag_cbor(content(*value)),
{
    fvm_ipld_encoding::to_vec(value).unwrap()
}

/// The byte string that is encoded as `cbor`, if one is.
pub uninterp spec fn decoded_bytes(cbor: Seq<u8>) -> Option<Seq<u8>>;

/// Decodes a byte string, and nothing but a byte string.
///
/// Calls `fvm_ipld_encoding::from_slice` for a `strict_bytes::ByteBuf`. The
/// contract names the outcome as a function of the bytes, and claims that
/// decoding gives back what was encoded as a byte string.
#[verifier::external_body]
pub(crate) fn bytes_from_slice(cbor: &[u8]) -> (r: Option<Vec<u8>>)
    ensures
        r is Some <==> decoded_bytes(cbor@) is Some,
        r matches Some(bytes) ==> decoded_bytes(cbor@) == Some(bytes@),
        forall|bytes: Seq<u8>|
            cbor@ == #[trigger] dag_cbor(IpldView::Bytes(bytes)) ==> (r is Some && r->0@ == bytes),
{
    let bytes: fvm_ipld_encoding::strict_bytes::ByteBuf = fvm_ipld_encoding::from_slice(cbor).ok()?;
    Some(bytes.into_vec())
}

} // verus!
