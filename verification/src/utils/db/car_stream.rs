//! The parts of a CAR stream: its header and its blocks.

use crate::utils::bytes::{
    bytes_eq, encode_var_vec, lemma_read_uvarint, lemma_uvarint_prefix_free, read_uvarint, uvarint,
};
use crate::utils::cid::{
    cid_bytes, cid_views, cids_eq, lemma_cid_bytes_prefix_free, lemma_read_cid, read_cid, Cid,
    CidView,
};
use crate::utils::ipld::{
    content, contents, entries_map, has_encoding, ipld_integer, ipld_link, ipld_list, ipld_map,
    IpldView,
};
use crate::utils::nonempty::NonEmpty;
use ipld_core::ipld::Ipld;
use vstd::prelude::*;

verus! {

/// The header of a CARv1 stream.
#[derive(Debug)]
pub struct CarV1Header {
    /// One or more identifiers, each of which should be present somewhere in
    /// the remainder of the CAR.
    pub roots: NonEmpty<Cid>,
    pub version: u64,
}

/// The header of a CARv2 stream.
#[derive(Debug, PartialEq, Eq)]
pub struct CarV2Header {
    pub characteristics: [u8; 16],
    pub data_offset: i64,
    pub data_size: i64,
    pub index_offset: i64,
}

impl PartialEq for CarV1Header {
    fn eq(&self, other: &Self) -> (r: bool) {
        self.version == other.version && cids_eq(self.roots.as_vec(), other.roots.as_vec())
    }
}

impl Eq for CarV1Header {

}

impl vstd::std_specs::cmp::PartialEqSpecImpl for CarV1Header {
    open spec fn obeys_eq_spec() -> bool {
        true
    }

    open spec fn eq_spec(&self, other: &Self) -> bool {
        self.version == other.version && cid_views(self.roots@) == cid_views(other.roots@)
    }
}

/// The links to the given identifiers.
pub open spec fn links(cids: Seq<Cid>) -> Seq<IpldView> {
    cids.map_values(|cid: Cid| IpldView::Link(cid@))
}

/// The value that stands for a CARv1 header with the given fields.
pub open spec fn header_value(roots: Seq<Cid>, version: u64) -> IpldView {
    IpldView::Record(
        map![
            "roots"@ => IpldView::List(links(roots)),
            "version"@ => IpldView::Integer(version as int),
        ],
    )
}

/// A header has an encoding.
pub(crate) proof fn lemma_header_has_encoding(roots: Seq<Cid>, version: u64)
    ensures
        has_encoding(header_value(roots, version)),
{
    let values = links(roots);
    assert forall|i: int| 0 <= i < values.len() implies has_encoding(#[trigger] values[i]) by {
        assert(values[i] is Link);
    }
    assert(has_encoding(IpldView::List(values)));
    assert(has_encoding(IpldView::Integer(version as int)));
}

/// Links to the given identifiers.
pub(crate) fn ipld_links(cids: &Vec<Cid>) -> (r: Ipld)
    ensures
        content(r) == IpldView::List(links(cids@)),
{
    let mut values: Vec<Ipld> = Vec::new();
    let mut i: usize = 0;
    while i < cids.len()
        invariant
            i <= cids.len(),
            values.len() == i,
            forall|k: int| 0 <= k < i ==> content(#[trigger] values@[k]) == links(cids@)[k],
        decreases cids.len() - i,
    {
        values.push(ipld_link(&cids[i]));
        i += 1;
    }
    assert(contents(values@) =~= links(cids@));
    ipld_list(values)
}

impl CarV1Header {
    /// The header as a value of the data model.
    pub(crate) fn to_ipld(&self) -> (r: Ipld)
        ensures
            content(r) == header_value(self.roots@, self.version),
    {
        proof {
            reveal_strlit("roots");
            reveal_strlit("version");
        }
        let roots = ipld_links(self.roots.as_vec());
        let version = ipld_integer(self.version as i128);
        let mut entries: Vec<(String, Ipld)> = Vec::new();
        entries.push(("roots".to_string(), roots));
        entries.push(("version".to_string(), version));
        proof {
            assert("roots"@.len() != "version"@.len());
            assert(entries@.drop_last().drop_last() =~= Seq::empty());
            reveal_with_fuel(entries_map, 3);
            assert(entries_map(entries@) =~= map![
                "roots"@ => IpldView::List(links(self.roots@)),
                "version"@ => IpldView::Integer(self.version as int),
            ]);
        }
        ipld_map(entries)
    }
}

/// A block and its identifier.
#[verifier::ext_equal]
pub struct CarBlockView {
    pub cid: CidView,
    pub data: Seq<u8>,
}

/// A block and its identifier.
#[derive(Debug, Hash, PartialOrd, Ord)]
pub struct CarBlock {
    pub cid: Cid,
    pub data: Vec<u8>,
}

impl PartialEq for CarBlock {
    fn eq(&self, other: &Self) -> (r: bool) {
        let same = self.cid == other.cid && bytes_eq(self.data.as_slice(), other.data.as_slice());
        assert(same == (self@ =~= other@));
        same
    }
}

impl Eq for CarBlock {

}

impl vstd::std_specs::cmp::PartialEqSpecImpl for CarBlock {
    open spec fn obeys_eq_spec() -> bool {
        true
    }

    open spec fn eq_spec(&self, other: &Self) -> bool {
        self@ == other@
    }
}

impl Clone for CarBlock {
    fn clone(&self) -> (r: Self)
        ensures
            r@ == self@,
    {
        CarBlock { cid: self.cid, data: self.data.clone() }
    }
}

impl View for CarBlock {
    type V = CarBlockView;

    open spec fn view(&self) -> CarBlockView {
        CarBlockView { cid: self.cid@, data: self.data@ }
    }
}

/// The length of the identifier and the data together.
pub open spec fn body_len(block: CarBlockView) -> nat {
    cid_bytes(block.cid).len() + block.data.len()
}

/// The varint frame of a block: the length of the body, then the body, which is
/// the identifier and the data.
pub open spec fn block_frame(block: CarBlockView) -> Seq<u8> {
    uvarint(body_len(block)) + cid_bytes(block.cid) + block.data
}

/// The varint frame of a block says by itself where it ends, and which block it
/// holds.
pub proof fn lemma_block_frame_prefix_free(
    a: CarBlockView,
    b: CarBlockView,
    x: Seq<u8>,
    y: Seq<u8>,
)
    requires
        a.cid.valid(),
        b.cid.valid(),
        block_frame(a) + x == block_frame(b) + y,
    ensures
        a == b,
        x == y,
{
    let a_body = cid_bytes(a.cid) + a.data;
    let b_body = cid_bytes(b.cid) + b.data;
    assert(block_frame(a) + x =~= uvarint(body_len(a)) + (a_body + x));
    assert(block_frame(b) + y =~= uvarint(body_len(b)) + (b_body + y));
    lemma_uvarint_prefix_free(body_len(a), body_len(b), a_body + x, b_body + y);
    let n = body_len(a) as int;
    assert(a_body =~= (a_body + x).take(n));
    assert(b_body =~= (b_body + y).take(n));
    assert(x =~= (a_body + x).skip(n));
    assert(y =~= (b_body + y).skip(n));
    lemma_cid_bytes_prefix_free(a.cid, b.cid, a.data, b.data);
    assert(a =~= b);
}

/// The block whose varint frame stands at the start of some bytes, and what
/// follows it.
pub open spec fn read_block(bytes: Seq<u8>) -> (CarBlockView, Seq<u8>) {
    let (len, rest) = read_uvarint(bytes);
    let (cid, data) = read_cid(rest.take(len as int));
    (CarBlockView { cid, data }, rest.skip(len as int))
}

/// A block is read back from its varint frame, whatever follows.
pub proof fn lemma_read_block(block: CarBlockView, rest: Seq<u8>)
    requires
        block.cid.valid(),
    ensures
        read_block(block_frame(block) + rest) == (block, rest),
{
    let body = cid_bytes(block.cid) + block.data;
    let len = body_len(block);
    assert(block_frame(block) + rest =~= uvarint(len) + (body + rest));
    lemma_read_uvarint(len, body + rest);
    assert((body + rest).take(len as int) =~= body);
    assert((body + rest).skip(len as int) =~= rest);
    lemma_read_cid(block.cid, block.data);
}

/// Every byte of a varint frame has its place: the length of identifier and data
/// together, then the identifier, then the data as it is.
pub proof fn lemma_block_frame_places(block: CarBlockView)
    ensures
        ({
            let frame = block_frame(block);
            let cid = cid_bytes(block.cid);
            let prefix = uvarint(cid.len() + block.data.len());
            let at = prefix.len() + cid.len();
            &&& frame.len() == at + block.data.len()
            &&& frame.take(prefix.len() as int) == prefix
            &&& frame.subrange(prefix.len() as int, at as int) == cid
            &&& frame.skip(at as int) == block.data
            &&& forall|k: int| 0 <= k < block.data.len() ==> #[trigger] frame[at + k] == block.data[k]
        }),
{
    let frame = block_frame(block);
    let cid = cid_bytes(block.cid);
    let prefix = uvarint(cid.len() + block.data.len());
    let at = prefix.len() + cid.len();
    assert(frame.take(prefix.len() as int) =~= prefix);
    assert(frame.subrange(prefix.len() as int, at as int) =~= cid);
    assert(frame.skip(at as int) =~= block.data);
}

/// A header holds the roots as links, in order, and the version, and nothing
/// else.
pub proof fn lemma_header_value_fields(roots: Seq<Cid>, version: u64)
    ensures
        header_value(roots, version) matches IpldView::Record(fields) && {
            &&& forall|key: Seq<char>| #[trigger]
                fields.contains_key(key) <==> key == "roots"@ || key == "version"@
            &&& fields["version"@] == IpldView::Integer(version as int)
            &&& fields["roots"@] matches IpldView::List(list) && {
                &&& list.len() == roots.len()
                &&& forall|i: int|
                    0 <= i < roots.len() ==> #[trigger] list[i] == IpldView::Link(roots[i]@)
            }
        },
{
    reveal_strlit("roots");
    reveal_strlit("version");
    assert("roots"@.len() != "version"@.len());
}

impl CarBlock {
    /// Writes a varint frame containing the cid and the data.
    pub fn write(&self, writer: &mut Vec<u8>)
        requires
            body_len(self@) <= usize::MAX,
        ensures
            final(writer)@ == old(writer)@ + block_frame(self@),
            final(writer)@.take(old(writer).len() as int) == old(writer)@,
            final(writer)@.skip(final(writer).len() - self.data.len()) == self.data@,
            read_block(final(writer)@.skip(old(writer).len() as int)) == (
                CarBlockView { cid: self.cid@, data: self.data@ },
                Seq::<u8>::empty(),
            ),
    {
        let frame_length: usize = self.cid.encoded_len() + self.data.len();
        let mut prefix = encode_var_vec(frame_length as u64);
        writer.append(&mut prefix);
        let mut cid = self.cid.to_bytes();
        writer.append(&mut cid);
        writer.extend_from_slice(self.data.as_slice());
        assert(writer@ =~= old(writer)@ + block_frame(self@));
        proof {
            let frame = block_frame(self@);
            lemma_read_block(self@, Seq::empty());
            assert(frame + Seq::<u8>::empty() =~= frame);
            assert(writer@.skip(old(writer).len() as int) =~= frame);
            assert(writer@.take(old(writer).len() as int) =~= old(writer)@);
            assert(writer@.skip(writer.len() - self.data.len()) =~= self.data@);
        }
    }
}

} // verus!
