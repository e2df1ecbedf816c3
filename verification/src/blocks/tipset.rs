//! Tipsets.

use super::header::{
    block_cid, header_value, identifiable, is_loaded, link_values, raw_cid, same_block, sort_key,
    sortable, BlockView, CachingBlockHeader, HeaderView, RawBlockHeader,
};
use super::order::{
    block_views, comes_before, in_order, is_permutation, is_sorting, key_lt, keys_of,
    lemma_bytes_lt_first_difference, lemma_key_lt_total, lemma_reordered_same_elements,
    lemma_same_keys_in_order, lemma_sorted_in_order, lemma_sorting_exists, lemma_sorting_unique,
    reordered,
};
use crate::shim::clock::ChainEpoch;
use crate::utils::cid::{
    cid_bytes, cid_text, cid_views, cids_eq, dag_cbor_cid, lemma_cid_bytes_nonempty,
    lemma_cid_bytes_prefix_free, lemma_dag_cbor_cid_bytes_unique, Cid, CidView,
};
use crate::utils::db::car_stream::{ipld_links, links};
use crate::utils::encoding::blake2b_256_digest;
use crate::utils::ipld::{content, dag_cbor, ipld_bytes, to_vec, IpldView};
use crate::utils::nonempty::NonEmpty;
use ipld_core::ipld::Ipld;
use itertools::Itertools;
use std::sync::Arc;
use vstd::prelude::*;
use vstd::string::StringExecFns;

verus! {

/// A set of CIDs forming a unique key for a tipset.
/// Equal keys will have equivalent iteration order, but note that the CIDs
/// are *not* maintained in the same order as the canonical iteration order of
/// blocks in a tipset (which is by ticket)
#[derive(Debug, Hash, PartialOrd, Ord)]
pub struct TipsetKey {
    cids: NonEmpty<Cid>,
}

impl View for TipsetKey {
    type V = Seq<CidView>;

    open spec fn view(&self) -> Seq<CidView> {
        cid_views(self.cids())
    }
}

impl TipsetKey {
    /// The identifiers of the key.
    pub closed spec fn cids(&self) -> Seq<Cid> {
        self.cids@
    }

    /// The key as a value of the data model: a list of links.
    pub(crate) fn to_ipld(&self) -> (r: Ipld)
        ensures
            content(r) == IpldView::List(link_values(self@)),
    {
        assert(links(self.cids@) =~= link_values(self@));
        ipld_links(self.cids.as_vec())
    }
}

/// The binary forms of identifiers, one after the other.
pub open spec fn cids_bytes(cids: Seq<CidView>) -> Seq<u8>
    decreases cids.len(),
{
    if cids.len() == 0 {
        Seq::empty()
    } else {
        cids_bytes(cids.drop_last()) + cid_bytes(cids.last())
    }
}

/// The text forms of identifiers, with commas between them.
pub open spec fn cids_text(cids: Seq<CidView>) -> Seq<char>
    decreases cids.len(),
{
    if cids.len() == 0 {
        Seq::empty()
    } else if cids.len() == 1 {
        cid_text(cids[0])
    } else {
        cids_text(cids.drop_last()) + ", "@ + cid_text(cids.last())
    }
}

proof fn lemma_cids_bytes_front(cids: Seq<CidView>)
    requires
        cids.len() > 0,
    ensures
        cids_bytes(cids) == cid_bytes(cids[0]) + cids_bytes(cids.drop_first()),
    decreases cids.len(),
{
    if cids.len() == 1 {
        assert(cids.drop_last() =~= Seq::empty());
        assert(cids.drop_first() =~= Seq::empty());
        assert(cids_bytes(cids) =~= cid_bytes(cids[0]) + cids_bytes(cids.drop_first()));
    } else {
        lemma_cids_bytes_front(cids.drop_last());
        assert(cids.drop_last().drop_first() =~= cids.drop_first().drop_last());
        assert(cids_bytes(cids) =~= cid_bytes(cids[0]) + cids_bytes(cids.drop_first()));
    }
}

/// No two keys have the same binary form: what is hashed for the identifier of a
/// key determines the key.
pub proof fn lemma_key_bytes_unique(a: Seq<CidView>, b: Seq<CidView>)
    requires
        forall|i: int| 0 <= i < a.len() ==> (#[trigger] a[i]).valid(),
        forall|i: int| 0 <= i < b.len() ==> (#[trigger] b[i]).valid(),
        cids_bytes(a) == cids_bytes(b),
    ensures
        a == b,
    decreases a.len(),
{
    if a.len() > 0 {
        lemma_cids_bytes_front(a);
        lemma_cid_bytes_nonempty(a[0]);
    }
    if b.len() > 0 {
        lemma_cids_bytes_front(b);
        lemma_cid_bytes_nonempty(b[0]);
    }
    if a.len() > 0 && b.len() > 0 {
        lemma_cid_bytes_prefix_free(
            a[0],
            b[0],
            cids_bytes(a.drop_first()),
            cids_bytes(b.drop_first()),
        );
        lemma_key_bytes_unique(a.drop_first(), b.drop_first());
        assert(a =~= seq![a[0]] + a.drop_first());
        assert(b =~= seq![b[0]] + b.drop_first());
    } else {
        assert(a =~= b);
    }
}

/// The binary form of a key is made of those of its identifiers: two runs of
/// them follow each other, and one alone is as it is.
pub proof fn lemma_cids_bytes_concat(a: Seq<CidView>, b: Seq<CidView>)
    ensures
        cids_bytes(a + b) == cids_bytes(a) + cids_bytes(b),
        a.len() == 1 ==> cids_bytes(a) == cid_bytes(a[0]),
        a.len() == 0 ==> cids_bytes(a).len() == 0,
    decreases b.len(),
{
    if a.len() == 1 {
        assert(a.drop_last() =~= Seq::empty());
        assert(cids_bytes(a.drop_last()) =~= Seq::empty());
        assert(cids_bytes(a) =~= cid_bytes(a[0]));
    }
    if b.len() == 0 {
        assert(a + b =~= a);
        assert(cids_bytes(a) + cids_bytes(b) =~= cids_bytes(a));
    } else {
        lemma_cids_bytes_concat(a, b.drop_last());
        assert((a + b).drop_last() =~= a + b.drop_last());
        assert(cids_bytes(a + b) =~= cids_bytes(a) + cids_bytes(b));
    }
}

/// The text form of a key is made of those of its identifiers: two runs of them
/// follow each other with a comma between, and one alone is as it is.
pub proof fn lemma_cids_text_concat(a: Seq<CidView>, b: Seq<CidView>)
    requires
        a.len() > 0,
        b.len() > 0,
    ensures
        cids_text(a + b) == cids_text(a) + ", "@ + cids_text(b),
        a.len() == 1 ==> cids_text(a) == cid_text(a[0]),
    decreases b.len(),
{
    assert((a + b).last() == b.last());
    if b.len() == 1 {
        assert((a + b).drop_last() =~= a);
    } else {
        lemma_cids_text_concat(a, b.drop_last());
        assert((a + b).drop_last() =~= a + b.drop_last());
        assert(cids_text(a + b) =~= cids_text(a) + ", "@ + cids_text(b));
    }
}

impl TipsetKey {
    /// The key with the given identifiers.
    pub fn from(value: NonEmpty<Cid>) -> (r: Self)
        ensures
            r@ == cid_views(value@),
    {
        TipsetKey { cids: value }
    }

    /// The identifier of the key: that of its binary forms, taken together as
    /// one byte string.
    pub fn cid(&self) -> (r: Cid)
        ensures
            r@ == dag_cbor_cid(dag_cbor(IpldView::Bytes(cids_bytes(self@)))),
            r@.version == 1 && r@.codec == 0x71 && r@.code == 0xb220,
            r@.digest == blake2b_256_digest(dag_cbor(IpldView::Bytes(cids_bytes(self@)))),
    {
        let cids = self.cids.as_vec();
        let mut bytes: Vec<u8> = Vec::new();
        let mut i: usize = 0;
        assert(self@.take(0) =~= Seq::empty());
        while i < cids.len()
            invariant
                i <= cids.len(),
                cid_views(cids@) == self@,
                bytes@ == cids_bytes(self@.take(i as int)),
            decreases cids.len() - i,
        {
            let mut cid = cids[i].to_bytes();
            bytes.append(&mut cid);
            assert(self@.take(i + 1).drop_last() =~= self@.take(i as int));
            i += 1;
        }
        assert(self@.take(i as int) =~= self@);
        Cid::from_cbor_blake2b256(to_vec(&ipld_bytes(bytes)).as_slice())
    }

    /// Returns `true` if the tipset key contains the given CID.
    pub fn contains(&self, cid: Cid) -> (r: bool)
        ensures
            r == self@.contains(cid@),
    {
        let cids = self.cids.as_vec();
        let mut i: usize = 0;
        while i < cids.len()
            invariant
                i <= cids.len(),
                cid_views(cids@) == self@,
                forall|k: int| 0 <= k < i ==> self@[k] != cid@,
            decreases cids.len() - i,
        {
            if cids[i] == cid {
                assert(self@[i as int] == cid@);
                return true;
            }
            i += 1;
        }
        false
    }

    /// Returns a non-empty collection of CIDs
    pub fn into_cids(self) -> (r: NonEmpty<Cid>)
        ensures
            cid_views(r@) == self@,
    {
        self.cids
    }

    /// Returns a non-empty collection of CIDs
    pub fn to_cids(&self) -> (r: NonEmpty<Cid>)
        ensures
            cid_views(r@) == self@,
    {
        self.clone().into_cids()
    }

    /// Returns the CIDs in order.
    pub fn iter(&self) -> (r: &Vec<Cid>)
        ensures
            r@ == self.cids(),
            r.len() > 0,
    {
        self.cids.as_vec()
    }

    /// Returns the number of CIDs
    pub fn len(&self) -> (r: usize)
        ensures
            r == self@.len(),
            r > 0,
    {
        self.cids.len()
    }

    /// The text form: the identifiers in brackets, with commas between them.
    pub fn to_text(&self) -> (r: String)
        ensures
            r@ == "["@ + cids_text(self@) + "]"@,
    {
        let cids = self.cids.as_vec();
        let mut text = "[".to_string();
        let first = cids[0].to_text();
        text.append(first.as_str());
        let mut i: usize = 1;
        assert(self@.take(1)[0] == cids@[0]@);
        while i < cids.len()
            invariant
                1 <= i <= cids.len(),
                cid_views(cids@) == self@,
                text@ == "["@ + cids_text(self@.take(i as int)),
            decreases cids.len() - i,
        {
            text.append(", ");
            let cid = cids[i].to_text();
            text.append(cid.as_str());
            assert(self@.take(i + 1).drop_last() =~= self@.take(i as int));
            assert(text@ =~= "["@ + cids_text(self@.take(i + 1)));
            i += 1;
        }
        text.append("]");
        assert(self@.take(i as int) =~= self@);
        text
    }
}

impl Clone for TipsetKey {
    fn clone(&self) -> (r: Self)
        ensures
            r@ == self@,
    {
        let mut cids: Vec<Cid> = Vec::new();
        let all = self.cids.as_vec();
        let mut i: usize = 0;
        while i < all.len()
            invariant
                i <= all.len(),
                cids@ == all@.take(i as int),
            decreases all.len() - i,
        {
            cids.push(all[i]);
            i += 1;
        }
        assert(cids@ =~= all@);
        TipsetKey { cids: NonEmpty::new(cids).unwrap() }
    }
}

impl PartialEq for TipsetKey {
    fn eq(&self, other: &Self) -> (r: bool) {
        cids_eq(self.cids.as_vec(), other.cids.as_vec())
    }
}

impl Eq for TipsetKey {

}

impl vstd::std_specs::cmp::PartialEqSpecImpl for TipsetKey {
    open spec fn obeys_eq_spec() -> bool {
        true
    }

    open spec fn eq_spec(&self, other: &Self) -> bool {
        self@ == other@
    }
}

/// Why blocks do not form a tipset.
#[derive(Debug, Clone, Copy, PartialEq, Eq, Structural)]
pub enum CreateTipsetError {
    Empty,
    BadParents,
    BadStateRoot,
    BadEpoch,
    DuplicateMiner,
    BadWeight,
    BadReceipts,
}

impl CreateTipsetError {
    /// The error in words.
    pub open spec fn text(self) -> Seq<char> {
        match self {
            CreateTipsetError::Empty => "tipsets must not be empty"@,
            CreateTipsetError::BadParents => {
                "parent CID is inconsistent. All block headers in a tipset must agree on their parent tipset"@
            },
            CreateTipsetError::BadStateRoot => {
                "state root is inconsistent. All block headers in a tipset must agree on their parent state root"@
            },
            CreateTipsetError::BadEpoch => {
                "epoch is inconsistent. All block headers in a tipset must agree on their epoch"@
            },
            CreateTipsetError::DuplicateMiner => {
                "duplicate miner address. All miners in a tipset must be unique."@
            },
            CreateTipsetError::BadWeight => {
                "weight is inconsistent. All block headers in a tipset must agree on the weight of their parent tipset"@
            },
            CreateTipsetError::BadReceipts => {
                "receipt root is inconsistent. All block headers in a tipset must agree on their parent receipt root"@
            },
        }
    }

    /// The error in words.
    pub fn message(&self) -> (r: &'static str)
        ensures
            r@ == self.text(),
    {
        match self {
            CreateTipsetError::Empty => "tipsets must not be empty",
            CreateTipsetError::BadParents => {
                "parent CID is inconsistent. All block headers in a tipset must agree on their parent tipset"
            },
            CreateTipsetError::BadStateRoot => {
                "state root is inconsistent. All block headers in a tipset must agree on their parent state root"
            },
            CreateTipsetError::BadEpoch => {
                "epoch is inconsistent. All block headers in a tipset must agree on their epoch"
            },
            CreateTipsetError::DuplicateMiner => {
                "duplicate miner address. All miners in a tipset must be unique."
            },
            CreateTipsetError::BadWeight => {
                "weight is inconsistent. All block headers in a tipset must agree on the weight of their parent tipset"
            },
            CreateTipsetError::BadReceipts => {
                "receipt root is inconsistent. All block headers in a tipset must agree on their parent receipt root"
            },
        }
    }
}

/// All blocks have the same parents.
pub open spec fn same_parents(blocks: Seq<BlockView>) -> bool {
    forall|i: int, j: int|
        0 <= i < blocks.len() && 0 <= j < blocks.len() ==> (#[trigger] blocks[i]).header.parents
            == (#[trigger] blocks[j]).header.parents
}

/// All blocks have the same parent state root.
pub open spec fn same_state_root(blocks: Seq<BlockView>) -> bool {
    forall|i: int, j: int|
        0 <= i < blocks.len() && 0 <= j < blocks.len() ==> (#[trigger] blocks[i]).header.state_root
            == (#[trigger] blocks[j]).header.state_root
}

/// All blocks have the same epoch.
pub open spec fn same_epoch(blocks: Seq<BlockView>) -> bool {
    forall|i: int, j: int|
        0 <= i < blocks.len() && 0 <= j < blocks.len() ==> (#[trigger] blocks[i]).header.epoch == (
        #[trigger] blocks[j]).header.epoch
}

/// All blocks give the parent set the same weight.
pub open spec fn same_weight(blocks: Seq<BlockView>) -> bool {
    forall|i: int, j: int|
        0 <= i < blocks.len() && 0 <= j < blocks.len() ==> (#[trigger] blocks[i]).header.weight == (
        #[trigger] blocks[j]).header.weight
}

/// All blocks have the same receipt root.
pub open spec fn same_receipts(blocks: Seq<BlockView>) -> bool {
    forall|i: int, j: int|
        0 <= i < blocks.len() && 0 <= j < blocks.len() ==> (
        #[trigger] blocks[i]).header.message_receipts == (
        #[trigger] blocks[j]).header.message_receipts
}

/// No two blocks have the same miner.
pub open spec fn distinct_miners(blocks: Seq<BlockView>) -> bool {
    forall|i: int, j: int|
        0 <= i < blocks.len() && 0 <= j < blocks.len() && i != j ==> (
        #[trigger] blocks[i]).header.miner_address != (#[trigger] blocks[j]).header.miner_address
}

/// The first check of [`verify_block_headers`] that fails, if one does.
pub open spec fn header_fault(blocks: Seq<BlockView>) -> Option<CreateTipsetError> {
    if blocks.len() == 0 {
        Some(CreateTipsetError::Empty)
    } else if !same_parents(blocks) {
        Some(CreateTipsetError::BadParents)
    } else if !same_state_root(blocks) {
        Some(CreateTipsetError::BadStateRoot)
    } else if !same_epoch(blocks) {
        Some(CreateTipsetError::BadEpoch)
    } else if !distinct_miners(blocks) {
        Some(CreateTipsetError::DuplicateMiner)
    } else {
        None
    }
}

/// The first reason for which blocks do not form a tipset, if there is one.
pub open spec fn fault(blocks: Seq<BlockView>) -> Option<CreateTipsetError> {
    match header_fault(blocks) {
        Some(e) => Some(e),
        None => if !same_weight(blocks) {
            Some(CreateTipsetError::BadWeight)
        } else if !same_receipts(blocks) {
            Some(CreateTipsetError::BadReceipts)
        } else {
            None
        },
    }
}

/// All blocks agree on parents, state root, epoch, weight and receipt root, and
/// no two of them have the same miner. There is at least one.
pub open spec fn belong_together(blocks: Seq<BlockView>) -> bool {
    &&& blocks.len() > 0
    &&& forall|i: int, j: int|
        0 <= i < j < blocks.len() ==> {
            let a = (#[trigger] blocks[i]).header;
            let b = (#[trigger] blocks[j]).header;
            &&& a.parents == b.parents
            &&& a.state_root == b.state_root
            &&& a.epoch == b.epoch
            &&& a.weight == b.weight
            &&& a.message_receipts == b.message_receipts
            &&& a.miner_address != b.miner_address
        }
}

/// Two blocks do not go together, for the given reason.
pub open spec fn are_at_odds(a: HeaderView, b: HeaderView, e: CreateTipsetError) -> bool {
    match e {
        CreateTipsetError::Empty => false,
        CreateTipsetError::BadParents => a.parents != b.parents,
        CreateTipsetError::BadStateRoot => a.parents == b.parents && a.state_root != b.state_root,
        CreateTipsetError::BadEpoch => a.parents == b.parents && a.state_root == b.state_root
            && a.epoch != b.epoch,
        CreateTipsetError::DuplicateMiner => a.parents == b.parents && a.state_root
            == b.state_root && a.epoch == b.epoch && a.miner_address == b.miner_address,
        CreateTipsetError::BadWeight => a.parents == b.parents && a.state_root == b.state_root
            && a.epoch == b.epoch && a.miner_address != b.miner_address && a.weight != b.weight,
        CreateTipsetError::BadReceipts => a.parents == b.parents && a.state_root
            == b.state_root && a.epoch == b.epoch && a.miner_address != b.miner_address
            && a.weight == b.weight && a.message_receipts != b.message_receipts,
    }
}

/// Blocks form a tipset exactly if they belong together. If they do not, then
/// there are none, or two of them are at odds for the reason that is given.
pub proof fn lemma_fault_has_a_reason(blocks: Seq<BlockView>)
    ensures
        fault(blocks) is None <==> belong_together(blocks),
        fault(blocks) == Some(CreateTipsetError::Empty) <==> blocks.len() == 0,
        fault(blocks) is Some && blocks.len() > 0 ==> exists|i: int, j: int|
            0 <= i < j < blocks.len() && are_at_odds(
                (#[trigger] blocks[i]).header,
                (#[trigger] blocks[j]).header,
                fault(blocks)->0,
            ),
{
    if fault(blocks) is None {
        assert(same_parents(blocks) && same_state_root(blocks) && same_epoch(blocks));
        assert(same_weight(blocks) && same_receipts(blocks) && distinct_miners(blocks));
    } else if blocks.len() > 0 {
        let e = fault(blocks)->0;
        let (i, j) = if e == CreateTipsetError::BadParents {
            choose|i: int, j: int|
                0 <= i < blocks.len() && 0 <= j < blocks.len() && (
                #[trigger] blocks[i]).header.parents != (#[trigger] blocks[j]).header.parents
        } else if e == CreateTipsetError::BadStateRoot {
            choose|i: int, j: int|
                0 <= i < blocks.len() && 0 <= j < blocks.len() && (
                #[trigger] blocks[i]).header.state_root != (#[trigger] blocks[j]).header.state_root
        } else if e == CreateTipsetError::BadEpoch {
            choose|i: int, j: int|
                0 <= i < blocks.len() && 0 <= j < blocks.len() && (
                #[trigger] blocks[i]).header.epoch != (#[trigger] blocks[j]).header.epoch
        } else if e == CreateTipsetError::DuplicateMiner {
            choose|i: int, j: int|
                0 <= i < blocks.len() && 0 <= j < blocks.len() && i != j && (
                #[trigger] blocks[i]).header.miner_address == (
                #[trigger] blocks[j]).header.miner_address
        } else if e == CreateTipsetError::BadWeight {
            choose|i: int, j: int|
                0 <= i < blocks.len() && 0 <= j < blocks.len() && (
                #[trigger] blocks[i]).header.weight != (#[trigger] blocks[j]).header.weight
        } else {
            choose|i: int, j: int|
                0 <= i < blocks.len() && 0 <= j < blocks.len() && (
                #[trigger] blocks[i]).header.message_receipts != (
                #[trigger] blocks[j]).header.message_receipts
        };
        assert(are_at_odds(blocks[i].header, blocks[j].header, e));
        assert(are_at_odds(blocks[j].header, blocks[i].header, e));
        assert(i != j);
        if i < j {
            assert(are_at_odds(blocks[i].header, blocks[j].header, e));
        } else {
            assert(are_at_odds(blocks[j].header, blocks[i].header, e));
        }
    }
}

/// The reasons have an order. A reason is given only if no two blocks are at odds
/// for one that comes before it: parents, state root, epoch, miners, weight,
/// receipts.
pub proof fn lemma_first_reason_is_given(blocks: Seq<BlockView>, i: int, j: int)
    requires
        0 <= i < j < blocks.len(),
    ensures
        ({
            let (a, b) = (blocks[i].header, blocks[j].header);
            let e = fault(blocks);
            &&& a.parents != b.parents ==> e == Some(CreateTipsetError::BadParents)
            &&& a.state_root != b.state_root ==> e == Some(CreateTipsetError::BadParents) || e
                == Some(CreateTipsetError::BadStateRoot)
            &&& a.epoch != b.epoch ==> e == Some(CreateTipsetError::BadParents) || e == Some(
                CreateTipsetError::BadStateRoot,
            ) || e == Some(CreateTipsetError::BadEpoch)
            &&& a.miner_address == b.miner_address ==> e is Some && e != Some(
                CreateTipsetError::BadWeight,
            ) && e != Some(CreateTipsetError::BadReceipts)
            &&& a.weight != b.weight ==> e is Some && e != Some(CreateTipsetError::BadReceipts)
            &&& a.message_receipts != b.message_receipts ==> e is Some
        }),
{
    let (a, b) = (blocks[i].header, blocks[j].header);
    if a.parents != b.parents {
        assert(!same_parents(blocks));
    }
    if a.state_root != b.state_root {
        assert(!same_state_root(blocks));
    }
    if a.epoch != b.epoch {
        assert(!same_epoch(blocks));
    }
    if a.weight != b.weight {
        assert(!same_weight(blocks));
    }
    if a.message_receipts != b.message_receipts {
        assert(!same_receipts(blocks));
    }
    if a.miner_address == b.miner_address {
        assert(!distinct_miners(blocks));
    }
}

/// The blocks of a tipset with tickets are in the order of the hashes of their
/// tickets, taken as they stand in the headers; where two hashes are the same,
/// in the order of their identifiers. Blocks without a ticket come before all
/// others.
pub proof fn lemma_tipset_in_ticket_order(blocks: Seq<BlockView>, i: int, j: int)
    requires
        is_tipset(blocks),
        0 <= i < j < blocks.len(),
    ensures
        blocks[i].header.ticket is Some ==> blocks[j].header.ticket is Some,
        blocks[i].header.ticket matches Some(first) ==> {
            let second = blocks[j].header.ticket->0;
            let (x, y) = (blake2b_256_digest(first), blake2b_256_digest(second));
            let a = cid_bytes(raw_cid(blocks[i].header));
            let b = cid_bytes(raw_cid(blocks[j].header));
            comes_before(x, y) || (x == y && (a == b || comes_before(a, b)))
        },
        blocks[i].header.ticket matches Some(first) ==> !comes_before(
            blake2b_256_digest(blocks[j].header.ticket->0),
            blake2b_256_digest(first),
        ),
{
    let (p, q) = (blocks[i].header, blocks[j].header);
    assert(!key_lt(sort_key(q), sort_key(p)));
    lemma_key_lt_total(sort_key(p), sort_key(q));
    if let (Some(first), Some(second)) = (p.ticket, q.ticket) {
        let (x, y) = (blake2b_256_digest(first), blake2b_256_digest(second));
        lemma_bytes_lt_first_difference(x, y);
        lemma_bytes_lt_first_difference(y, x);
        lemma_bytes_lt_first_difference(cid_bytes(raw_cid(p)), cid_bytes(raw_cid(q)));
    }
}

/// Whether blocks form a tipset does not depend on the order in which they are
/// given, and neither does the error.
pub proof fn lemma_fault_ignores_order(blocks: Seq<BlockView>, order: Seq<int>)
    requires
        is_permutation(order, blocks.len()),
    ensures
        fault(reordered(blocks, order)) == fault(blocks),
        header_fault(reordered(blocks, order)) == header_fault(blocks),
{
    let moved = reordered(blocks, order);
    let back = Seq::new(
        order.len(),
        |x: int| choose|i: int| 0 <= i < order.len() && #[trigger] order[i] == x,
    );
    assert forall|x: int| 0 <= x < order.len() implies 0 <= #[trigger] back[x] < order.len()
        && order[back[x]] == x && moved[back[x]] == blocks[x] by {
        super::order::lemma_permutation_onto(order, blocks.len(), x);
    }
    assert forall|i: int| 0 <= i < order.len() implies #[trigger] moved[i] == blocks[order[i]] && 0
        <= order[i] < blocks.len() by {}
    assert(same_parents(moved) == same_parents(blocks)) by {
        if same_parents(moved) {
            assert forall|i: int, j: int|
                0 <= i < blocks.len() && 0 <= j < blocks.len() implies (
            #[trigger] blocks[i]).header.parents == (#[trigger] blocks[j]).header.parents by {
                assert(moved[back[i]].header.parents == moved[back[j]].header.parents);
            }
        }
    }
    assert(same_state_root(moved) == same_state_root(blocks)) by {
        if same_state_root(moved) {
            assert forall|i: int, j: int|
                0 <= i < blocks.len() && 0 <= j < blocks.len() implies (
            #[trigger] blocks[i]).header.state_root == (#[trigger] blocks[j]).header.state_root by {
                assert(moved[back[i]].header.state_root == moved[back[j]].header.state_root);
            }
        }
    }
    assert(same_epoch(moved) == same_epoch(blocks)) by {
        if same_epoch(moved) {
            assert forall|i: int, j: int|
                0 <= i < blocks.len() && 0 <= j < blocks.len() implies (
            #[trigger] blocks[i]).header.epoch == (#[trigger] blocks[j]).header.epoch by {
                assert(moved[back[i]].header.epoch == moved[back[j]].header.epoch);
            }
        }
    }
    assert(same_weight(moved) == same_weight(blocks)) by {
        if same_weight(moved) {
            assert forall|i: int, j: int|
                0 <= i < blocks.len() && 0 <= j < blocks.len() implies (
            #[trigger] blocks[i]).header.weight == (#[trigger] blocks[j]).header.weight by {
                assert(moved[back[i]].header.weight == moved[back[j]].header.weight);
            }
        }
    }
    assert(same_receipts(moved) == same_receipts(blocks)) by {
        if same_receipts(moved) {
            assert forall|i: int, j: int|
                0 <= i < blocks.len() && 0 <= j < blocks.len() implies (
            #[trigger] blocks[i]).header.message_receipts == (
            #[trigger] blocks[j]).header.message_receipts by {
                assert(moved[back[i]].header.message_receipts
                    == moved[back[j]].header.message_receipts);
            }
        }
    }
    assert(distinct_miners(moved) == distinct_miners(blocks)) by {
        if distinct_miners(moved) {
            assert forall|i: int, j: int|
                0 <= i < blocks.len() && 0 <= j < blocks.len() && i != j implies (
            #[trigger] blocks[i]).header.miner_address != (
            #[trigger] blocks[j]).header.miner_address by {
                if back[i] == back[j] {
                    assert(order[back[i]] == i && order[back[j]] == j);
                }
                assert(moved[back[i]].header.miner_address != moved[back[j]].header.miner_address);
            }
        }
    }
}

/// The blocks as given, in canonical order.
pub open spec fn is_sorted_from(
    given: Seq<CachingBlockHeader>,
    sorted: Seq<CachingBlockHeader>,
) -> bool {
    exists|order: Seq<int>| #[trigger]
        is_sorting(keys_of(block_views(given)), order) && sorted == reordered(given, order)
}

/// Sorts blocks by their sort keys.
///
/// Calls `itertools::Itertools::sorted_by_cached_key`, with the blocks' own sort
/// keys. The contract claims that the sort is stable: smaller keys come first,
/// and equal keys stay in the order in which they were given. Keys are compared
/// as the standard library compares options, pairs and byte strings: no key
/// comes before any key, and else the order is lexicographic.
#[verifier::external_body]
fn sort_headers(headers: Vec<CachingBlockHeader>) -> (r: Vec<CachingBlockHeader>)
    requires
        forall|i: int| 0 <= i < headers.len() ==> sortable((#[trigger] headers@[i])@.header),
    ensures
        is_sorted_from(headers@, r@),
{
    headers.into_iter().sorted_by_cached_key(|it| it.uncached().tipset_sort_key()).collect()
}

proof fn lemma_header_checks(headers: Seq<CachingBlockHeader>)
    ensures
        header_fault(block_views(headers)) is None <==> headers.len() > 0 && forall|i: int, j: int|
            0 <= i < j < headers.len() ==> {
                let a = (#[trigger] headers[i])@.header;
                let b = (#[trigger] headers[j])@.header;
                a.parents == b.parents && a.state_root == b.state_root && a.epoch == b.epoch
                    && a.miner_address != b.miner_address
            },
{
    let blocks = block_views(headers);
    assert forall|i: int| 0 <= i < headers.len() implies blocks[i] == (#[trigger] headers[i])@ by {}
    if header_fault(blocks) is None {
        assert(same_parents(blocks) && same_state_root(blocks) && same_epoch(blocks));
        assert(distinct_miners(blocks));
        assert forall|i: int, j: int| 0 <= i < j < headers.len() implies ({
            let a = (#[trigger] headers[i])@.header;
            let b = (#[trigger] headers[j])@.header;
            a.parents == b.parents && a.state_root == b.state_root && a.epoch == b.epoch
                && a.miner_address != b.miner_address
        }) by {
            assert(blocks[i] == headers[i]@ && blocks[j] == headers[j]@);
        }
    } else if headers.len() > 0 {
        let good = forall|i: int, j: int|
            0 <= i < j < headers.len() ==> {
                let a = (#[trigger] headers[i])@.header;
                let b = (#[trigger] headers[j])@.header;
                a.parents == b.parents && a.state_root == b.state_root && a.epoch == b.epoch
                    && a.miner_address != b.miner_address
            };
        if good {
            assert forall|i: int, j: int|
                0 <= i < blocks.len() && 0 <= j < blocks.len() && i != j implies {
                let a = (#[trigger] blocks[i]).header;
                let b = (#[trigger] blocks[j]).header;
                a.parents == b.parents && a.state_root == b.state_root && a.epoch == b.epoch
                    && a.miner_address != b.miner_address
            } by {
                assert(blocks[i] == headers[i]@ && blocks[j] == headers[j]@);
                if i < j {
                    let (a, b) = (headers[i], headers[j]);
                } else {
                    let (a, b) = (headers[j], headers[i]);
                }
            }
            assert(same_parents(blocks) && same_state_root(blocks) && same_epoch(blocks));
            assert(distinct_miners(blocks));
        }
    }
}

/// Checks that headers form a tipset.
pub fn verify_block_headers(headers: &Vec<CachingBlockHeader>) -> (r: Result<(), CreateTipsetError>)
    ensures
        match r {
            Ok(()) => header_fault(block_views(headers@)) is None,
            Err(e) => header_fault(block_views(headers@)) == Some(e),
        },
        r is Ok <==> headers.len() > 0 && forall|i: int, j: int|
            0 <= i < j < headers.len() ==> {
                let a = (#[trigger] headers@[i])@.header;
                let b = (#[trigger] headers@[j])@.header;
                a.parents == b.parents && a.state_root == b.state_root && a.epoch == b.epoch
                    && a.miner_address != b.miner_address
            },
{
    let ghost blocks = block_views(headers@);
    proof {
        lemma_header_checks(headers@);
    }
    if headers.len() == 0 {
        return Err(CreateTipsetError::Empty);
    }
    let first = headers[0].uncached();
    let mut i: usize = 0;
    while i < headers.len()
        invariant
            i <= headers.len(),
            headers.len() > 0,
            blocks == block_views(headers@),
            first@ == blocks[0].header,
            forall|k: int| 0 <= k < i ==> (#[trigger] blocks[k]).header.parents == first@.parents,
        decreases headers.len() - i,
    {
        if headers[i].uncached().parents != first.parents {
            assert(blocks[i as int].header.parents != blocks[0].header.parents);
            return Err(CreateTipsetError::BadParents);
        }
        i += 1;
    }
    i = 0;
    while i < headers.len()
        invariant
            i <= headers.len(),
            headers.len() > 0,
            blocks == block_views(headers@),
            first@ == blocks[0].header,
            same_parents(blocks),
            forall|k: int|
                0 <= k < i ==> (#[trigger] blocks[k]).header.state_root == first@.state_root,
        decreases headers.len() - i,
    {
        if headers[i].uncached().state_root != first.state_root {
            assert(blocks[i as int].header.state_root != blocks[0].header.state_root);
            return Err(CreateTipsetError::BadStateRoot);
        }
        i += 1;
    }
    i = 0;
    while i < headers.len()
        invariant
            i <= headers.len(),
            headers.len() > 0,
            blocks == block_views(headers@),
            first@ == blocks[0].header,
            same_parents(blocks),
            same_state_root(blocks),
            forall|k: int| 0 <= k < i ==> (#[trigger] blocks[k]).header.epoch == first@.epoch,
        decreases headers.len() - i,
    {
        if headers[i].uncached().epoch != first.epoch {
            assert(blocks[i as int].header.epoch != blocks[0].header.epoch);
            return Err(CreateTipsetError::BadEpoch);
        }
        i += 1;
    }
    i = 0;
    while i < headers.len()
        invariant
            i <= headers.len(),
            headers.len() > 0,
            blocks == block_views(headers@),
            same_parents(blocks),
            same_state_root(blocks),
            same_epoch(blocks),
            forall|k: int, m: int|
                0 <= k < m < i ==> (#[trigger] blocks[k]).header.miner_address != (
                #[trigger] blocks[m]).header.miner_address,
        decreases headers.len() - i,
    {
        let mut j: usize = 0;
        while j < i
            invariant
                j <= i < headers.len(),
                blocks == block_views(headers@),
                same_parents(blocks),
                same_state_root(blocks),
                same_epoch(blocks),
                forall|k: int|
                    0 <= k < j ==> (#[trigger] blocks[k]).header.miner_address
                        != blocks[i as int].header.miner_address,
            decreases i - j,
        {
            if headers[j].uncached().miner_address == headers[i].uncached().miner_address {
                assert(blocks[j as int].header.miner_address
                    == blocks[i as int].header.miner_address);
                return Err(CreateTipsetError::DuplicateMiner);
            }
            j += 1;
        }
        i += 1;
    }
    assert(distinct_miners(blocks));
    Ok(())
}

/// Checks that headers agree on weight and receipt root.
pub fn verify_weight_and_receipts(headers: &NonEmpty<CachingBlockHeader>) -> (r: Result<
    (),
    CreateTipsetError,
>)
    ensures
        r == if !same_weight(block_views(headers@)) {
            Err::<(), CreateTipsetError>(CreateTipsetError::BadWeight)
        } else if !same_receipts(block_views(headers@)) {
            Err(CreateTipsetError::BadReceipts)
        } else {
            Ok(())
        },
{
    let all = headers.as_vec();
    let ghost blocks = block_views(headers@);
    let first = all[0].uncached();
    let mut i: usize = 0;
    while i < all.len()
        invariant
            i <= all.len(),
            all.len() > 0,
            blocks == block_views(headers@),
            all@ == headers@,
            first@ == blocks[0].header,
            forall|k: int| 0 <= k < i ==> (#[trigger] blocks[k]).header.weight == first@.weight,
        decreases all.len() - i,
    {
        if all[i].uncached().weight != first.weight {
            assert(blocks[i as int].header.weight != blocks[0].header.weight);
            return Err(CreateTipsetError::BadWeight);
        }
        i += 1;
    }
    i = 0;
    while i < all.len()
        invariant
            i <= all.len(),
            all.len() > 0,
            blocks == block_views(headers@),
            all@ == headers@,
            first@ == blocks[0].header,
            same_weight(blocks),
            forall|k: int|
                0 <= k < i ==> (#[trigger] blocks[k]).header.message_receipts
                    == first@.message_receipts,
        decreases all.len() - i,
    {
        if all[i].uncached().message_receipts != first.message_receipts {
            assert(blocks[i as int].header.message_receipts != blocks[0].header.message_receipts);
            return Err(CreateTipsetError::BadReceipts);
        }
        i += 1;
    }
    Ok(())
}

/// Blocks that form a tipset, in canonical order.
pub open spec fn is_tipset(blocks: Seq<BlockView>) -> bool {
    fault(blocks) is None && in_order(blocks)
}

/// An immutable set of blocks at the same height with the same parent set.
/// Blocks in a tipset are canonically ordered by ticket size.
#[derive(Debug)]
pub struct Tipset {
    /// Sorted
    headers: NonEmpty<CachingBlockHeader>,
}

impl View for Tipset {
    type V = Seq<BlockView>;

    closed spec fn view(&self) -> Seq<BlockView> {
        block_views(self.headers@)
    }
}

impl Clone for Tipset {
    fn clone(&self) -> (r: Self)
        ensures
            r@ == self@,
    {
        proof {
            use_type_invariant(self);
        }
        let headers = self.headers.as_vec().clone();
        assert(block_views(headers@) =~= self@);
        Tipset { headers: NonEmpty::new(headers).unwrap() }
    }
}

proof fn lemma_sorted_views(
    given: Seq<CachingBlockHeader>,
    sorted: Seq<CachingBlockHeader>,
)
    requires
        is_sorted_from(given, sorted),
    ensures
        block_views(sorted) == canonical(block_views(given)),
        in_order(block_views(sorted)),
        fault(block_views(sorted)) == fault(block_views(given)),
        header_fault(block_views(sorted)) == header_fault(block_views(given)),
        sorted.len() == given.len(),
{
    let blocks = block_views(given);
    let order = choose|order: Seq<int>| #[trigger]
        is_sorting(keys_of(blocks), order) && sorted == reordered(given, order);
    assert(block_views(sorted) =~= reordered(blocks, order));
    lemma_sorted_in_order(blocks, order);
    lemma_fault_ignores_order(blocks, order);
    lemma_canonical(blocks, order);
}

/// The blocks in canonical order.
pub open spec fn canonical(blocks: Seq<BlockView>) -> Seq<BlockView> {
    reordered(blocks, choose|order: Seq<int>| is_sorting(keys_of(blocks), order))
}

/// The canonical order loses no block and adds none.
pub proof fn lemma_canonical_same_elements(blocks: Seq<BlockView>)
    ensures
        canonical(blocks).to_multiset() == blocks.to_multiset(),
        canonical(blocks).len() == blocks.len(),
{
    let order = lemma_sorting_exists(keys_of(blocks));
    lemma_canonical(blocks, order);
    lemma_reordered_same_elements(blocks, order);
}

proof fn lemma_canonical(blocks: Seq<BlockView>, order: Seq<int>)
    requires
        is_sorting(keys_of(blocks), order),
    ensures
        canonical(blocks) == reordered(blocks, order),
{
    let chosen = choose|order: Seq<int>| is_sorting(keys_of(blocks), order);
    lemma_sorting_unique(keys_of(blocks), chosen, order);
}

/// How the tipset of the given blocks comes out.
pub open spec fn is_created(blocks: Seq<BlockView>, r: Result<Tipset, CreateTipsetError>) -> bool {
    match fault(blocks) {
        Some(e) => r == Err::<Tipset, CreateTipsetError>(e),
        None => r matches Ok(tipset) && tipset@ == canonical(blocks),
    }
}

/// Any two blocks of a tipset agree on all that they have to agree on, and have
/// different miners.
pub proof fn lemma_tipset_agrees(blocks: Seq<BlockView>, i: int, j: int)
    requires
        is_tipset(blocks),
        0 <= i < j < blocks.len(),
    ensures
        blocks[i].header.parents == blocks[j].header.parents,
        blocks[i].header.state_root == blocks[j].header.state_root,
        blocks[i].header.epoch == blocks[j].header.epoch,
        blocks[i].header.weight == blocks[j].header.weight,
        blocks[i].header.message_receipts == blocks[j].header.message_receipts,
        blocks[i].header.miner_address != blocks[j].header.miner_address,
{
    lemma_first_reason_is_given(blocks, i, j);
}

/// A tipset is made of given blocks exactly if there are any, and any two of them
/// agree and have different miners. It holds these blocks and no others, and is
/// a tipset.
pub proof fn lemma_created_from_blocks(
    blocks: Seq<BlockView>,
    r: Result<Tipset, CreateTipsetError>,
)
    requires
        is_created(blocks, r),
    ensures
        r is Ok <==> blocks.len() > 0 && forall|i: int, j: int|
            0 <= i < j < blocks.len() ==> {
                let a = (#[trigger] blocks[i]).header;
                let b = (#[trigger] blocks[j]).header;
                &&& a.parents == b.parents
                &&& a.state_root == b.state_root
                &&& a.epoch == b.epoch
                &&& a.weight == b.weight
                &&& a.message_receipts == b.message_receipts
                &&& a.miner_address != b.miner_address
            },
        r matches Ok(tipset) ==> tipset@.to_multiset() == blocks.to_multiset() && is_tipset(
            tipset@,
        ),
{
    lemma_fault_has_a_reason(blocks);
    lemma_canonical_same_elements(blocks);
    let order = lemma_sorting_exists(keys_of(blocks));
    lemma_canonical(blocks, order);
    lemma_sorted_in_order(blocks, order);
    lemma_fault_ignores_order(blocks, order);
}

impl Tipset {
    #[verifier::type_invariant]
    spec fn inv(self) -> bool {
        is_tipset(self@)
    }

    /// The identifiers of the parents.
    pub closed spec fn parent_cids(&self) -> Seq<Cid> {
        self.headers@[0].parent_cids()
    }

    /// The tipset with a single block.
    pub fn from(value: CachingBlockHeader) -> (r: Self)
        ensures
            r@ == seq![value@],
    {
        let headers = NonEmpty::of_one(value);
        assert(block_views(headers@) =~= seq![value@]);
        Tipset { headers }
    }

    /// Builds a new tipset from a collection of blocks.
    /// A valid tipset contains a non-empty collection of blocks that have
    /// distinct miners and all specify identical epoch, parents, weight, state
    /// root and receipt root.
    pub fn new(headers: Vec<CachingBlockHeader>) -> (r: Result<Self, CreateTipsetError>)
        requires
            headers.len() > 1 ==> forall|i: int|
                0 <= i < headers.len() ==> sortable((#[trigger] headers@[i])@.header),
        ensures
            is_created(block_views(headers@), r),
            r matches Ok(tipset) ==> is_tipset(tipset@),
            r is Ok <==> belong_together(block_views(headers@)),
            r matches Ok(tipset) ==> tipset@.to_multiset() == block_views(headers@).to_multiset(),
            r matches Err(e) ==> if headers.len() == 0 {
                e == CreateTipsetError::Empty
            } else {
                exists|i: int, j: int|
                    0 <= i < j < headers.len() && are_at_odds(
                        (#[trigger] block_views(headers@)[i]).header,
                        (#[trigger] block_views(headers@)[j]).header,
                        e,
                    )
            },
    {
        let ghost given = block_views(headers@);
        proof {
            lemma_fault_has_a_reason(given);
            lemma_canonical_same_elements(given);
        }
        // A block by itself needs no place among others
        let sorted = if headers.len() > 1 {
            let sorted = sort_headers(headers);
            proof {
                lemma_sorted_views(headers@, sorted@);
            }
            sorted
        } else {
            proof {
                lemma_canonical_keeps_order(given);
            }
            headers
        };
        let headers = match NonEmpty::new(sorted) {
            Ok(headers) => headers,
            Err(_) => return Err(CreateTipsetError::Empty),
        };
        match verify_block_headers(headers.as_vec()) {
            Ok(()) => {},
            Err(e) => return Err(e),
        }
        match verify_weight_and_receipts(&headers) {
            Ok(()) => Ok(Tipset { headers }),
            Err(e) => Err(e),
        }
    }

    /// Returns epoch of the tipset.
    pub fn epoch(&self) -> (r: ChainEpoch)
        ensures
            forall|i: int| 0 <= i < self@.len() ==> (#[trigger] self@[i]).header.epoch == r,
            self@.len() > 0,
    {
        proof {
            use_type_invariant(self);
        }
        self.min_ticket_block().uncached().epoch
    }

    /// The blocks, in canonical order.
    pub fn block_headers(&self) -> (r: &NonEmpty<CachingBlockHeader>)
        ensures
            block_views(r@) == self@,
            is_tipset(self@),
    {
        proof {
            use_type_invariant(self);
        }
        &self.headers
    }

    /// The blocks, in canonical order.
    pub fn into_block_headers(self) -> (r: NonEmpty<CachingBlockHeader>)
        ensures
            block_views(r@) == self@,
            is_tipset(self@),
    {
        proof {
            use_type_invariant(&self);
        }
        self.headers
    }

    /// Returns the block with the smallest ticket of all blocks in the tipset
    pub fn min_ticket_block(&self) -> (r: &CachingBlockHeader)
        ensures
            self@.len() > 0,
            r@ == self@[0],
            forall|i: int|
                0 <= i < self@.len() ==> !key_lt(
                    sort_key((#[trigger] self@[i]).header),
                    sort_key(r@.header),
                ),
            r@.header.ticket matches Some(least) ==> forall|i: int|
                0 < i < self@.len() ==> (#[trigger] self@[i]).header.ticket is Some
                    && !comes_before(
                    blake2b_256_digest(self@[i].header.ticket->0),
                    blake2b_256_digest(least),
                ),
    {
        proof {
            use_type_invariant(self);
            lemma_key_lt_total(sort_key(self@[0].header), sort_key(self@[0].header));
            assert forall|i: int| 0 < i < self@.len() && self@[0].header.ticket is Some implies (
            #[trigger] self@[i]).header.ticket is Some && !comes_before(
                blake2b_256_digest(self@[i].header.ticket->0),
                blake2b_256_digest(self@[0].header.ticket->0),
            ) by {
                lemma_tipset_in_ticket_order(self@, 0, i);
            }
        }
        self.headers.first()
    }

    /// Returns a key for the tipset.
    pub fn key(&self) -> (r: TipsetKey)
        requires
            forall|i: int| 0 <= i < self@.len() ==> identifiable(#[trigger] self@[i]),
        ensures
            r@ == tipset_key(self@),
            r@.len() == self@.len(),
            forall|i: int| 0 <= i < self@.len() ==> #[trigger] r@[i] == block_cid(self@[i]),
    {
        proof {
            use_type_invariant(self);
        }
        let headers = self.headers.as_vec();
        let mut cids: Vec<Cid> = Vec::new();
        let mut i: usize = 0;
        while i < headers.len()
            invariant
                i <= headers.len(),
                cids.len() == i,
                block_views(headers@) == self@,
                forall|k: int| 0 <= k < self@.len() ==> identifiable(#[trigger] self@[k]),
                forall|k: int| 0 <= k < i ==> (#[trigger] cids@[k])@ == block_cid(self@[k]),
            decreases headers.len() - i,
        {
            assert(identifiable(self@[i as int]));
            cids.push(headers[i].cid());
            i += 1;
        }
        assert(cid_views(cids@) =~= tipset_key(self@));
        TipsetKey::from(NonEmpty::new(cids).unwrap())
    }

    /// Returns the keys of the parents of the blocks in the tipset.
    pub fn parents(&self) -> (r: &TipsetKey)
        ensures
            forall|i: int| 0 <= i < self@.len() ==> (#[trigger] self@[i]).header.parents == r@,
            self@.len() > 0,
            r.cids() == self.parent_cids(),
    {
        proof {
            use_type_invariant(self);
        }
        let first = self.headers.first();
        assert(self@[0] == first@);
        first.parents()
    }

    /// Whether two tipsets hold the same blocks.
    pub fn eq(&self, other: &Self) -> (r: bool)
        requires
            forall|i: int| 0 <= i < self@.len() ==> identifiable(#[trigger] self@[i]),
            forall|i: int| 0 <= i < other@.len() ==> identifiable(#[trigger] other@[i]),
        ensures
            r == same_blocks(self@, other@),
            r == (self@.len() == other@.len() && forall|i: int|
                0 <= i < self@.len() ==> (#[trigger] self@[i]).header.epoch
                    == other@[i].header.epoch && block_cid(self@[i]) == block_cid(other@[i])),
    {
        let a = self.headers.as_vec();
        let b = other.headers.as_vec();
        if a.len() != b.len() {
            return false;
        }
        let mut i: usize = 0;
        while i < a.len()
            invariant
                i <= a.len(),
                a.len() == b.len(),
                block_views(a@) == self@,
                block_views(b@) == other@,
                forall|k: int| 0 <= k < self@.len() ==> identifiable(#[trigger] self@[k]),
                forall|k: int| 0 <= k < other@.len() ==> identifiable(#[trigger] other@[k]),
                forall|k: int| 0 <= k < i ==> same_block(#[trigger] self@[k], other@[k]),
            decreases a.len() - i,
        {
            assert(identifiable(self@[i as int]) && identifiable(other@[i as int]));
            if !a[i].eq(&b[i]) {
                assert(!same_block(self@[i as int], other@[i as int]));
                return false;
            }
            i += 1;
        }
        true
    }
}

/// The key of a tipset: the identifiers of its blocks.
pub open spec fn tipset_key(blocks: Seq<BlockView>) -> Seq<CidView> {
    blocks.map_values(|block: BlockView| block_cid(block))
}

/// The blocks are the same, one by one.
pub open spec fn same_blocks(a: Seq<BlockView>, b: Seq<BlockView>) -> bool {
    a.len() == b.len() && forall|i: int|
        0 <= i < a.len() ==> same_block(#[trigger] a[i], b[i])
}

/// The identifiers of the blocks, where they are known, are those of their
/// headers.
pub open spec fn rightly_named(blocks: Seq<BlockView>) -> bool {
    forall|i: int|
        0 <= i < blocks.len() ==> block_cid(#[trigger] blocks[i]) == raw_cid(blocks[i].header)
}

/// The order in which blocks with tickets are given does not matter: the same
/// blocks give the same error, or the same tipset with the blocks in the same
/// order.
pub proof fn lemma_tipset_ignores_order(blocks: Seq<BlockView>, shuffle: Seq<int>)
    requires
        is_permutation(shuffle, blocks.len()),
        forall|i: int| 0 <= i < blocks.len() ==> (#[trigger] blocks[i]).header.ticket is Some,
        rightly_named(blocks),
    ensures
        fault(reordered(blocks, shuffle)) == fault(blocks),
        fault(blocks) is None ==> same_blocks(
            canonical(reordered(blocks, shuffle)),
            canonical(blocks),
        ),
{
    let shuffled = reordered(blocks, shuffle);
    lemma_fault_ignores_order(blocks, shuffle);
    let a = lemma_sorting_exists(keys_of(shuffled));
    let b = lemma_sorting_exists(keys_of(blocks));
    lemma_canonical(shuffled, a);
    lemma_canonical(blocks, b);
    lemma_same_keys_in_order(keys_of(blocks), shuffle, b, a);
    if fault(blocks) is None {
        assert forall|i: int| 0 <= i < blocks.len() implies same_block(
            #[trigger] canonical(shuffled)[i],
            canonical(blocks)[i],
        ) by {
            assert(0 <= a[i] < blocks.len() && 0 <= b[i] < blocks.len());
            let x = blocks[shuffle[a[i]]];
            let y = blocks[b[i]];
            assert(0 <= shuffle[a[i]] < blocks.len());
            assert(keys_of(blocks)[shuffle[a[i]]] == keys_of(blocks)[b[i]]);
            assert(sort_key(x.header) == sort_key(y.header));
            lemma_dag_cbor_cid_bytes_unique(
                dag_cbor(header_value(x.header)),
                dag_cbor(header_value(y.header)),
            );
            assert(x.header.epoch == y.header.epoch);
        }
    }
}

/// Why a tipset could not be loaded.
#[derive(Debug)]
pub enum LoadError<E> {
    /// A block could not be fetched.
    Fetch(E),
    /// The blocks do not form a tipset.
    Invalid(CreateTipsetError),
    /// A required tipset is missing.
    Missing,
}

/// `fetch` can be asked for any identifier, and the headers that it finds have a
/// place among others, if several of them are to be put in order.
pub open spec fn is_source<E, F: Fn(Cid) -> Result<Option<RawBlockHeader>, E>>(
    fetch: F,
    count: nat,
) -> bool {
    &&& forall|cid: Cid| #[trigger] call_requires(fetch, (cid,))
    &&& count > 1 ==> forall|cid: Cid, found: Result<Option<RawBlockHeader>, E>| #[trigger]
        call_ensures(fetch, (cid,), found) ==> (found matches Ok(Some(header)) ==> sortable(
            header@,
        ))
}

/// The headers that `fetch` found for identifiers, one after the other, until
/// one could not be had.
pub open spec fn are_answers<E, F: Fn(Cid) -> Result<Option<RawBlockHeader>, E>>(
    fetch: F,
    cids: Seq<Cid>,
    answers: Seq<Result<Option<RawBlockHeader>, E>>,
) -> bool {
    &&& 0 < answers.len() <= cids.len()
    &&& forall|i: int|
        0 <= i < answers.len() ==> call_ensures(fetch, (cids[i],), #[trigger] answers[i])
    &&& forall|i: int| 0 <= i < answers.len() - 1 ==> is_present(#[trigger] answers[i])
    &&& is_present(answers.last()) ==> answers.len() == cids.len()
}

/// A header was found.
pub open spec fn is_present<E>(answer: Result<Option<RawBlockHeader>, E>) -> bool {
    answer matches Ok(Some(_))
}

/// The blocks that were found, each with its identifier.
pub open spec fn found_blocks<E>(
    cids: Seq<CidView>,
    answers: Seq<Result<Option<RawBlockHeader>, E>>,
) -> Seq<BlockView> {
    Seq::new(
        answers.len(),
        |i: int|
            BlockView {
                header: answers[i]->Ok_0->Some_0@,
                cid: Some(cids[i]),
                verified: false,
            },
    )
}

/// What comes of loading a tipset: the first error, or nothing if a block is
/// missing, or the tipset of the blocks if they form one.
pub open spec fn is_load_outcome<E>(
    cids: Seq<CidView>,
    answers: Seq<Result<Option<RawBlockHeader>, E>>,
    r: Result<Option<Tipset>, LoadError<E>>,
) -> bool {
    match answers.last() {
        Err(e) => r matches Err(LoadError::Fetch(reason)) && reason == e,
        Ok(None) => r matches Ok(None),
        Ok(Some(_)) => {
            let blocks = found_blocks(cids, answers);
            match fault(blocks) {
                Some(e) => r matches Err(LoadError::Invalid(reason)) && reason == e,
                None => r matches Ok(Some(tipset)) && tipset@ == canonical(blocks),
            }
        },
    }
}

/// A block of a loaded tipset is what was found under its identifier, which is
/// one of those that were asked for.
pub open spec fn is_found<E, F: Fn(Cid) -> Result<Option<RawBlockHeader>, E>>(
    fetch: F,
    cids: Seq<Cid>,
    block: BlockView,
    k: int,
) -> bool {
    &&& 0 <= k < cids.len()
    &&& block.cid == Some(cids[k]@)
    &&& exists|header: RawBlockHeader|
        #![trigger header@]
        call_ensures(fetch, (cids[k],), Ok::<Option<RawBlockHeader>, E>(Some(header)))
            && block.header == header@
}

/// One of the blocks is what was found under identifier `k`.
pub open spec fn has_block_for<E, F: Fn(Cid) -> Result<Option<RawBlockHeader>, E>>(
    fetch: F,
    cids: Seq<Cid>,
    blocks: Seq<BlockView>,
    k: int,
) -> bool {
    exists|i: int| 0 <= i < blocks.len() && is_found(fetch, cids, #[trigger] blocks[i], k)
}

/// What a tipset that is loaded has to do with the identifiers that were asked
/// for: it has a block for each of them and no other block. Without a tipset,
/// one of them could not be had, or the blocks do not form a tipset.
pub open spec fn is_loading<E, F: Fn(Cid) -> Result<Option<RawBlockHeader>, E>>(
    fetch: F,
    cids: Seq<Cid>,
    r: Result<Option<Tipset>, LoadError<E>>,
) -> bool {
    match r {
        Ok(Some(tipset)) => {
            &&& is_tipset(tipset@)
            &&& tipset@.len() == cids.len()
            &&& tipset_key(tipset@).to_multiset() == cid_views(cids).to_multiset()
            &&& forall|k: int|
                0 <= k < cids.len() ==> #[trigger] has_block_for(fetch, cids, tipset@, k)
        },
        Ok(None) => exists|k: int|
            0 <= k < cids.len() && call_ensures(
                fetch,
                (#[trigger] cids[k],),
                Ok::<Option<RawBlockHeader>, E>(None),
            ),
        Err(LoadError::Fetch(e)) => exists|k: int|
            0 <= k < cids.len() && call_ensures(
                fetch,
                (#[trigger] cids[k],),
                Err::<Option<RawBlockHeader>, E>(e),
            ),
        Err(LoadError::Invalid(e)) => exists|blocks: Seq<BlockView>|
            {
                &&& blocks.len() == cids.len()
                &&& #[trigger] fault(blocks) == Some(e)
                &&& forall|k: int|
                    0 <= k < cids.len() ==> is_found(fetch, cids, #[trigger] blocks[k], k)
            },
        Err(LoadError::Missing) => false,
    }
}

/// Loading by answers that were given one after the other has to do with the
/// identifiers in just that way.
pub proof fn lemma_loading<E, F: Fn(Cid) -> Result<Option<RawBlockHeader>, E>>(
    fetch: F,
    cids: Seq<Cid>,
    answers: Seq<Result<Option<RawBlockHeader>, E>>,
    r: Result<Option<Tipset>, LoadError<E>>,
)
    requires
        are_answers(fetch, cids, answers),
        is_load_outcome(cid_views(cids), answers, r),
    ensures
        is_loading(fetch, cids, r),
{
    let last = answers.len() - 1;
    assert(call_ensures(fetch, (cids[last],), answers[last]));
    if is_present(answers.last()) {
        let views = cid_views(cids);
        let blocks = found_blocks(views, answers);
        assert forall|k: int| 0 <= k < cids.len() implies is_found(
            fetch,
            cids,
            #[trigger] blocks[k],
            k,
        ) by {
            assert(is_present(answers[k]));
            assert(call_ensures(fetch, (cids[k],), answers[k]));
            let header = answers[k]->Ok_0->Some_0;
            assert(answers[k] == Ok::<Option<RawBlockHeader>, E>(Some(header)));
            assert(blocks[k].header == header@);
        }
        if let Ok(Some(tipset)) = r {
            let order = lemma_sorting_exists(keys_of(blocks));
            lemma_canonical(blocks, order);
            lemma_sorted_in_order(blocks, order);
            lemma_fault_ignores_order(blocks, order);
            assert(tipset_key(tipset@) =~= reordered(views, order)) by {
                assert forall|i: int| 0 <= i < order.len() implies tipset_key(tipset@)[i]
                    == views[order[i]] by {
                    assert(0 <= order[i] < blocks.len());
                }
            }
            lemma_reordered_same_elements(views, order);
            assert forall|k: int| 0 <= k < cids.len() implies #[trigger] has_block_for(
                fetch,
                cids,
                tipset@,
                k,
            ) by {
                super::order::lemma_permutation_onto(order, blocks.len(), k);
                let i = choose|i: int| 0 <= i < blocks.len() && #[trigger] order[i] == k;
                assert(tipset@[i] == blocks[k]);
                assert(is_found(fetch, cids, tipset@[i], k));
            }
        }
    }
}

impl Tipset {
    /// Fetches a tipset. This call fails if the tipset is present but invalid.
    /// If the tipset is missing, [`None`] is returned.
    pub fn load<E, F: Fn(Cid) -> Result<Option<RawBlockHeader>, E>>(
        fetch: &F,
        tsk: &TipsetKey,
    ) -> (r: Result<Option<Tipset>, LoadError<E>>)
        requires
            is_source(*fetch, tsk.cids().len()),
        ensures
            exists|answers: Seq<Result<Option<RawBlockHeader>, E>>| #[trigger]
                are_answers(*fetch, tsk.cids(), answers) && is_load_outcome(tsk@, answers, r),
            is_loading(*fetch, tsk.cids(), r),
            r matches Ok(Some(tipset)) ==> tipset@.len() == tsk@.len() && tipset_key(
                tipset@,
            ).to_multiset() == tsk@.to_multiset(),
    {
        let cids = tsk.iter();
        let mut headers: Vec<CachingBlockHeader> = Vec::new();
        let ghost mut answers: Seq<Result<Option<RawBlockHeader>, E>> = Seq::empty();
        let mut i: usize = 0;
        while i < cids.len()
            invariant
                i <= cids.len(),
                cids.len() > 0,
                cids@ == tsk.cids(),
                is_source(*fetch, cids@.len()),
                answers.len() == i,
                headers.len() == i,
                forall|k: int|
                    0 <= k < i ==> call_ensures(*fetch, (cids@[k],), #[trigger] answers[k]),
                forall|k: int| 0 <= k < i ==> is_present(#[trigger] answers[k]),
                forall|k: int|
                    0 <= k < i ==> (#[trigger] headers@[k])@ == found_blocks(tsk@, answers)[k],
                cids.len() > 1 ==> forall|k: int|
                    0 <= k < i ==> sortable((#[trigger] headers@[k])@.header),
            decreases cids.len() - i,
        {
            let cid = cids[i];
            assert(call_requires(*fetch, (cid,)));
            let loaded = CachingBlockHeader::load(fetch, cid);
            let ghost before = answers;
            proof {
                let found = choose|found: Result<Option<RawBlockHeader>, E>| #[trigger]
                    call_ensures(*fetch, (cid,), found) && is_loaded(cid@, found, loaded);
                answers = answers.push(found);
                assert(call_ensures(*fetch, (cids@[i as int],), answers[i as int]));
            }
            match loaded {
                Ok(Some(header)) => {
                    headers.push(header);
                    assert forall|k: int| 0 <= k < i + 1 implies (#[trigger] headers@[k])@
                        == found_blocks(tsk@, answers)[k] by {
                        if k < i {
                            assert(found_blocks(tsk@, before)[k] == found_blocks(tsk@, answers)[k]);
                        }
                    }
                },
                Ok(None) => {
                    assert(are_answers(*fetch, tsk.cids(), answers));
                    let r = Ok(None);
                    proof {
                        lemma_loading(*fetch, tsk.cids(), answers, r);
                    }
                    return r;
                },
                Err(e) => {
                    assert(are_answers(*fetch, tsk.cids(), answers));
                    let r = Err(LoadError::Fetch(e));
                    proof {
                        lemma_loading(*fetch, tsk.cids(), answers, r);
                    }
                    return r;
                },
            }
            i += 1;
        }
        assert(is_present(answers[answers.len() - 1]));
        assert(are_answers(*fetch, tsk.cids(), answers));
        assert(block_views(headers@) =~= found_blocks(tsk@, answers));
        let r = match Tipset::new(headers) {
            Ok(tipset) => Ok(Some(tipset)),
            Err(e) => Err(LoadError::Invalid(e)),
        };
        proof {
            lemma_loading(*fetch, tsk.cids(), answers, r);
        }
        r
    }

    /// Fetches a tipset. This call fails if the tipset is missing or invalid.
    pub fn load_required<E, F: Fn(Cid) -> Result<Option<RawBlockHeader>, E>>(
        fetch: &F,
        tsk: &TipsetKey,
    ) -> (r: Result<Tipset, LoadError<E>>)
        requires
            is_source(*fetch, tsk.cids().len()),
        ensures
            exists|answers: Seq<Result<Option<RawBlockHeader>, E>>| #[trigger]
                are_answers(*fetch, tsk.cids(), answers) && is_required_outcome(tsk@, answers, r),
            match r {
                Ok(tipset) => is_loading(
                    *fetch,
                    tsk.cids(),
                    Ok::<Option<Tipset>, LoadError<E>>(Some(tipset)),
                ),
                Err(LoadError::Missing) => is_loading(
                    *fetch,
                    tsk.cids(),
                    Ok::<Option<Tipset>, LoadError<E>>(None),
                ),
                Err(e) => is_loading(*fetch, tsk.cids(), Err::<Option<Tipset>, LoadError<E>>(e)),
            },
            r matches Ok(tipset) ==> tipset@.len() == tsk@.len() && tipset_key(
                tipset@,
            ).to_multiset() == tsk@.to_multiset(),
    {
        let loaded = Tipset::load(fetch, tsk);
        let ghost outcome = loaded;
        let ghost answers = choose|answers: Seq<Result<Option<RawBlockHeader>, E>>| #[trigger]
            are_answers(*fetch, tsk.cids(), answers) && is_load_outcome(tsk@, answers, loaded);
        let r = match loaded {
            Ok(Some(tipset)) => Ok(tipset),
            Ok(None) => Err(LoadError::Missing),
            Err(e) => Err(e),
        };
        assert(are_answers(*fetch, tsk.cids(), answers));
        assert(is_load_outcome(tsk@, answers, outcome));
        r
    }
}

/// What comes of loading a tipset that has to be there.
pub open spec fn is_required_outcome<E>(
    cids: Seq<CidView>,
    answers: Seq<Result<Option<RawBlockHeader>, E>>,
    r: Result<Tipset, LoadError<E>>,
) -> bool {
    is_load_outcome(
        cids,
        answers,
        match r {
            Ok(tipset) => Ok(Some(tipset)),
            Err(LoadError::Missing) => Ok(None),
            Err(e) => Err(e),
        },
    )
}

proof fn lemma_canonical_keeps_order(blocks: Seq<BlockView>)
    requires
        in_order(blocks),
    ensures
        canonical(blocks) == blocks,
{
    let keys = keys_of(blocks);
    let identity = Seq::new(blocks.len(), |i: int| i);
    assert forall|i: int, j: int| 0 <= i < j < identity.len() implies ({
        let a = #[trigger] identity[i];
        let b = #[trigger] identity[j];
        key_lt(keys[a], keys[b]) || (keys[a] == keys[b] && a < b)
    }) by {
        assert(!key_lt(sort_key(blocks[j].header), sort_key(blocks[i].header)));
        lemma_key_lt_total(keys[i], keys[j]);
    }
    assert(is_sorting(keys, identity));
    lemma_canonical(blocks, identity);
    assert(reordered(blocks, identity) =~= blocks);
}

/// A stored tipset can be loaded by its key: if the headers of its blocks are
/// found under their identifiers, then loading its key gives a tipset with the
/// same blocks in the same order.
pub proof fn lemma_load_gives_back<E>(
    tipset: Seq<BlockView>,
    answers: Seq<Result<Option<RawBlockHeader>, E>>,
    r: Result<Option<Tipset>, LoadError<E>>,
)
    requires
        is_tipset(tipset),
        answers.len() == tipset.len(),
        forall|i: int|
            0 <= i < answers.len() ==> is_present(#[trigger] answers[i])
                && answers[i]->Ok_0->Some_0@ == tipset[i].header,
        is_load_outcome(tipset_key(tipset), answers, r),
    ensures
        r matches Ok(Some(loaded)) && same_blocks(loaded@, tipset) && tipset_key(loaded@)
            == tipset_key(tipset),
{
    let blocks = found_blocks(tipset_key(tipset), answers);
    assert(is_present(answers[answers.len() - 1]));
    assert forall|i: int| 0 <= i < blocks.len() implies (#[trigger] blocks[i]).header
        == tipset[i].header by {
        assert(is_present(answers[i]));
    }
    assert(in_order(blocks));
    assert(same_parents(blocks) && same_state_root(blocks) && same_epoch(blocks));
    assert(same_weight(blocks) && same_receipts(blocks));
    assert(distinct_miners(blocks));
    lemma_canonical_keeps_order(blocks);
    assert(tipset_key(blocks) =~= tipset_key(tipset));
}

/// A tipset that is loaded by a key has the identifiers of the key, in the
/// canonical order of its blocks.
pub proof fn lemma_loaded_has_key<E>(
    cids: Seq<CidView>,
    answers: Seq<Result<Option<RawBlockHeader>, E>>,
    tipset: Tipset,
) -> (order: Seq<int>)
    requires
        answers.len() == cids.len(),
        is_load_outcome(cids, answers, Ok::<Option<Tipset>, LoadError<E>>(Some(tipset))),
    ensures
        is_permutation(order, cids.len()),
        tipset_key(tipset@) == reordered(cids, order),
{
    let blocks = found_blocks(cids, answers);
    let order = lemma_sorting_exists(keys_of(blocks));
    lemma_canonical(blocks, order);
    assert(tipset_key(tipset@) =~= reordered(cids, order)) by {
        assert forall|i: int| 0 <= i < order.len() implies tipset_key(tipset@)[i]
            == cids[order[i]] by {
            assert(0 <= order[i] < blocks.len());
        }
    }
    order
}

/// The tipset that is loaded as the parents of a tipset, if they can be had.
pub open spec fn is_parent<E, F: Fn(Cid) -> Result<Option<RawBlockHeader>, E>>(
    fetch: F,
    child: Tipset,
    parent: Option<Tipset>,
) -> bool {
    exists|answers: Seq<Result<Option<RawBlockHeader>, E>>|
        {
            &&& #[trigger] are_answers(fetch, child.parent_cids(), answers)
            &&& is_parent_outcome(cid_views(child.parent_cids()), answers, parent)
        }
}

/// What comes of loading the parents of a tipset: nothing in case of an error.
pub open spec fn is_parent_outcome<E>(
    cids: Seq<CidView>,
    answers: Seq<Result<Option<RawBlockHeader>, E>>,
    parent: Option<Tipset>,
) -> bool {
    match parent {
        Some(tipset) => is_load_outcome(
            cids,
            answers,
            Ok::<Option<Tipset>, LoadError<E>>(Some(tipset)),
        ),
        None => !is_present(answers.last()) || fault(found_blocks(cids, answers)) is Some,
    }
}

/// The blocks are those that the other blocks name as their parents: all of them
/// and no others.
pub open spec fn has_parents_of(blocks: Seq<BlockView>, children: Seq<BlockView>) -> bool {
    forall|i: int|
        0 <= i < children.len() ==> {
            let parents = (#[trigger] children[i]).header.parents;
            &&& blocks.len() == parents.len()
            &&& tipset_key(blocks).to_multiset() == parents.to_multiset()
        }
}

proof fn lemma_first_parents(child: Tipset)
    requires
        child@.len() > 0,
    ensures
        child@[0].header.parents == cid_views(child.parent_cids()),
{
    child.headers@[0].lemma_parent_cids();
}

/// A step from a child to its parent tipset misses no parent: the identifiers of
/// the parent tipset are those that every block of the child names as its
/// parents, in some order.
pub proof fn lemma_parent_has_all_cids<E, F: Fn(Cid) -> Result<Option<RawBlockHeader>, E>>(
    fetch: F,
    child: Tipset,
    parent: Tipset,
)
    requires
        is_tipset(child@),
        is_parent(fetch, child, Some(parent)),
    ensures
        is_tipset(parent@),
        forall|i: int|
            0 <= i < child@.len() ==> {
                let parents = (#[trigger] child@[i]).header.parents;
                &&& parent@.len() == parents.len()
                &&& tipset_key(parent@).to_multiset() == parents.to_multiset()
            },
{
    let answers = choose|answers: Seq<Result<Option<RawBlockHeader>, E>>|
        {
            &&& #[trigger] are_answers(fetch, child.parent_cids(), answers)
            &&& is_parent_outcome(cid_views(child.parent_cids()), answers, Some(parent))
        };
    let r = Ok::<Option<Tipset>, LoadError<E>>(Some(parent));
    lemma_loading(fetch, child.parent_cids(), answers, r);
    lemma_first_parents(child);
    assert forall|i: int| 0 <= i < child@.len() implies (#[trigger] child@[i]).header.parents
        == child@[0].header.parents by {
        assert(same_parents(child@));
    }
}

/// If one of the parents is not to be found, then there is no parent tipset.
pub proof fn lemma_missing_parent_ends_chain<E, F: Fn(Cid) -> Result<Option<RawBlockHeader>, E>>(
    fetch: F,
    child: Tipset,
    parent: Option<Tipset>,
    k: int,
)
    requires
        is_tipset(child@),
        is_parent(fetch, child, parent),
        0 <= k < child@[0].header.parents.len(),
        forall|cid: Cid, found: Result<Option<RawBlockHeader>, E>|
            cid@ == child@[0].header.parents[k] && #[trigger] call_ensures(fetch, (cid,), found)
                ==> !(found matches Ok(Some(_))),
    ensures
        parent is None,
{
    lemma_first_parents(child);
    if let Some(tipset) = parent {
        let cids = child.parent_cids();
        let answers = choose|answers: Seq<Result<Option<RawBlockHeader>, E>>|
            {
                &&& #[trigger] are_answers(fetch, cids, answers)
                &&& is_parent_outcome(cid_views(cids), answers, parent)
            };
        lemma_loading(fetch, cids, answers, Ok::<Option<Tipset>, LoadError<E>>(Some(tipset)));
        assert(cids[k]@ == child@[0].header.parents[k]);
        assert(is_present(answers.last()));
        assert(is_present(answers[k]));
        assert(call_ensures(fetch, (cids[k],), answers[k]));
    }
}

/// If all parents are to be found, and belong together, then they are the parent
/// tipset.
pub proof fn lemma_stored_parents_are_loaded<E, F: Fn(Cid) -> Result<Option<RawBlockHeader>, E>>(
    fetch: F,
    child: Tipset,
    parent: Option<Tipset>,
    blocks: Seq<BlockView>,
)
    requires
        is_tipset(child@),
        is_parent(fetch, child, parent),
        blocks.len() == child@[0].header.parents.len(),
        forall|k: int|
            0 <= k < blocks.len() ==> (#[trigger] blocks[k]).cid == Some(
                child@[0].header.parents[k],
            ) && !blocks[k].verified,
        forall|k: int, cid: Cid, found: Result<Option<RawBlockHeader>, E>|
            #![trigger blocks[k], call_ensures(fetch, (cid,), found)]
            0 <= k < blocks.len() && cid@ == child@[0].header.parents[k] && call_ensures(
                fetch,
                (cid,),
                found,
            ) ==> (found matches Ok(Some(header)) && header@ == blocks[k].header),
        belong_together(blocks),
    ensures
        parent matches Some(tipset) && tipset@.to_multiset() == blocks.to_multiset() && is_tipset(
            tipset@,
        ),
{
    lemma_first_parents(child);
    let cids = child.parent_cids();
    let views = cid_views(cids);
    let answers = choose|answers: Seq<Result<Option<RawBlockHeader>, E>>|
        {
            &&& #[trigger] are_answers(fetch, cids, answers)
            &&& is_parent_outcome(views, answers, parent)
        };
    assert forall|k: int| 0 <= k < answers.len() implies is_present(#[trigger] answers[k])
        && answers[k]->Ok_0->Some_0@ == blocks[k].header by {
        assert(call_ensures(fetch, (cids[k],), answers[k]));
        assert(cids[k]@ == views[k]);
        assert(blocks[k].cid == Some(views[k]));
    }
    assert(is_present(answers.last())) by {
        assert(is_present(answers[answers.len() - 1]));
    }
    let found = found_blocks(views, answers);
    assert(found =~= blocks) by {
        assert forall|k: int| 0 <= k < blocks.len() implies found[k] == blocks[k] by {
            assert(is_present(answers[k]));
            assert(blocks[k].cid == Some(views[k]));
            assert(found[k] =~= blocks[k]);
        }
    }
    lemma_fault_has_a_reason(blocks);
    lemma_canonical_same_elements(blocks);
    if let Some(tipset) = parent {
        lemma_loading(fetch, cids, answers, Ok::<Option<Tipset>, LoadError<E>>(Some(tipset)));
    }
}

fn load_parent<E, F: Fn(Cid) -> Result<Option<RawBlockHeader>, E>>(
    fetch: &F,
    child: &Tipset,
) -> (r: Option<Tipset>)
    requires
        is_source(*fetch, child.parent_cids().len()),
    ensures
        is_parent(*fetch, *child, r),
        r matches Some(parent) ==> has_parents_of(parent@, child@),
        r matches Some(parent) ==> is_loading(
            *fetch,
            child.parent_cids(),
            Ok::<Option<Tipset>, LoadError<E>>(Some(parent)),
        ),
{
    proof {
        use_type_invariant(child);
    }
    let parents = child.parents();
    let loaded = Tipset::load_required(fetch, parents);
    let ghost answers = choose|answers: Seq<Result<Option<RawBlockHeader>, E>>| #[trigger]
        are_answers(*fetch, parents.cids(), answers) && is_required_outcome(
            parents@,
            answers,
            loaded,
        );
    let r = match loaded {
        Ok(tipset) => Some(tipset),
        Err(_) => None,
    };
    assert(are_answers(*fetch, child.parent_cids(), answers));
    assert(is_parent_outcome(cid_views(child.parent_cids()), answers, r));
    proof {
        if r is Some {
            let parent = r->0;
            lemma_parent_has_all_cids(*fetch, *child, parent);
            lemma_loading(
                *fetch,
                child.parent_cids(),
                answers,
                Ok::<Option<Tipset>, LoadError<E>>(Some(parent)),
            );
        }
    }
    r
}

/// The number of parents of a tipset, if there is one.
pub open spec fn parent_count(child: Option<Tipset>) -> nat {
    match child {
        Some(tipset) => tipset.parent_cids().len(),
        None => 0,
    }
}

/// A tipset and its ancestors, as far as they can be loaded. Owns the source.
pub struct ChainOwned<F> {
    tipset: Option<Tipset>,
    fetch: F,
}

/// A tipset and its ancestors, as far as they can be loaded.
pub struct Chain<'a, F> {
    tipset: Option<Tipset>,
    fetch: &'a F,
}

/// A tipset and its ancestors, as far as they can be loaded, behind pointers.
pub struct ChainArc<F> {
    tipset: Option<Arc<Tipset>>,
    fetch: F,
}

impl Tipset {
    /// Returns all tipsets from this one on, taking an owned source.
    pub fn chain_owned<F>(self, fetch: F) -> (r: ChainOwned<F>)
        ensures
            r.upcoming() == Some(self),
            r.source() == fetch,
    {
        ChainOwned { tipset: Some(self), fetch }
    }

    /// Returns all tipsets from this one on.
    pub fn chain<'a, F>(self, fetch: &'a F) -> (r: Chain<'a, F>)
        ensures
            r.upcoming() == Some(self),
            r.source() == *fetch,
    {
        Chain { tipset: Some(self), fetch }
    }

    /// Returns all tipsets from this one on.
    pub fn chain_arc<F>(this: Arc<Tipset>, fetch: F) -> (r: ChainArc<F>)
        ensures
            r.upcoming() == Some(*this),
            r.source() == fetch,
    {
        ChainArc { tipset: Some(this), fetch }
    }
}

impl<F> ChainOwned<F> {
    /// The tipset that comes next.
    pub closed spec fn upcoming(&self) -> Option<Tipset> {
        self.tipset
    }

    /// Where tipsets are loaded from.
    pub closed spec fn source(&self) -> F {
        self.fetch
    }

    /// The next tipset. Its parents come after it.
    pub fn next<E>(&mut self) -> (r: Option<Tipset>) where
        F: Fn(Cid) -> Result<Option<RawBlockHeader>, E>,

        requires
            is_source(old(self).source(), parent_count(old(self).upcoming())),
        ensures
            r == old(self).upcoming(),
            final(self).source() == old(self).source(),
            match r {
                Some(child) => is_parent(old(self).source(), child, final(self).upcoming()),
                None => final(self).upcoming() is None,
            },
            final(self).upcoming() matches Some(parent) ==> r is Some && has_parents_of(
                parent@,
                r->0@,
            ),
    {
        match self.tipset.take() {
            Some(child) => {
                self.tipset = load_parent(&self.fetch, &child);
                Some(child)
            },
            None => None,
        }
    }
}

impl<'a, F> Chain<'a, F> {
    /// The tipset that comes next.
    pub closed spec fn upcoming(&self) -> Option<Tipset> {
        self.tipset
    }

    /// Where tipsets are loaded from.
    pub closed spec fn source(&self) -> F {
        *self.fetch
    }

    /// The next tipset. Its parents come after it.
    pub fn next<E>(&mut self) -> (r: Option<Tipset>) where
        F: Fn(Cid) -> Result<Option<RawBlockHeader>, E>,

        requires
            is_source(old(self).source(), parent_count(old(self).upcoming())),
        ensures
            r == old(self).upcoming(),
            final(self).source() == old(self).source(),
            match r {
                Some(child) => is_parent(old(self).source(), child, final(self).upcoming()),
                None => final(self).upcoming() is None,
            },
            final(self).upcoming() matches Some(parent) ==> r is Some && has_parents_of(
                parent@,
                r->0@,
            ),
    {
        match self.tipset.take() {
            Some(child) => {
                self.tipset = load_parent(self.fetch, &child);
                Some(child)
            },
            None => None,
        }
    }
}

impl<F> ChainArc<F> {
    /// The tipset that comes next.
    pub closed spec fn upcoming(&self) -> Option<Tipset> {
        match self.tipset {
            Some(tipset) => Some(*tipset),
            None => None,
        }
    }

    /// Where tipsets are loaded from.
    pub closed spec fn source(&self) -> F {
        self.fetch
    }

    /// The next tipset. Its parents come after it.
    pub fn next<E>(&mut self) -> (r: Option<Arc<Tipset>>) where
        F: Fn(Cid) -> Result<Option<RawBlockHeader>, E>,

        requires
            is_source(old(self).source(), parent_count(old(self).upcoming())),
        ensures
            final(self).source() == old(self).source(),
            match r {
                Some(child) => {
                    &&& old(self).upcoming() == Some(*child)
                    &&& is_parent(old(self).source(), *child, final(self).upcoming())
                },
                None => old(self).upcoming() is None && final(self).upcoming() is None,
            },
            final(self).upcoming() matches Some(parent) ==> r is Some && has_parents_of(
                parent@,
                r->0@,
            ),
    {
        match self.tipset.take() {
            Some(child) => {
                self.tipset = match load_parent(&self.fetch, &*child) {
                    Some(parent) => Some(Arc::new(parent)),
                    None => None,
                };
                Some(child)
            },
            None => None,
        }
    }
}

} // verus!
