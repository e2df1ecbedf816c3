//! A space-optimised hash map of content identifiers.
//!
//! Most identifiers are of version 1, for DAG-CBOR content, and hashed with
//! BLAKE2b. Of these only the digest is kept.

use crate::utils::cid::{
    is_parts_of, lemma_parts_one_to_one, Cid, CidParts, CidView, BLAKE2B_256, DAG_CBOR,
};
use ahash::RandomState;
use std::collections::HashMap;
use std::hash::Hash;
use vstd::prelude::*;

verus! {

/// `ahash::RandomState`, the hasher of the maps, of which nothing is known.
#[verifier::external_type_specification]
#[verifier::external_body]
pub struct ExRandomState(ahash::RandomState);

/// Whether only the digest of an identifier needs to be kept.
pub open spec fn compactable(cid: CidView) -> bool {
    &&& cid.version == 1
    &&& cid.codec == DAG_CBOR
    &&& cid.code == BLAKE2B_256
    &&& cid.digest.len() == 32
}

/// An identifier without what goes without saying.
#[derive(Debug, Clone, Copy)]
pub enum MaybeCompactedCid {
    Compact([u8; 32]),
    Uncompactable(CidParts),
}

/// The compacted form belongs to the identifier.
pub open spec fn is_compaction_of(compacted: MaybeCompactedCid, cid: CidView) -> bool {
    match compacted {
        MaybeCompactedCid::Compact(digest) => compactable(cid) && digest@ == cid.digest,
        MaybeCompactedCid::Uncompactable(parts) => !compactable(cid) && is_parts_of(parts, cid),
    }
}

/// Compacted forms and identifiers belong together one to one.
pub proof fn lemma_compaction_one_to_one(
    a: MaybeCompactedCid,
    b: MaybeCompactedCid,
    x: CidView,
    y: CidView,
)
    requires
        is_compaction_of(a, x),
        is_compaction_of(b, y),
    ensures
        a == b <==> x == y,
{
    match (a, b) {
        (MaybeCompactedCid::Compact(c), MaybeCompactedCid::Compact(d)) => {
            if x == y {
                assert(c@ =~= d@);
                assert(c =~= d);
            }
            if c == d {
                assert(x =~= y);
            }
        },
        (MaybeCompactedCid::Uncompactable(p), MaybeCompactedCid::Uncompactable(q)) => {
            lemma_parts_one_to_one(p, q, x, y);
        },
        _ => {},
    }
}

impl MaybeCompactedCid {
    /// The compacted form of an identifier.
    pub fn from_cid(cid: &Cid) -> (r: Self)
        ensures
            is_compaction_of(r, cid@),
            cid@.valid(),
    {
        let digest = cid.digest();
        if cid.version() == 1 && cid.codec() == DAG_CBOR && cid.hash_code() == BLAKE2B_256
            && digest.len() == 32 {
            let mut compact: [u8; 32] = [0u8; 32];
            let mut i: usize = 0;
            while i < 32
                invariant
                    i <= 32,
                    digest.len() == 32,
                    forall|k: int| 0 <= k < i ==> compact@[k] == digest@[k],
                decreases 32 - i,
            {
                compact[i] = digest[i];
                i += 1;
            }
            assert(compact@ =~= digest@);
            MaybeCompactedCid::Compact(compact)
        } else {
            MaybeCompactedCid::Uncompactable(cid.to_parts())
        }
    }

    /// The identifier that a compacted form belongs to.
    pub fn into_cid(self) -> (r: Cid)
        requires
            exists|cid: CidView| cid.valid() && #[trigger] is_compaction_of(self, cid),
        ensures
            is_compaction_of(self, r@),
    {
        match self {
            MaybeCompactedCid::Compact(digest) => {
                Cid::new_v1(DAG_CBOR, BLAKE2B_256, digest.as_slice()).unwrap()
            },
            MaybeCompactedCid::Uncompactable(parts) => {
                proof {
                    let cid = choose|cid: CidView|
                        cid.valid() && #[trigger] is_compaction_of(self, cid);
                    assert(is_parts_of(parts, cid));
                }
                let r = Cid::from_parts(parts);
                proof {
                    let cid = choose|cid: CidView|
                        cid.valid() && #[trigger] is_compaction_of(self, cid);
                    lemma_parts_one_to_one(parts, parts, r@, cid);
                }
                r
            },
        }
    }
}

/// A key that is made of plain integers, so that equality and hashing go by its
/// value.
trait PlainKey {

}

impl PlainKey for [u8; 32] {

}

impl PlainKey for CidParts {

}

/// An empty map.
///
/// Calls `Default::default` for an `ahash::HashMap`. The contract claims that
/// it holds nothing.
#[verifier::external_body]
fn map_new<K: PlainKey + Copy + Eq + Hash, V>() -> (r: HashMap<K, V, RandomState>)
    ensures
        r@.dom() == Set::<K>::empty(),
{
    ahash::HashMap::default()
}

/// Whether a key is in the map.
///
/// Calls `HashMap::contains_key` on an `ahash::HashMap`. The contract claims
/// what the name says.
#[verifier::external_body]
fn map_contains_key<K: PlainKey + Copy + Eq + Hash, V>(map: &HashMap<K, V, RandomState>, key: &K) -> (r: bool)
    ensures
        r == map@.contains_key(*key),
{
    map.contains_key(key)
}

/// Puts a value into the map, and gives back the one that it replaces.
///
/// Calls `HashMap::insert` on an `ahash::HashMap`. The contract claims that the
/// key then has the value, that all other keys are as before, and that the
/// value it had before is returned.
#[verifier::external_body]
fn map_insert<K: PlainKey + Copy + Eq + Hash, V>(
    map: &mut HashMap<K, V, RandomState>,
    key: K,
    value: V,
) -> (r: Option<V>)
    ensures
        final(map)@ == old(map)@.insert(key, value),
        r == if old(map)@.contains_key(key) {
            Some(old(map)@[key])
        } else {
            None
        },
{
    map.insert(key, value)
}

/// How many values the map can hold without reallocating.
///
/// Calls `HashMap::capacity` on an `ahash::HashMap`. The number depends on the
/// allocations so far. The contract claims only that there is room for what the
/// map holds.
#[verifier::external_body]
fn map_capacity<K: PlainKey + Copy + Eq + Hash, V>(map: &HashMap<K, V, RandomState>) -> (r: usize)
    ensures
        r >= map@.len(),
{
    map.capacity()
}

/// A copy of the map.
///
/// Calls `Clone::clone` on an `ahash::HashMap`. The contract claims that the copy
/// has the same keys, each with a clone of its value.
#[verifier::external_body]
fn map_clone<K: PlainKey + Copy + Eq + Hash, V: Clone>(map: &HashMap<K, V, RandomState>) -> (r:
    HashMap<K, V, RandomState>)
    ensures
        r@.dom() == map@.dom(),
        forall|key: K| map@.contains_key(key) ==> cloned::<V>(map@[key], #[trigger] r@[key]),
{
    map.clone()
}

/// All keys with their values, in no particular order.
///
/// Calls `HashMap::into_iter` on an `ahash::HashMap`. The contract claims that
/// each key of the map occurs once, with its value, and no other key does.
#[verifier::external_body]
fn map_into_items<K: PlainKey + Copy + Eq + Hash, V>(map: HashMap<K, V, RandomState>) -> (r: Vec<(K, V)>)
    ensures
        forall|i: int|
            0 <= i < r.len() ==> map@.contains_key((#[trigger] r@[i]).0) && map@[r@[i].0]
                == r@[i].1,
        forall|key: K| #[trigger]
            map@.contains_key(key) ==> exists|i: int| 0 <= i < r.len() && (#[trigger] r@[i]).0
                == key,
        forall|i: int, j: int|
            0 <= i < j < r.len() ==> (#[trigger] r@[i]).0 != (#[trigger] r@[j]).0,
{
    map.into_iter().collect()
}

/// All keys, in no particular order.
///
/// Calls `HashMap::keys` on an `ahash::HashMap`. The contract claims that each
/// key of the map occurs once, and no other key does.
#[verifier::external_body]
fn map_keys<K: PlainKey + Copy + Eq + Hash, V>(map: &HashMap<K, V, RandomState>) -> (r: Vec<K>)
    ensures
        forall|i: int| 0 <= i < r.len() ==> map@.contains_key(#[trigger] r@[i]),
        forall|key: K| #[trigger] map@.contains_key(key) ==> r@.contains(key),
        r@.no_duplicates(),
{
    map.keys().copied().collect()
}

/// The identifier that a digest stands for.
pub open spec fn compact_view(digest: [u8; 32]) -> CidView {
    CidView { version: 1, codec: DAG_CBOR, code: BLAKE2B_256, digest: digest@ }
}

/// The identifier that parts stand for.
pub open spec fn parts_view(parts: CidParts) -> CidView {
    CidView {
        version: parts.0,
        codec: parts.1,
        code: parts.2,
        digest: parts.4@.take(parts.3 as int),
    }
}

/// Parts that are kept as such: those of an identifier that cannot be
/// compacted.
pub open spec fn proper_parts(parts: CidParts) -> bool {
    &&& is_parts_of(parts, parts_view(parts))
    &&& parts_view(parts).valid()
    &&& !compactable(parts_view(parts))
}

proof fn lemma_compaction_view(compacted: MaybeCompactedCid, cid: CidView)
    requires
        is_compaction_of(compacted, cid),
    ensures
        match compacted {
            MaybeCompactedCid::Compact(digest) => cid == compact_view(digest),
            MaybeCompactedCid::Uncompactable(parts) => cid == parts_view(parts) && (cid.valid()
                ==> proper_parts(parts)),
        },
{
    match compacted {
        MaybeCompactedCid::Compact(digest) => {
            assert(cid =~= compact_view(digest));
        },
        MaybeCompactedCid::Uncompactable(parts) => {
            assert(cid =~= parts_view(parts));
        },
    }
}

/// A space-optimised hash map of identifiers.
///
/// There is one map for each method of compaction: what is saved is saved for
/// the whole map, not for each item.
#[derive(Debug, PartialEq, Eq)]
pub struct CidHashMap<V> {
    compact: HashMap<[u8; 32], V, RandomState>,
    uncompact: HashMap<CidParts, V, RandomState>,
}

impl<V> CidHashMap<V> {
    spec fn has(self, compacted: MaybeCompactedCid) -> bool {
        match compacted {
            MaybeCompactedCid::Compact(digest) => self.compact@.contains_key(digest),
            MaybeCompactedCid::Uncompactable(parts) => self.uncompact@.contains_key(parts),
        }
    }

    spec fn value_of(self, compacted: MaybeCompactedCid) -> V {
        match compacted {
            MaybeCompactedCid::Compact(digest) => self.compact@[digest],
            MaybeCompactedCid::Uncompactable(parts) => self.uncompact@[parts],
        }
    }

    spec fn holds(self, compacted: MaybeCompactedCid, cid: CidView) -> bool {
        is_compaction_of(compacted, cid) && self.has(compacted)
    }

    #[verifier::type_invariant]
    spec fn inv(self) -> bool {
        &&& self.compact@.dom().finite()
        &&& self.uncompact@.dom().finite()
        &&& forall|parts: CidParts| #[trigger]
            self.uncompact@.contains_key(parts) ==> proper_parts(parts)
    }

    proof fn lemma_view(self, compacted: MaybeCompactedCid, cid: CidView)
        requires
            is_compaction_of(compacted, cid),
        ensures
            self@.contains_key(cid) == self.has(compacted),
            self.has(compacted) ==> self@[cid] == self.value_of(compacted),
    {
        if self.has(compacted) {
            assert(self.holds(compacted, cid));
        }
        if exists|other: MaybeCompactedCid| self.holds(other, cid) {
            let other = choose|other: MaybeCompactedCid| self.holds(other, cid);
            lemma_compaction_one_to_one(compacted, other, cid, cid);
        }
    }
}

impl<V> View for CidHashMap<V> {
    type V = Map<CidView, V>;

    closed spec fn view(&self) -> Map<CidView, V> {
        Map::new(
            |cid: CidView| exists|compacted: MaybeCompactedCid| self.holds(compacted, cid),
            |cid: CidView|
                self.value_of(choose|compacted: MaybeCompactedCid| self.holds(compacted, cid)),
        )
    }
}

impl<V> Default for CidHashMap<V> {
    fn default() -> (r: Self)
        ensures
            r@ == Map::<CidView, V>::empty(),
    {
        Self::new()
    }
}

impl<V> CidHashMap<V> {
    /// Creates an empty map.
    pub fn new() -> (r: Self)
        ensures
            r@ == Map::<CidView, V>::empty(),
    {
        let r = CidHashMap { compact: map_new(), uncompact: map_new() };
        assert(r@ =~= Map::<CidView, V>::empty()) by {
            assert forall|cid: CidView| !(#[trigger] r@.contains_key(cid)) by {
                assert forall|compacted: MaybeCompactedCid| !r.holds(compacted, cid) by {}
            }
        }
        r
    }

    /// Returns `true` if the map contains a value for the specified key.
    pub fn contains_key(&self, key: &Cid) -> (r: bool)
        ensures
            r == self@.contains_key(key@),
    {
        let compacted = MaybeCompactedCid::from_cid(key);
        proof {
            self.lemma_view(compacted, key@);
        }
        match compacted {
            MaybeCompactedCid::Compact(c) => map_contains_key(&self.compact, &c),
            MaybeCompactedCid::Uncompactable(u) => map_contains_key(&self.uncompact, &u),
        }
    }
}

impl<V: Clone> Clone for CidHashMap<V> {
    fn clone(&self) -> (r: Self)
        ensures
            r@.dom() == self@.dom(),
            forall|cid: CidView| #[trigger]
                r@.contains_key(cid) ==> cloned::<V>(self@[cid], r@[cid]),
    {
        proof {
            use_type_invariant(self);
        }
        let compact = map_clone(&self.compact);
        let uncompact = map_clone(&self.uncompact);
        assert forall|parts: CidParts| #[trigger] uncompact@.contains_key(
            parts,
        ) implies proper_parts(parts) by {
            assert(uncompact@.dom().contains(parts));
            assert(self.uncompact@.contains_key(parts));
        }
        let r = CidHashMap { compact, uncompact };
        proof {
            assert forall|cid: CidView| #[trigger] r@.contains_key(cid) == self@.contains_key(cid)
                && (r@.contains_key(cid) ==> cloned::<V>(self@[cid], r@[cid])) by {
                if exists|c: MaybeCompactedCid| is_compaction_of(c, cid) {
                    let c = choose|c: MaybeCompactedCid| is_compaction_of(c, cid);
                    r.lemma_view(c, cid);
                    self.lemma_view(c, cid);
                    match c {
                        MaybeCompactedCid::Compact(digest) => {
                            assert(compact@.dom().contains(digest) == self.compact@.dom().contains(
                                digest,
                            ));
                        },
                        MaybeCompactedCid::Uncompactable(parts) => {
                            assert(uncompact@.dom().contains(parts)
                                == self.uncompact@.dom().contains(parts));
                        },
                    }
                } else {
                    assert forall|c: MaybeCompactedCid| !r.holds(c, cid) && !self.holds(c, cid) by {}
                }
            }
            assert(r@.dom() =~= self@.dom());
        }
        r
    }
}

/// How many keys of a map can be compacted, or cannot.
pub open spec fn count<V>(map: Map<CidView, V>, compact: bool) -> nat {
    map.dom().filter(|cid: CidView| compactable(cid) == compact).len()
}

/// The map after the given entries were inserted, one after the other.
pub open spec fn inserted<V>(map: Map<CidView, V>, entries: Seq<(Cid, V)>) -> Map<CidView, V>
    decreases entries.len(),
{
    if entries.len() == 0 {
        map
    } else {
        inserted(map, entries.drop_last()).insert(entries.last().0@, entries.last().1)
    }
}

impl<V> CidHashMap<V> {
    proof fn lemma_insert(
        old: Self,
        new: Self,
        compacted: MaybeCompactedCid,
        cid: CidView,
        value: V,
    )
        requires
            is_compaction_of(compacted, cid),
            forall|m: MaybeCompactedCid|
                #![trigger new.has(m)]
                #![trigger old.has(m)]
                new.has(m) == (old.has(m) || m == compacted),
            new.value_of(compacted) == value,
            forall|m: MaybeCompactedCid|
                m != compacted && old.has(m) ==> #[trigger] new.value_of(m) == old.value_of(m),
        ensures
            new@ == old@.insert(cid, value),
    {
        let want = old@.insert(cid, value);
        assert forall|x: CidView| #[trigger] new@.contains_key(x) == want.contains_key(x) && (
        new@.contains_key(x) ==> new@[x] == want[x]) by {
            if exists|m: MaybeCompactedCid| is_compaction_of(m, x) {
                let m = choose|m: MaybeCompactedCid| is_compaction_of(m, x);
                lemma_compaction_one_to_one(m, compacted, x, cid);
                new.lemma_view(m, x);
                old.lemma_view(m, x);
            } else {
                assert(x != cid);
                assert forall|m: MaybeCompactedCid| !new.holds(m, x) && !old.holds(m, x) by {}
            }
        }
        assert(new@ =~= want);
    }

    /// Inserts a key-value pair into the map.
    ///
    /// If the map did not have this key present, [`None`] is returned.
    ///
    /// If the map did have this key present, the value is updated, and the old
    /// value is returned.
    pub fn insert(&mut self, key: Cid, value: V) -> (r: Option<V>)
        ensures
            final(self)@ == old(self)@.insert(key@, value),
            r == if old(self)@.contains_key(key@) {
                Some(old(self)@[key@])
            } else {
                None
            },
    {
        proof {
            use_type_invariant(&*self);
        }
        let compacted = MaybeCompactedCid::from_cid(&key);
        proof {
            old(self).lemma_view(compacted, key@);
            lemma_compaction_view(compacted, key@);
        }
        match compacted {
            MaybeCompactedCid::Compact(c) => {
                let mut compact: HashMap<[u8; 32], V, RandomState> = map_new();
                std::mem::swap(&mut compact, &mut self.compact);
                let r = map_insert(&mut compact, c, value);
                self.compact = compact;
                proof {
                    Self::lemma_insert(*old(self), *self, compacted, key@, value);
                }
                r
            },
            MaybeCompactedCid::Uncompactable(u) => {
                let mut uncompact: HashMap<CidParts, V, RandomState> = map_new();
                std::mem::swap(&mut uncompact, &mut self.uncompact);
                let r = map_insert(&mut uncompact, u, value);
                self.uncompact = uncompact;
                proof {
                    Self::lemma_insert(*old(self), *self, compacted, key@, value);
                }
                r
            },
        }
    }

    /// How many values this map is guaranteed to hold without reallocating.
    ///
    /// The number depends on the allocations so far. It is the smaller one of
    /// what the two maps have room for, and each has room for what it holds.
    pub fn capacity_min(&self) -> (r: usize)
        ensures
            r >= count(self@, true) || r >= count(self@, false),
    {
        proof {
            use_type_invariant(self);
            self.lemma_counts();
        }
        smaller(map_capacity(&self.compact), map_capacity(&self.uncompact))
    }

    proof fn lemma_counts(self)
        requires
            self.inv(),
        ensures
            count(self@, true) == self.compact@.len(),
            count(self@, false) == self.uncompact@.len(),
    {
        let compact = |digest: [u8; 32]| compact_view(digest);
        let uncompact = |parts: CidParts| parts_view(parts);
        let yes = self@.dom().filter(|cid: CidView| compactable(cid) == true);
        let no = self@.dom().filter(|cid: CidView| compactable(cid) == false);
        assert forall|cid: CidView| #[trigger] yes.contains(cid) <==> self.compact@.dom().map(
            compact,
        ).contains(cid) by {
            if yes.contains(cid) {
                let m = choose|m: MaybeCompactedCid| self.holds(m, cid);
                lemma_compaction_view(m, cid);
                assert(self.compact@.dom().contains(m->Compact_0) && compact(m->Compact_0) == cid);
            }
            if self.compact@.dom().map(compact).contains(cid) {
                let digest = choose|digest: [u8; 32]|
                    self.compact@.dom().contains(digest) && #[trigger] compact(digest) == cid;
                assert(self.holds(MaybeCompactedCid::Compact(digest), cid));
            }
        }
        assert forall|cid: CidView| #[trigger] no.contains(cid) <==> self.uncompact@.dom().map(
            uncompact,
        ).contains(cid) by {
            if no.contains(cid) {
                let m = choose|m: MaybeCompactedCid| self.holds(m, cid);
                lemma_compaction_view(m, cid);
                assert(self.uncompact@.dom().contains(m->Uncompactable_0) && uncompact(
                    m->Uncompactable_0,
                ) == cid);
            }
            if self.uncompact@.dom().map(uncompact).contains(cid) {
                let parts = choose|parts: CidParts|
                    self.uncompact@.dom().contains(parts) && #[trigger] uncompact(parts) == cid;
                assert(self.uncompact@.contains_key(parts));
                assert(self.holds(MaybeCompactedCid::Uncompactable(parts), cid));
            }
        }
        assert(yes =~= self.compact@.dom().map(compact));
        assert(no =~= self.uncompact@.dom().map(uncompact));
        assert forall|a: [u8; 32], b: [u8; 32]|
            self.compact@.dom().contains(a) && self.compact@.dom().contains(b) && #[trigger] compact(
                a,
            ) == #[trigger] compact(b) implies a == b by {
            lemma_compaction_one_to_one(
                MaybeCompactedCid::Compact(a),
                MaybeCompactedCid::Compact(b),
                compact_view(a),
                compact_view(b),
            );
        }
        assert forall|a: CidParts, b: CidParts|
            self.uncompact@.dom().contains(a) && self.uncompact@.dom().contains(b)
                && #[trigger] uncompact(a) == #[trigger] uncompact(b) implies a == b by {
            assert(self.uncompact@.contains_key(a) && self.uncompact@.contains_key(b));
            lemma_parts_one_to_one(a, b, parts_view(a), parts_view(b));
        }
        vstd::set_lib::lemma_map_size(self.compact@.dom(), yes, compact);
        vstd::set_lib::lemma_map_size(self.uncompact@.dom(), no, uncompact);
    }

    /// Inserts all entries, in order.
    pub fn extend(&mut self, iter: Vec<(Cid, V)>)
        ensures
            final(self)@ == inserted(old(self)@, iter@),
    {
        let ghost entries = iter@;
        for entry in it: iter.into_iter()
            invariant
                it.seq() == entries,
                self@ == inserted(old(self)@, entries.take(it.index())),
        {
            let (cid, v) = entry;
            assert(entries.take(it.index() + 1).drop_last() =~= entries.take(it.index()));
            self.insert(cid, v);
        }
        assert(entries.take(entries.len() as int) =~= entries);
    }

    /// A map with all entries, inserted in order.
    pub fn from_iter(iter: Vec<(Cid, V)>) -> (r: Self)
        ensures
            r@ == inserted(Map::<CidView, V>::empty(), iter@),
    {
        let mut this = Self::new();
        this.extend(iter);
        this
    }
}

/// The smaller number.
pub fn smaller(a: usize, b: usize) -> (r: usize)
    ensures
        r == if a < b {
            a
        } else {
            b
        },
{
    if a < b {
        a
    } else {
        b
    }
}

/// Bounds on the number of items of two iterators together: a lower bound, and
/// an upper bound if there is one.
pub fn join_size_hints(left: (usize, Option<usize>), right: (usize, Option<usize>)) -> (r: (
    usize,
    Option<usize>,
))
    ensures
        r.0 == if left.0 + right.0 > usize::MAX {
            usize::MAX as int
        } else {
            left.0 + right.0
        },
        r.1 == match (left.1, right.1) {
            (Some(l), Some(r)) => if l + r > usize::MAX {
                None
            } else {
                Some((l + r) as usize)
            },
            _ => None,
        },
{
    let (l_lower, l_upper) = left;
    let (r_lower, r_upper) = right;
    let lower = if l_lower > usize::MAX - r_lower {
        usize::MAX
    } else {
        l_lower + r_lower
    };
    let upper = match (l_upper, r_upper) {
        (Some(l), Some(r)) => l.checked_add(r),
        _ => None,
    };
    (lower, upper)
}

/// All keys and values of a map, in no particular order.
pub struct IntoIter<V> {
    compact: Vec<([u8; 32], V)>,
    uncompact: Vec<(CidParts, V)>,
}

impl<V> View for IntoIter<V> {
    type V = Seq<(CidView, V)>;

    /// What is still to come, the next item first.
    closed spec fn view(&self) -> Seq<(CidView, V)> {
        self.compact@.map_values(|item: ([u8; 32], V)| (compact_view(item.0), item.1)).reverse()
            + self.uncompact@.map_values(
            |item: (CidParts, V)| (parts_view(item.0), item.1),
        ).reverse()
    }
}

impl<V> IntoIter<V> {
    #[verifier::type_invariant]
    spec fn inv(self) -> bool {
        forall|i: int|
            0 <= i < self.uncompact.len() ==> proper_parts((#[trigger] self.uncompact@[i]).0)
    }

    /// The next item.
    pub fn next(&mut self) -> (r: Option<(Cid, V)>)
        ensures
            match r {
                Some((cid, value)) => {
                    &&& old(self)@.len() > 0
                    &&& (cid@, value) == old(self)@[0]
                    &&& final(self)@ == old(self)@.drop_first()
                },
                None => old(self)@.len() == 0 && final(self)@ == old(self)@,
            },
    {
        proof {
            use_type_invariant(&*self);
        }
        let mut compact: Vec<([u8; 32], V)> = Vec::new();
        std::mem::swap(&mut compact, &mut self.compact);
        match compact.pop() {
            Some((digest, value)) => {
                let compacted = MaybeCompactedCid::Compact(digest);
                assert(is_compaction_of(compacted, compact_view(digest)));
                let cid = compacted.into_cid();
                self.compact = compact;
                proof {
                    lemma_compaction_view(compacted, cid@);
                    assert(self@ =~= old(self)@.drop_first());
                }
                Some((cid, value))
            },
            None => {
                self.compact = compact;
                let mut uncompact: Vec<(CidParts, V)> = Vec::new();
                std::mem::swap(&mut uncompact, &mut self.uncompact);
                match uncompact.pop() {
                    Some((parts, value)) => {
                        let compacted = MaybeCompactedCid::Uncompactable(parts);
                        assert(proper_parts(old(self).uncompact@[uncompact.len() as int].0));
                        assert(is_compaction_of(compacted, parts_view(parts)));
                        let cid = compacted.into_cid();
                        assert forall|i: int| 0 <= i < uncompact.len() implies proper_parts(
                            (#[trigger] uncompact@[i]).0,
                        ) by {
                            assert(uncompact@[i] == old(self).uncompact@[i]);
                        }
                        self.uncompact = uncompact;
                        proof {
                            lemma_compaction_view(compacted, cid@);
                            assert(self@ =~= old(self)@.drop_first());
                        }
                        Some((cid, value))
                    },
                    None => {
                        self.uncompact = uncompact;
                        assert(self@ =~= old(self)@);
                        None
                    },
                }
            },
        }
    }

    /// Bounds on the number of items to come.
    pub fn size_hint(&self) -> (r: (usize, Option<usize>))
        ensures
            self@.len() <= usize::MAX ==> r == (self@.len() as usize, Some(self@.len() as usize)),
            self@.len() > usize::MAX ==> r == (usize::MAX, None::<usize>),
    {
        let compact = self.compact.len();
        let uncompact = self.uncompact.len();
        join_size_hints((compact, Some(compact)), (uncompact, Some(uncompact)))
    }
}

/// The items list a map: each key once, with its value, and no other key.
pub open spec fn lists<V>(items: Seq<(CidView, V)>, map: Map<CidView, V>) -> bool {
    &&& forall|i: int|
        0 <= i < items.len() ==> map.contains_key((#[trigger] items[i]).0) && map[items[i].0]
            == items[i].1
    &&& forall|cid: CidView| #[trigger]
        map.contains_key(cid) ==> exists|i: int|
            0 <= i < items.len() && (#[trigger] items[i]).0 == cid
    &&& forall|i: int, j: int|
        0 <= i < j < items.len() ==> (#[trigger] items[i]).0 != (#[trigger] items[j]).0
}

impl<V> CidHashMap<V> {
    /// All keys and values.
    pub fn into_iter(self) -> (r: IntoIter<V>)
        ensures
            lists(r@, self@),
    {
        proof {
            use_type_invariant(&self);
        }
        let compact = map_into_items(self.compact);
        let uncompact = map_into_items(self.uncompact);
        assert forall|i: int| 0 <= i < uncompact.len() implies proper_parts(
            (#[trigger] uncompact@[i]).0,
        ) by {
            assert(self.uncompact@.contains_key(uncompact@[i].0));
        }
        let r = IntoIter { compact, uncompact };
        proof {
            let items = r@;
            let m = compact.len() as int;
            let n = uncompact.len() as int;
            assert forall|i: int| 0 <= i < items.len() implies if i < m {
                #[trigger] items[i] == (compact_view(compact@[m - 1 - i].0), compact@[m - 1 - i].1)
            } else {
                items[i] == (
                    parts_view(uncompact@[n - 1 - (i - m)].0),
                    uncompact@[n - 1 - (i - m)].1,
                )
            } by {}
            assert forall|i: int| 0 <= i < items.len() implies self@.contains_key(
                (#[trigger] items[i]).0,
            ) && self@[items[i].0] == items[i].1 by {
                if i < m {
                    let (digest, value) = compact@[m - 1 - i];
                    self.lemma_view(MaybeCompactedCid::Compact(digest), compact_view(digest));
                } else {
                    let (parts, value) = uncompact@[n - 1 - (i - m)];
                    assert(proper_parts(parts));
                    self.lemma_view(MaybeCompactedCid::Uncompactable(parts), parts_view(parts));
                }
            }
            assert forall|cid: CidView| #[trigger] self@.contains_key(cid) implies exists|i: int|
                0 <= i < items.len() && (#[trigger] items[i]).0 == cid by {
                let c = choose|c: MaybeCompactedCid| self.holds(c, cid);
                lemma_compaction_view(c, cid);
                match c {
                    MaybeCompactedCid::Compact(digest) => {
                        let k = choose|k: int| 0 <= k < m && (#[trigger] compact@[k]).0 == digest;
                        assert(items[m - 1 - k].0 == cid);
                    },
                    MaybeCompactedCid::Uncompactable(parts) => {
                        let k = choose|k: int| 0 <= k < n && (#[trigger] uncompact@[k]).0 == parts;
                        assert(items[m + (n - 1 - k)].0 == cid);
                    },
                }
            }
            assert forall|i: int, j: int| 0 <= i < j < items.len() implies (#[trigger] items[i]).0
                != (#[trigger] items[j]).0 by {
                if j < m {
                    let a = compact@[m - 1 - i].0;
                    let b = compact@[m - 1 - j].0;
                    lemma_compaction_one_to_one(
                        MaybeCompactedCid::Compact(a),
                        MaybeCompactedCid::Compact(b),
                        compact_view(a),
                        compact_view(b),
                    );
                } else if i >= m {
                    let a = uncompact@[n - 1 - (i - m)].0;
                    let b = uncompact@[n - 1 - (j - m)].0;
                    assert(proper_parts(a) && proper_parts(b));
                    lemma_parts_one_to_one(a, b, parts_view(a), parts_view(b));
                } else {
                    assert(proper_parts(uncompact@[n - 1 - (j - m)].0));
                }
            }
        }
        r
    }

    /// All keys.
    pub fn keys(&self) -> (r: Keys)
        ensures
            r@.no_duplicates(),
            forall|cid: CidView| #[trigger] r@.contains(cid) <==> self@.contains_key(cid),
    {
        proof {
            use_type_invariant(self);
        }
        let compact = map_keys(&self.compact);
        let uncompact = map_keys(&self.uncompact);
        assert forall|i: int| 0 <= i < uncompact.len() implies proper_parts(
            #[trigger] uncompact@[i],
        ) by {
            assert(self.uncompact@.contains_key(uncompact@[i]));
        }
        let r = Keys { compact, uncompact };
        proof {
            let items = r@;
            let m = compact.len() as int;
            let n = uncompact.len() as int;
            assert forall|i: int| 0 <= i < items.len() implies if i < m {
                #[trigger] items[i] == compact_view(compact@[m - 1 - i])
            } else {
                items[i] == parts_view(uncompact@[n - 1 - (i - m)])
            } by {}
            assert forall|cid: CidView| #[trigger] items.contains(cid) <==> self@.contains_key(
                cid,
            ) by {
                if items.contains(cid) {
                    let i = choose|i: int| 0 <= i < items.len() && items[i] == cid;
                    if i < m {
                        let digest = compact@[m - 1 - i];
                        self.lemma_view(MaybeCompactedCid::Compact(digest), compact_view(digest));
                    } else {
                        let parts = uncompact@[n - 1 - (i - m)];
                        assert(proper_parts(parts));
                        self.lemma_view(MaybeCompactedCid::Uncompactable(parts), parts_view(parts));
                    }
                }
                if self@.contains_key(cid) {
                    let c = choose|c: MaybeCompactedCid| self.holds(c, cid);
                    lemma_compaction_view(c, cid);
                    match c {
                        MaybeCompactedCid::Compact(digest) => {
                            assert(compact@.contains(digest));
                            let k = choose|k: int| 0 <= k < m && compact@[k] == digest;
                            assert(items[m - 1 - k] == cid);
                        },
                        MaybeCompactedCid::Uncompactable(parts) => {
                            assert(uncompact@.contains(parts));
                            let k = choose|k: int| 0 <= k < n && uncompact@[k] == parts;
                            assert(items[m + (n - 1 - k)] == cid);
                        },
                    }
                }
            }
            assert forall|i: int, j: int|
                0 <= i < items.len() && 0 <= j < items.len() && i != j implies #[trigger] items[i]
                != #[trigger] items[j] by {
                if i < m && j < m {
                    let a = compact@[m - 1 - i];
                    let b = compact@[m - 1 - j];
                    lemma_compaction_one_to_one(
                        MaybeCompactedCid::Compact(a),
                        MaybeCompactedCid::Compact(b),
                        compact_view(a),
                        compact_view(b),
                    );
                } else if i >= m && j >= m {
                    let a = uncompact@[n - 1 - (i - m)];
                    let b = uncompact@[n - 1 - (j - m)];
                    assert(proper_parts(a) && proper_parts(b));
                    lemma_parts_one_to_one(a, b, parts_view(a), parts_view(b));
                } else if i >= m {
                    assert(proper_parts(uncompact@[n - 1 - (i - m)]));
                } else {
                    assert(proper_parts(uncompact@[n - 1 - (j - m)]));
                }
            }
        }
        r
    }
}

/// All keys of a map, in no particular order.
pub struct Keys {
    compact: Vec<[u8; 32]>,
    uncompact: Vec<CidParts>,
}

impl View for Keys {
    type V = Seq<CidView>;

    /// What is still to come, the next key first.
    closed spec fn view(&self) -> Seq<CidView> {
        self.compact@.map_values(|digest: [u8; 32]| compact_view(digest)).reverse()
            + self.uncompact@.map_values(|parts: CidParts| parts_view(parts)).reverse()
    }
}

impl Keys {
    #[verifier::type_invariant]
    spec fn inv(self) -> bool {
        forall|i: int|
            0 <= i < self.uncompact.len() ==> proper_parts(#[trigger] self.uncompact@[i])
    }

    /// The next key.
    pub fn next(&mut self) -> (r: Option<Cid>)
        ensures
            match r {
                Some(cid) => {
                    &&& old(self)@.len() > 0
                    &&& cid@ == old(self)@[0]
                    &&& final(self)@ == old(self)@.drop_first()
                },
                None => old(self)@.len() == 0 && final(self)@ == old(self)@,
            },
    {
        proof {
            use_type_invariant(&*self);
        }
        let mut compact: Vec<[u8; 32]> = Vec::new();
        std::mem::swap(&mut compact, &mut self.compact);
        match compact.pop() {
            Some(digest) => {
                let compacted = MaybeCompactedCid::Compact(digest);
                assert(is_compaction_of(compacted, compact_view(digest)));
                let cid = compacted.into_cid();
                self.compact = compact;
                proof {
                    lemma_compaction_view(compacted, cid@);
                    assert(self@ =~= old(self)@.drop_first());
                }
                Some(cid)
            },
            None => {
                self.compact = compact;
                let mut uncompact: Vec<CidParts> = Vec::new();
                std::mem::swap(&mut uncompact, &mut self.uncompact);
                match uncompact.pop() {
                    Some(parts) => {
                        let compacted = MaybeCompactedCid::Uncompactable(parts);
                        assert(proper_parts(old(self).uncompact@[uncompact.len() as int]));
                        assert(is_compaction_of(compacted, parts_view(parts)));
                        let cid = compacted.into_cid();
                        assert forall|i: int| 0 <= i < uncompact.len() implies proper_parts(
                            #[trigger] uncompact@[i],
                        ) by {
                            assert(uncompact@[i] == old(self).uncompact@[i]);
                        }
                        self.uncompact = uncompact;
                        proof {
                            lemma_compaction_view(compacted, cid@);
                            assert(self@ =~= old(self)@.drop_first());
                        }
                        Some(cid)
                    },
                    None => {
                        self.uncompact = uncompact;
                        assert(self@ =~= old(self)@);
                        None
                    },
                }
            },
        }
    }

    /// Bounds on the number of keys to come.
    pub fn size_hint(&self) -> (r: (usize, Option<usize>))
        ensures
            self@.len() <= usize::MAX ==> r == (self@.len() as usize, Some(self@.len() as usize)),
            self@.len() > usize::MAX ==> r == (usize::MAX, None::<usize>),
    {
        let compact = self.compact.len();
        let uncompact = self.uncompact.len();
        join_size_hints((compact, Some(compact)), (uncompact, Some(uncompact)))
    }
}

/// A listing of a map leaves no key out and names none twice.
pub proof fn lemma_listed_once<V>(items: Seq<(CidView, V)>, map: Map<CidView, V>, cid: CidView)
    requires
        lists(items, map),
    ensures
        map.contains_key(cid) <==> exists|i: int|
            0 <= i < items.len() && #[trigger] items[i] == (cid, map[cid]),
        forall|i: int, j: int|
            0 <= i < items.len() && 0 <= j < items.len() && (#[trigger] items[i]).0 == cid && (
            #[trigger] items[j]).0 == cid ==> i == j,
{
    if map.contains_key(cid) {
        let i = choose|i: int| 0 <= i < items.len() && (#[trigger] items[i]).0 == cid;
        assert(items[i] == (cid, map[cid]));
    }
    if exists|i: int| 0 <= i < items.len() && #[trigger] items[i] == (cid, map[cid]) {
        let i = choose|i: int| 0 <= i < items.len() && #[trigger] items[i] == (cid, map[cid]);
        assert(map.contains_key(items[i].0));
    }
}

/// Keys are counted one by one, on the side that they belong to: those of
/// version 1, with codec 0x71, hash code 0xb220 and 32 bytes of digest can be
/// compacted.
pub proof fn lemma_keys_counted<V>(map: Map<CidView, V>, cid: CidView, value: V, compact: bool)
    requires
        map.dom().finite(),
    ensures
        count(Map::<CidView, V>::empty(), compact) == 0,
        ({
            let can = cid.version == 1 && cid.codec == 0x71 && cid.code == 0xb220
                && cid.digest.len() == 32;
            count(map.insert(cid, value), compact) == count(map, compact) + if !map.contains_key(
                cid,
            ) && can == compact {
                1nat
            } else {
                0nat
            }
        }),
{
    let test = |c: CidView| compactable(c) == compact;
    let more = map.insert(cid, value);
    assert(Map::<CidView, V>::empty().dom().filter(test) =~= Set::empty());
    if test(cid) {
        assert(more.dom().filter(test) =~= map.dom().filter(test).insert(cid));
    } else {
        assert(more.dom().filter(test) =~= map.dom().filter(test));
    }
}

/// An inserted key has the value that was inserted last under it.
pub proof fn lemma_last_insertion_counts<V>(
    map: Map<CidView, V>,
    entries: Seq<(Cid, V)>,
    i: int,
)
    requires
        0 <= i < entries.len(),
        forall|j: int| i < j < entries.len() ==> (#[trigger] entries[j]).0@ != entries[i].0@,
    ensures
        inserted(map, entries).contains_key(entries[i].0@),
        inserted(map, entries)[entries[i].0@] == entries[i].1,
    decreases entries.len(),
{
    let before = entries.drop_last();
    if i < before.len() {
        assert forall|j: int| i < j < before.len() implies (#[trigger] before[j]).0@
            != before[i].0@ by {
            assert(entries[j].0@ != entries[i].0@);
        }
        lemma_last_insertion_counts(map, before, i);
        assert(entries[before.len() as int].0@ != entries[i].0@);
    }
}

/// Inserting leaves all other keys as they are.
pub proof fn lemma_insertion_keeps_others<V>(
    map: Map<CidView, V>,
    entries: Seq<(Cid, V)>,
    cid: CidView,
)
    requires
        forall|i: int| 0 <= i < entries.len() ==> (#[trigger] entries[i]).0@ != cid,
    ensures
        inserted(map, entries).contains_key(cid) == map.contains_key(cid),
        map.contains_key(cid) ==> inserted(map, entries)[cid] == map[cid],
    decreases entries.len(),
{
    if entries.len() > 0 {
        let before = entries.drop_last();
        assert forall|i: int| 0 <= i < before.len() implies (#[trigger] before[i]).0@ != cid by {
            assert(entries[i].0@ != cid);
        }
        lemma_insertion_keeps_others(map, before, cid);
        assert(entries[before.len() as int].0@ != cid);
    }
}

} // verus!
