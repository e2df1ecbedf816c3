//! The canonical order of the blocks in a tipset.

use super::header::{sort_key, BlockView, CachingBlockHeader};
use vstd::prelude::*;

verus! {

/// What blocks are ordered by.
pub type SortKey = Option<(Seq<u8>, Seq<u8>)>;

/// Lexicographic order of byte strings.
pub open spec fn bytes_lt(a: Seq<u8>, b: Seq<u8>) -> bool
    decreases a.len(),
{
    if b.len() == 0 {
        false
    } else if a.len() == 0 {
        true
    } else if a[0] == b[0] {
        bytes_lt(a.drop_first(), b.drop_first())
    } else {
        a[0] < b[0]
    }
}

/// Order of sort keys: first those that are absent, then by the first part, then
/// by the second.
pub open spec fn key_lt(a: SortKey, b: SortKey) -> bool {
    match (a, b) {
        (_, None) => false,
        (None, Some(_)) => true,
        (Some(x), Some(y)) => bytes_lt(x.0, y.0) || (x.0 == y.0 && bytes_lt(x.1, y.1)),
    }
}

/// One byte string comes before another: where they first differ it has the
/// smaller byte, or it ends where the other goes on.
pub open spec fn comes_before(a: Seq<u8>, b: Seq<u8>) -> bool {
    exists|k: int|
        {
            &&& 0 <= k <= a.len()
            &&& k < b.len()
            &&& #[trigger] a.take(k) == b.take(k)
            &&& k == a.len() || a[k] < b[k]
        }
}

/// Byte strings are ordered by the first place at which they differ.
pub proof fn lemma_bytes_lt_first_difference(a: Seq<u8>, b: Seq<u8>)
    ensures
        bytes_lt(a, b) <==> comes_before(a, b),
    decreases a.len(),
{
    if a.len() > 0 && b.len() > 0 && a[0] == b[0] {
        let (x, y) = (a.drop_first(), b.drop_first());
        lemma_bytes_lt_first_difference(x, y);
        if comes_before(x, y) {
            let k = choose|k: int|
                {
                    &&& 0 <= k <= x.len()
                    &&& k < y.len()
                    &&& #[trigger] x.take(k) == y.take(k)
                    &&& k == x.len() || x[k] < y[k]
                };
            assert(a.take(k + 1) =~= seq![a[0]] + x.take(k));
            assert(b.take(k + 1) =~= seq![b[0]] + y.take(k));
            assert(k + 1 == a.len() || a[k + 1] < b[k + 1]);
        }
        if comes_before(a, b) {
            let k = choose|k: int|
                {
                    &&& 0 <= k <= a.len()
                    &&& k < b.len()
                    &&& #[trigger] a.take(k) == b.take(k)
                    &&& k == a.len() || a[k] < b[k]
                };
            assert(k > 0);
            assert(x.take(k - 1) =~= a.take(k).drop_first());
            assert(y.take(k - 1) =~= b.take(k).drop_first());
            assert(k - 1 == x.len() || x[k - 1] < y[k - 1]);
        }
    } else if b.len() > 0 {
        assert(a.take(0) =~= b.take(0));
        if comes_before(a, b) && a.len() > 0 {
            let k = choose|k: int|
                {
                    &&& 0 <= k <= a.len()
                    &&& k < b.len()
                    &&& #[trigger] a.take(k) == b.take(k)
                    &&& k == a.len() || a[k] < b[k]
                };
            if k > 0 {
                assert(a.take(k)[0] == b.take(k)[0]);
            }
        }
    }
}

proof fn lemma_bytes_lt_total(a: Seq<u8>, b: Seq<u8>)
    ensures
        !bytes_lt(a, a),
        !(bytes_lt(a, b) && bytes_lt(b, a)),
        bytes_lt(a, b) || bytes_lt(b, a) || a == b,
    decreases a.len(),
{
    if a.len() > 0 {
        lemma_bytes_lt_total(a.drop_first(), b.drop_first());
        if b.len() > 0 && a[0] == b[0] && a.drop_first() == b.drop_first() {
            assert(a =~= seq![a[0]] + a.drop_first());
            assert(b =~= seq![b[0]] + b.drop_first());
        }
    } else if b.len() == 0 {
        assert(a =~= b);
    }
}

proof fn lemma_bytes_lt_transitive(a: Seq<u8>, b: Seq<u8>, c: Seq<u8>)
    requires
        bytes_lt(a, b),
        bytes_lt(b, c),
    ensures
        bytes_lt(a, c),
    decreases a.len(),
{
    if a.len() > 0 && a[0] == b[0] && b[0] == c[0] {
        lemma_bytes_lt_transitive(a.drop_first(), b.drop_first(), c.drop_first());
    }
}

/// Sort keys are totally ordered.
pub proof fn lemma_key_lt_total(a: SortKey, b: SortKey)
    ensures
        !key_lt(a, a),
        !(key_lt(a, b) && key_lt(b, a)),
        key_lt(a, b) || key_lt(b, a) || a == b,
{
    if let (Some(x), Some(y)) = (a, b) {
        lemma_bytes_lt_total(x.0, y.0);
        lemma_bytes_lt_total(x.1, y.1);
    }
    if let Some(x) = a {
        lemma_bytes_lt_total(x.0, x.0);
        lemma_bytes_lt_total(x.1, x.1);
    }
}

/// The order of sort keys is transitive.
pub proof fn lemma_key_lt_transitive(a: SortKey, b: SortKey, c: SortKey)
    requires
        key_lt(a, b),
        key_lt(b, c),
    ensures
        key_lt(a, c),
{
    if let (Some(x), Some(y), Some(z)) = (a, b, c) {
        if bytes_lt(x.0, y.0) && bytes_lt(y.0, z.0) {
            lemma_bytes_lt_transitive(x.0, y.0, z.0);
        }
        if bytes_lt(x.1, y.1) && bytes_lt(y.1, z.1) {
            lemma_bytes_lt_transitive(x.1, y.1, z.1);
        }
    }
}

/// Every number below `n`, once each, in some order.
pub open spec fn is_permutation(order: Seq<int>, n: nat) -> bool {
    &&& order.len() == n
    &&& forall|i: int| 0 <= i < n ==> 0 <= #[trigger] order[i] < n
    &&& order.no_duplicates()
}

/// Where the keys stand when they are sorted: smaller keys first, and equal keys
/// in the order in which they were given.
pub open spec fn is_sorting(keys: Seq<SortKey>, order: Seq<int>) -> bool {
    &&& is_permutation(order, keys.len())
    &&& forall|i: int, j: int|
        0 <= i < j < order.len() ==> {
            let a = #[trigger] order[i];
            let b = #[trigger] order[j];
            key_lt(keys[a], keys[b]) || (keys[a] == keys[b] && a < b)
        }
}

/// The sort keys of blocks.
pub open spec fn keys_of(blocks: Seq<BlockView>) -> Seq<SortKey> {
    blocks.map_values(|block: BlockView| sort_key(block.header))
}

/// The blocks as plain values.
pub open spec fn block_views(blocks: Seq<CachingBlockHeader>) -> Seq<BlockView> {
    blocks.map_values(|block: CachingBlockHeader| block@)
}

/// The elements in the given order.
pub open spec fn reordered<T>(items: Seq<T>, order: Seq<int>) -> Seq<T> {
    Seq::new(order.len(), |i: int| items[order[i]])
}

/// Putting elements in another order loses none and adds none.
pub proof fn lemma_reordered_same_elements<T>(items: Seq<T>, order: Seq<int>)
    requires
        is_permutation(order, items.len()),
    ensures
        reordered(items, order).to_multiset() == items.to_multiset(),
    decreases items.len(),
{
    broadcast use vstd::seq_lib::group_to_multiset_ensures;

    let moved = reordered(items, order);
    if items.len() == 0 {
        assert(moved =~= items);
    } else {
        let n = items.len() - 1;
        let x = order[n];
        let fewer = items.remove(x);
        let rest = Seq::new(
            n as nat,
            |i: int|
                if order[i] > x {
                    order[i] - 1
                } else {
                    order[i]
                },
        );
        assert forall|i: int| 0 <= i < n implies 0 <= #[trigger] order[i] < items.len() && order[i]
            != x by {}
        assert forall|i: int| 0 <= i < n implies 0 <= #[trigger] rest[i] < n by {
            assert(order[i] != x);
        }
        assert forall|i: int, j: int| 0 <= i < n && 0 <= j < n && i != j implies rest[i]
            != rest[j] by {
            assert(order[i] != order[j] && order[i] != x && order[j] != x);
        }
        lemma_reordered_same_elements(fewer, rest);
        assert forall|i: int| 0 <= i < n implies fewer[rest[i]] == items[order[i]] by {
            assert(order[i] != x);
        }
        assert(reordered(fewer, rest) =~= moved.drop_last());
        assert(moved =~= moved.drop_last().push(items[x]));
        assert(fewer.to_multiset() =~= items.to_multiset().remove(items[x]));
        assert(items.to_multiset().count(items[x]) > 0) by {
            assert(items.contains(items[x]));
        }
        assert(moved.to_multiset() =~= items.to_multiset());
    }
}

/// The blocks are in canonical order.
pub open spec fn in_order(blocks: Seq<BlockView>) -> bool {
    forall|i: int, j: int|
        0 <= i < j < blocks.len() ==> !key_lt(
            sort_key((#[trigger] blocks[j]).header),
            sort_key((#[trigger] blocks[i]).header),
        )
}

/// Sorting gives blocks in canonical order.
pub proof fn lemma_sorted_in_order(blocks: Seq<BlockView>, order: Seq<int>)
    requires
        is_sorting(keys_of(blocks), order),
    ensures
        in_order(reordered(blocks, order)),
{
    let sorted = reordered(blocks, order);
    assert forall|i: int, j: int| 0 <= i < j < sorted.len() implies !key_lt(
        sort_key((#[trigger] sorted[j]).header),
        sort_key((#[trigger] sorted[i]).header),
    ) by {
        let a = order[i];
        let b = order[j];
        assert(0 <= a < blocks.len() && 0 <= b < blocks.len());
        lemma_key_lt_total(keys_of(blocks)[a], keys_of(blocks)[b]);
    }
}

proof fn lemma_increasing_at_least(order: Seq<int>, i: int)
    requires
        0 <= i < order.len(),
        forall|k: int| 0 <= k < order.len() ==> 0 <= #[trigger] order[k],
        forall|k: int, m: int| 0 <= k < m < order.len() ==> #[trigger] order[k] < #[trigger] order[m],
    ensures
        order[i] >= i,
    decreases i,
{
    if i > 0 {
        lemma_increasing_at_least(order, i - 1);
        assert(order[i - 1] < order[i]);
    }
}

proof fn lemma_increasing_at_most(order: Seq<int>, i: int)
    requires
        0 <= i < order.len(),
        forall|k: int| 0 <= k < order.len() ==> #[trigger] order[k] < order.len(),
        forall|k: int, m: int| 0 <= k < m < order.len() ==> #[trigger] order[k] < #[trigger] order[m],
    ensures
        order[i] <= i,
    decreases order.len() - i,
{
    if i < order.len() - 1 {
        lemma_increasing_at_most(order, i + 1);
        assert(order[i] < order[i + 1]);
    }
}

/// Sorting leaves blocks that are in canonical order as they are.
pub proof fn lemma_sorting_keeps_order(blocks: Seq<BlockView>, order: Seq<int>)
    requires
        in_order(blocks),
        is_sorting(keys_of(blocks), order),
    ensures
        forall|i: int| 0 <= i < order.len() ==> #[trigger] order[i] == i,
        reordered(blocks, order) == blocks,
{
    let keys = keys_of(blocks);
    assert forall|i: int, j: int| 0 <= i < j < order.len() implies #[trigger] order[i]
        < #[trigger] order[j] by {
        let a = order[i];
        let b = order[j];
        assert(0 <= a < blocks.len() && 0 <= b < blocks.len());
        if b < a {
            assert(!key_lt(sort_key(blocks[a].header), sort_key(blocks[b].header)));
        }
    }
    assert forall|i: int| 0 <= i < order.len() implies #[trigger] order[i] == i by {
        lemma_increasing_at_least(order, i);
        lemma_increasing_at_most(order, i);
    }
    assert(reordered(blocks, order) =~= blocks);
}

/// There is one way only to sort blocks: it does not matter which sorting
/// algorithm is used.
pub proof fn lemma_sorting_unique(keys: Seq<SortKey>, a: Seq<int>, b: Seq<int>)
    requires
        is_sorting(keys, a),
        is_sorting(keys, b),
    ensures
        a == b,
{
    lemma_same_prefix(keys, a, b, keys.len() as int);
    assert(a =~= b);
}

/// Blocks with distinct sort keys end up in the same order, whatever order they
/// were given in.
pub proof fn lemma_order_is_canonical(
    blocks: Seq<BlockView>,
    shuffle: Seq<int>,
    sorting: Seq<int>,
    shuffled_sorting: Seq<int>,
)
    requires
        is_permutation(shuffle, blocks.len()),
        keys_of(blocks).no_duplicates(),
        is_sorting(keys_of(blocks), sorting),
        is_sorting(keys_of(reordered(blocks, shuffle)), shuffled_sorting),
    ensures
        reordered(reordered(blocks, shuffle), shuffled_sorting) == reordered(blocks, sorting),
{
    let keys = keys_of(blocks);
    let shuffled = reordered(blocks, shuffle);
    let both = reordered(shuffle, shuffled_sorting);
    assert forall|i: int| 0 <= i < both.len() implies 0 <= #[trigger] both[i] < keys.len() && keys_of(
        shuffled,
    )[shuffled_sorting[i]] == keys[both[i]] by {
        assert(0 <= shuffled_sorting[i] < blocks.len());
        assert(0 <= shuffle[shuffled_sorting[i]] < blocks.len());
    }
    assert forall|i: int, j: int| 0 <= i < both.len() && 0 <= j < both.len() && i != j implies both[i]
        != both[j] by {
        assert(shuffled_sorting[i] != shuffled_sorting[j]);
        assert(0 <= shuffled_sorting[i] < blocks.len() && 0 <= shuffled_sorting[j] < blocks.len());
    }
    assert forall|i: int, j: int| 0 <= i < j < both.len() implies ({
        let a = #[trigger] both[i];
        let b = #[trigger] both[j];
        key_lt(keys[a], keys[b]) || (keys[a] == keys[b] && a < b)
    }) by {
        let a = shuffled_sorting[i];
        let b = shuffled_sorting[j];
        assert(both[i] != both[j]);
        assert(keys[both[i]] != keys[both[j]]);
    }
    lemma_sorting_unique(keys, both, sorting);
    assert(reordered(shuffled, shuffled_sorting) =~= reordered(blocks, sorting)) by {
        assert forall|i: int| 0 <= i < blocks.len() implies shuffled[shuffled_sorting[i]]
            == blocks[sorting[i]] by {
            assert(0 <= shuffled_sorting[i] < blocks.len());
            assert(both[i] == sorting[i]);
        }
    }
}

/// However keys are given, sorting puts the same keys into the same places.
pub proof fn lemma_same_keys_in_order(
    keys: Seq<SortKey>,
    shuffle: Seq<int>,
    sorting: Seq<int>,
    shuffled_sorting: Seq<int>,
)
    requires
        is_permutation(shuffle, keys.len()),
        is_sorting(keys, sorting),
        is_sorting(reordered(keys, shuffle), shuffled_sorting),
    ensures
        forall|i: int|
            0 <= i < keys.len() ==> keys[shuffle[#[trigger] shuffled_sorting[i]]]
                == keys[sorting[i]],
{
    let both = reordered(shuffle, shuffled_sorting);
    assert forall|i: int| 0 <= i < both.len() implies 0 <= #[trigger] both[i] < keys.len() && both[i]
        == shuffle[shuffled_sorting[i]] by {
        assert(0 <= shuffled_sorting[i] < keys.len());
    }
    assert forall|i: int, j: int| 0 <= i < both.len() && 0 <= j < both.len() && i != j implies both[i]
        != both[j] by {
        assert(shuffled_sorting[i] != shuffled_sorting[j]);
        assert(0 <= shuffled_sorting[i] < keys.len() && 0 <= shuffled_sorting[j] < keys.len());
    }
    assert(is_permutation(both, keys.len()));
    assert forall|i: int, j: int| 0 <= i < j < both.len() implies !key_lt(
        keys[#[trigger] both[j]],
        keys[#[trigger] both[i]],
    ) by {
        assert(0 <= shuffled_sorting[i] < keys.len() && 0 <= shuffled_sorting[j] < keys.len());
        lemma_key_lt_total(keys[both[i]], keys[both[j]]);
    }
    assert forall|i: int, j: int| 0 <= i < j < sorting.len() implies !key_lt(
        keys[#[trigger] sorting[j]],
        keys[#[trigger] sorting[i]],
    ) by {
        lemma_key_lt_total(keys[sorting[i]], keys[sorting[j]]);
    }
    assert forall|i: int| 0 <= i < keys.len() implies keys[shuffle[#[trigger] shuffled_sorting[i]]]
        == keys[sorting[i]] by {
        assert(both[i] == shuffle[shuffled_sorting[i]]);
        lemma_not_before(keys, both, sorting, i);
        lemma_not_before(keys, sorting, both, i);
        lemma_key_lt_total(keys[both[i]], keys[sorting[i]]);
    }
}

/// Two ascending listings of the same keys: place `k` of one does not hold a
/// smaller key than place `k` of the other.
proof fn lemma_not_before(keys: Seq<SortKey>, a: Seq<int>, b: Seq<int>, k: int)
    requires
        is_permutation(a, keys.len()),
        is_permutation(b, keys.len()),
        forall|i: int, j: int|
            0 <= i < j < a.len() ==> !key_lt(keys[#[trigger] a[j]], keys[#[trigger] a[i]]),
        forall|i: int, j: int|
            0 <= i < j < b.len() ==> !key_lt(keys[#[trigger] b[j]], keys[#[trigger] b[i]]),
        0 <= k < keys.len(),
    ensures
        !key_lt(keys[a[k]], keys[b[k]]),
{
    if key_lt(keys[a[k]], keys[b[k]]) {
        // What is up to place `k` in `a` is before place `k` in `b`.
        let low = a.take(k + 1);
        let front = b.take(k);
        assert forall|x: int| #[trigger] low.to_set().contains(x) implies front.to_set().contains(
            x,
        ) by {
            let i = choose|i: int| 0 <= i < low.len() && low[i] == x;
            assert(a[i] == x);
            lemma_permutation_onto(b, keys.len(), x);
            let j = choose|j: int| 0 <= j < keys.len() && #[trigger] b[j] == x;
            if j >= k {
                lemma_key_lt_total(keys[a[i]], keys[a[k]]);
                if keys[a[i]] != keys[a[k]] {
                    assert(i < k);
                    lemma_key_lt_transitive(keys[a[i]], keys[a[k]], keys[b[k]]);
                }
                lemma_key_lt_total(keys[b[j]], keys[b[k]]);
            } else {
                assert(front[j] == x);
            }
        }
        assert(low.no_duplicates());
        assert(front.no_duplicates());
        low.unique_seq_to_set();
        front.unique_seq_to_set();
        vstd::set_lib::lemma_len_subset(low.to_set(), front.to_set());
    }
}

pub(crate) proof fn lemma_permutation_onto(order: Seq<int>, n: nat, x: int)
    requires
        is_permutation(order, n),
        0 <= x < n,
    ensures
        exists|i: int| 0 <= i < n && #[trigger] order[i] == x,
{
    let all = Set::new(|k: int| 0 <= k < n);
    vstd::set_lib::lemma_int_range(0, n as int);
    assert(all =~= vstd::set_lib::set_int_range(0, n as int));
    order.unique_seq_to_set();
    assert(order.to_set().subset_of(all));
    vstd::set_lib::lemma_subset_equality(order.to_set(), all);
    assert(order.to_set().contains(x));
}

proof fn lemma_same_prefix(keys: Seq<SortKey>, a: Seq<int>, b: Seq<int>, m: int)
    requires
        is_sorting(keys, a),
        is_sorting(keys, b),
        0 <= m <= keys.len(),
    ensures
        forall|i: int| 0 <= i < m ==> #[trigger] a[i] == b[i],
    decreases m,
{
    if m > 0 {
        let k = m - 1;
        lemma_same_prefix(keys, a, b, k);
        if a[k] != b[k] {
            lemma_permutation_onto(b, keys.len(), a[k]);
            let i = choose|i: int| 0 <= i < keys.len() && #[trigger] b[i] == a[k];
            lemma_permutation_onto(a, keys.len(), b[k]);
            let j = choose|j: int| 0 <= j < keys.len() && #[trigger] a[j] == b[k];
            if i < k {
                assert(a[i] == b[i]);
                assert(false);
            }
            if j < k {
                assert(a[j] == b[j]);
                assert(false);
            }
            // b[k] comes before b[i] = a[k], which comes before a[j] = b[k].
            lemma_key_lt_total(keys[a[k]], keys[b[k]]);
            assert(false);
        }
    }
}

proof fn lemma_insertion_point(keys: Seq<SortKey>, order: Seq<int>, key: SortKey, from: int) -> (p: int)
    requires
        is_sorting(keys, order),
        0 <= from <= order.len(),
        forall|i: int| 0 <= i < from ==> !key_lt(key, keys[#[trigger] order[i]]),
    ensures
        0 <= p <= order.len(),
        forall|i: int| 0 <= i < p ==> !key_lt(key, keys[#[trigger] order[i]]),
        forall|i: int| p <= i < order.len() ==> key_lt(key, keys[#[trigger] order[i]]),
    decreases order.len() - from,
{
    if from == order.len() {
        from
    } else if key_lt(key, keys[order[from]]) {
        assert forall|i: int| from <= i < order.len() implies key_lt(
            key,
            keys[#[trigger] order[i]],
        ) by {
            if from < i {
                let a = order[from];
                let b = order[i];
                if key_lt(keys[a], keys[b]) {
                    lemma_key_lt_transitive(key, keys[a], keys[b]);
                }
            }
        }
        from
    } else {
        lemma_insertion_point(keys, order, key, from + 1)
    }
}

/// Whatever the keys are, they can be sorted.
pub proof fn lemma_sorting_exists(keys: Seq<SortKey>) -> (order: Seq<int>)
    ensures
        is_sorting(keys, order),
    decreases keys.len(),
{
    if keys.len() == 0 {
        Seq::empty()
    } else {
        let init = keys.drop_last();
        let n = init.len() as int;
        let before = lemma_sorting_exists(init);
        let p = lemma_insertion_point(init, before, keys[n], 0);
        let order = before.take(p).push(n) + before.skip(p);
        assert forall|i: int| 0 <= i < order.len() implies #[trigger] order[i] == (if i < p {
            before[i]
        } else if i == p {
            n
        } else {
            before[i - 1]
        }) by {}
        assert forall|i: int| 0 <= i < n implies 0 <= #[trigger] before[i] < n
            && keys[before[i]] == init[before[i]] by {}
        assert forall|i: int, j: int| 0 <= i < j < order.len() implies order[i] != order[j] && ({
            let a = #[trigger] order[i];
            let b = #[trigger] order[j];
            key_lt(keys[a], keys[b]) || (keys[a] == keys[b] && a < b)
        }) by {
            if i == p {
                assert(order[j] == before[j - 1]);
            } else if j == p {
                assert(order[i] == before[i]);
                lemma_key_lt_total(keys[n], keys[before[i]]);
            } else {
                let x = if i < p {
                    i
                } else {
                    i - 1
                };
                let y = if j < p {
                    j
                } else {
                    j - 1
                };
                assert(order[i] == before[x] && order[j] == before[y]);
            }
        }
        assert(is_permutation(order, keys.len())) by {
            assert forall|i: int| 0 <= i < order.len() implies 0 <= #[trigger] order[i]
                < keys.len() by {
                if i < p {
                    assert(order[i] == before[i]);
                } else if i > p {
                    assert(order[i] == before[i - 1]);
                }
            }
            assert forall|i: int, j: int|
                0 <= i < order.len() && 0 <= j < order.len() && i != j implies order[i]
                != order[j] by {
                if i < j {
                    assert(order[i] != order[j]);
                } else {
                    assert(order[j] != order[i]);
                }
            }
        }
        order
    }
}

} // verus!
