//! The mathematics of the slot table: where entries go, and why a forward
//! scan finds them.

use super::hash::ideal;
use super::hash::lemma_ideal_in_range;
use super::hash::lemma_ideal_monotonic;
use vstd::prelude::*;

verus! {

/// The order of entries: by hash, then by frame offset.
pub open spec fn entry_lt(a: (u64, u64), b: (u64, u64)) -> bool {
    a.0 < b.0 || (a.0 == b.0 && a.1 < b.1)
}

/// Each entry comes strictly before all that follow it.
pub open spec fn strictly_sorted(entries: Seq<(u64, u64)>) -> bool {
    forall|i: int, j: int|
        0 <= i < j < entries.len() ==> entry_lt(#[trigger] entries[i], #[trigger] entries[j])
}

/// `entries` lists what occurs in `raw`, each entry once, in order.
pub open spec fn is_sorted_set_of(entries: Seq<(u64, u64)>, raw: Seq<(u64, u64)>) -> bool {
    &&& strictly_sorted(entries)
    &&& forall|e: (u64, u64)| #[trigger] entries.contains(e) <==> raw.contains(e)
}

/// What occurs in `raw`, each entry once, in order.
pub open spec fn sorted_set(raw: Seq<(u64, u64)>) -> Seq<(u64, u64)> {
    choose|entries: Seq<(u64, u64)>| is_sorted_set_of(entries, raw)
}

/// The slot that holds entry `i`: its ideal slot, or the next one that the
/// entries before it have left free. (`-1` before the first entry.)
pub open spec fn position(entries: Seq<(u64, u64)>, width: int, i: int) -> int
    decreases i + 1,
{
    if i < 0 {
        -1
    } else {
        let next = position(entries, width, i - 1) + 1;
        let want = ideal(entries[i].0, width);
        if want > next {
            want
        } else {
            next
        }
    }
}

/// How many empty slots precede entry `i`.
pub open spec fn padding(entries: Seq<(u64, u64)>, width: int, i: int) -> int {
    position(entries, width, i) - position(entries, width, i - 1) - 1
}

/// How far entry `i` is from its ideal slot.
pub open spec fn distance(entries: Seq<(u64, u64)>, width: int, i: int) -> int {
    position(entries, width, i) - ideal(entries[i].0, width)
}

/// The largest distance of the first `n` entries.
pub open spec fn longest(entries: Seq<(u64, u64)>, width: int, n: int) -> int
    decreases n,
{
    if n <= 0 {
        0
    } else {
        let before = longest(entries, width, n - 1);
        let last = distance(entries, width, n - 1);
        if last > before {
            last
        } else {
            before
        }
    }
}

/// The hashes that occur in `entries`.
pub open spec fn hashes(entries: Seq<(u64, u64)>) -> Set<u64> {
    entries.map_values(|e: (u64, u64)| e.0).to_set()
}

/// How many entries share their hash with an earlier one.
pub open spec fn collision_count(entries: Seq<(u64, u64)>) -> int {
    entries.len() - hashes(entries).len()
}

/// Number of slots: one for every bucket, as many more as the longest distance,
/// and a terminal one.
pub open spec fn table_len(entries: Seq<(u64, u64)>, width: int) -> int {
    width + longest(entries, width, entries.len() as int) + 1
}

/// Slot `k` holds entry `i`.
pub open spec fn holds(entries: Seq<(u64, u64)>, width: int, k: int, i: int) -> bool {
    0 <= i < entries.len() && position(entries, width, i) == k
}

/// What slot `k` holds, if anything.
pub open spec fn slot_at(entries: Seq<(u64, u64)>, width: int, k: int) -> Option<(u64, u64)> {
    if exists|i: int| holds(entries, width, k, i) {
        Some(entries[choose|i: int| holds(entries, width, k, i)])
    } else {
        None
    }
}

/// The whole table.
pub open spec fn table(entries: Seq<(u64, u64)>, width: int) -> Seq<Option<(u64, u64)>> {
    Seq::new(table_len(entries, width) as nat, |k: int| slot_at(entries, width, k))
}

/// That many empty slots.
pub open spec fn empties(n: nat) -> Seq<Option<(u64, u64)>> {
    Seq::new(n, |k: int| None)
}

/// The rows written out: the empty slots of each row, then its entry.
pub open spec fn expanded(rows: Seq<(nat, (u64, u64))>) -> Seq<Option<(u64, u64)>>
    decreases rows.len(),
{
    if rows.len() == 0 {
        Seq::empty()
    } else {
        expanded(rows.drop_last()) + empties(rows.last().0).push(Some(rows.last().1))
    }
}

/// The rows written out, with empty slots up to `min_slots`, and one more.
pub open spec fn laid_out(min_slots: nat, rows: Seq<(nat, (u64, u64))>) -> Seq<
    Option<(u64, u64)>,
> {
    let used = expanded(rows);
    let filler = if used.len() < min_slots {
        (min_slots - used.len()) as nat
    } else {
        0
    };
    (used + empties(filler)).push(None)
}

/// The rows are those of `entries`, each with the empty slots that precede it.
pub open spec fn rows_match(
    rows: Seq<(nat, (u64, u64))>,
    entries: Seq<(u64, u64)>,
    width: int,
) -> bool {
    &&& rows.len() == entries.len()
    &&& forall|i: int|
        0 <= i < rows.len() ==> (#[trigger] rows[i]).0 == padding(entries, width, i) && rows[i].1
            == entries[i]
}

/// The frame offsets that a reader collects for `hash` when it scans forward
/// from slot `from` until it meets an empty slot.
pub open spec fn probe(slots: Seq<Option<(u64, u64)>>, hash: u64, from: int) -> Set<u64>
    decreases slots.len() - from,
{
    if from < 0 || from >= slots.len() {
        Set::empty()
    } else {
        match slots[from] {
            None => Set::empty(),
            Some((found, offset)) => if found == hash {
                probe(slots, hash, from + 1).insert(offset)
            } else {
                probe(slots, hash, from + 1)
            },
        }
    }
}

/// What a lookup of `hash` finds in a table made for `width` buckets.
pub open spec fn lookup(slots: Seq<Option<(u64, u64)>>, width: int, hash: u64) -> Set<u64> {
    if width == 0 {
        Set::empty()
    } else {
        probe(slots, hash, ideal(hash, width))
    }
}

pub(crate) proof fn lemma_position_step(entries: Seq<(u64, u64)>, width: int, i: int)
    requires
        0 <= i,
        0 <= width,
    ensures
        position(entries, width, i) >= position(entries, width, i - 1) + 1,
        position(entries, width, i) >= ideal(entries[i].0, width),
        position(entries, width, i) >= i,
        0 <= padding(entries, width, i),
        0 <= distance(entries, width, i),
    decreases i,
{
    if i > 0 {
        lemma_position_step(entries, width, i - 1);
    }
}

pub(crate) proof fn lemma_position_increasing(entries: Seq<(u64, u64)>, width: int, i: int, j: int)
    requires
        -1 <= i < j,
        0 <= width,
    ensures
        position(entries, width, i) < position(entries, width, j),
    decreases j,
{
    lemma_position_step(entries, width, j);
    if i < j - 1 {
        lemma_position_increasing(entries, width, i, j - 1);
    }
}

/// An entry is never pushed further than the number of entries before it
/// allows.
pub(crate) proof fn lemma_position_bound(entries: Seq<(u64, u64)>, width: int, i: int)
    requires
        -1 <= i,
        0 < width,
    ensures
        position(entries, width, i) < width + i,
    decreases i + 1,
{
    if i >= 0 {
        lemma_ideal_in_range(entries[i].0, width);
        lemma_position_bound(entries, width, i - 1);
    }
}

pub(crate) proof fn lemma_longest_nonnegative(entries: Seq<(u64, u64)>, width: int, n: int)
    ensures
        0 <= longest(entries, width, n),
    decreases n,
{
    if n > 0 {
        lemma_longest_nonnegative(entries, width, n - 1);
    }
}

/// An entry is in one of the buckets, or in one of the slots that the longest
/// distance adds to them.
pub(crate) proof fn lemma_position_in_table(entries: Seq<(u64, u64)>, width: int, i: int)
    requires
        0 <= i < entries.len(),
        0 < width,
    ensures
        0 <= position(entries, width, i) < width + longest(entries, width, entries.len() as int),
{
    lemma_ideal_in_range(entries[i].0, width);
    lemma_longest_bounds(entries, width, entries.len() as int, i);
    lemma_position_step(entries, width, i);
}

/// Sorted entries are pushed on by one slot at most for each entry before them.
pub(crate) proof fn lemma_longest_below_len(entries: Seq<(u64, u64)>, width: int, n: int)
    requires
        strictly_sorted(entries),
        0 <= n <= entries.len(),
        0 < width,
    ensures
        longest(entries, width, n) <= n,
    decreases n,
{
    if n > 0 {
        lemma_longest_below_len(entries, width, n - 1);
        lemma_distance_below(entries, width, n - 1);
    }
}

proof fn lemma_distance_below(entries: Seq<(u64, u64)>, width: int, i: int)
    requires
        strictly_sorted(entries),
        0 <= i < entries.len(),
        0 < width,
    ensures
        distance(entries, width, i) <= i,
    decreases i,
{
    lemma_ideal_in_range(entries[i].0, width);
    if i > 0 {
        lemma_distance_below(entries, width, i - 1);
        assert(entry_lt(entries[i - 1], entries[i]));
        lemma_ideal_monotonic(entries[i - 1].0, entries[i].0, width);
    } else {
        assert(position(entries, width, -1) == -1);
    }
}

pub(crate) proof fn lemma_longest_bounds(entries: Seq<(u64, u64)>, width: int, n: int, i: int)
    requires
        0 <= i < n,
        0 <= width,
    ensures
        0 <= distance(entries, width, i) <= longest(entries, width, n),
    decreases n,
{
    lemma_position_step(entries, width, i);
    if i < n - 1 {
        lemma_longest_bounds(entries, width, n - 1, i);
    }
}

/// Some entry is as far from its ideal slot as the longest distance says.
pub proof fn lemma_longest_attained(entries: Seq<(u64, u64)>, width: int, n: int)
    requires
        0 < n,
        0 <= width,
    ensures
        exists|i: int| 0 <= i < n && #[trigger] distance(entries, width, i) == longest(entries, width, n),
    decreases n,
{
    lemma_position_step(entries, width, n - 1);
    if n > 1 {
        lemma_longest_attained(entries, width, n - 1);
        let i = choose|i: int|
            0 <= i < n - 1 && #[trigger] distance(entries, width, i) == longest(entries, width, n - 1);
        assert(distance(entries, width, i) >= 0);
        if longest(entries, width, n) == longest(entries, width, n - 1) {
            assert(distance(entries, width, i) == longest(entries, width, n));
        } else {
            assert(distance(entries, width, n - 1) == longest(entries, width, n));
        }
    } else {
        assert(longest(entries, width, 0) == 0);
        assert(distance(entries, width, 0) == longest(entries, width, n));
    }
}

/// The slot of an entry holds that entry, and lies before the last slot.
pub(crate) proof fn lemma_slot_of_entry(entries: Seq<(u64, u64)>, width: int, i: int)
    requires
        0 <= i < entries.len(),
        0 < width,
    ensures
        slot_at(entries, width, position(entries, width, i)) == Some(entries[i]),
        0 <= position(entries, width, i) < table_len(entries, width) - 1,
{
    lemma_position_in_table(entries, width, i);
    let k = position(entries, width, i);
    assert(holds(entries, width, k, i));
    let j = choose|j: int| holds(entries, width, k, j);
    assert(holds(entries, width, k, j));
    if i < j {
        lemma_position_increasing(entries, width, i, j);
    }
    if j < i {
        lemma_position_increasing(entries, width, j, i);
    }
    lemma_position_step(entries, width, i);
    if i < entries.len() - 1 {
        lemma_position_increasing(entries, width, i, entries.len() - 1);
    }
}

pub(crate) proof fn lemma_expanded_prefix(
    rows: Seq<(nat, (u64, u64))>,
    entries: Seq<(u64, u64)>,
    width: int,
    n: int,
)
    requires
        rows_match(rows, entries, width),
        0 <= n <= rows.len(),
        entries.len() <= width,
    ensures
        expanded(rows.take(n)).len() == position(entries, width, n - 1) + 1,
        forall|k: int|
            0 <= k < expanded(rows.take(n)).len() ==> #[trigger] expanded(rows.take(n))[k]
                == slot_at(entries, width, k),
    decreases n,
{
    if n > 0 {
        lemma_expanded_prefix(rows, entries, width, n - 1);
        lemma_position_step(entries, width, n - 1);
        assert(rows.take(n).drop_last() =~= rows.take(n - 1));
        let before = expanded(rows.take(n - 1));
        let all = expanded(rows.take(n));
        assert(rows[n - 1].0 == padding(entries, width, n - 1));
        assert forall|k: int| 0 <= k < all.len() implies #[trigger] all[k] == slot_at(
            entries,
            width,
            k,
        ) by {
            if k < before.len() {
                assert(all[k] == before[k]);
            } else if k < all.len() - 1 {
                lemma_slot_between(entries, width, n - 1, k);
            } else {
                lemma_slot_of_entry(entries, width, n - 1);
            }
        }
    }
}

/// Writing out the rows of `entries` gives the table of `entries`.
pub(crate) proof fn lemma_laid_out(
    rows: Seq<(nat, (u64, u64))>,
    entries: Seq<(u64, u64)>,
    width: int,
)
    requires
        rows_match(rows, entries, width),
        entries.len() <= width,
    ensures
        laid_out(
            (width + longest(entries, width, entries.len() as int)) as nat,
            rows,
        ) == table(entries, width),
        expanded(rows).len() < table_len(entries, width),
{
    let n = rows.len() as int;
    lemma_longest_nonnegative(entries, width, n);
    if n > 0 {
        lemma_position_in_table(entries, width, n - 1);
    }
    lemma_expanded_prefix(rows, entries, width, n);
    assert(rows.take(n) =~= rows);
    let out = laid_out((width + longest(entries, width, n)) as nat, rows);
    let want = table(entries, width);
    assert forall|k: int| 0 <= k < out.len() implies out[k] == want[k] by {
        if k < expanded(rows).len() {
            assert(out[k] == expanded(rows)[k]);
        } else {
            lemma_slot_between(entries, width, n, k);
        }
    }
    assert(out =~= want);
}

/// A slot strictly between those of two neighbouring entries is empty.
pub(crate) proof fn lemma_slot_between(entries: Seq<(u64, u64)>, width: int, i: int, k: int)
    requires
        0 <= i <= entries.len(),
        0 <= width,
        position(entries, width, i - 1) < k,
        i < entries.len() ==> k < position(entries, width, i),
    ensures
        slot_at(entries, width, k) is None,
{
    if exists|j: int| holds(entries, width, k, j) {
        let j = choose|j: int| holds(entries, width, k, j);
        if j < i - 1 {
            lemma_position_increasing(entries, width, j, i - 1);
        }
        if j > i {
            lemma_position_increasing(entries, width, i, j);
        }
        assert(false);
    }
}

/// Between its ideal slot and the slot that it is in, an entry passes over
/// occupied slots only.
pub(crate) proof fn lemma_no_gap(entries: Seq<(u64, u64)>, width: int, i: int, k: int)
    requires
        0 <= i < entries.len(),
        0 < width,
        strictly_sorted(entries),
        ideal(entries[i].0, width) <= k <= position(entries, width, i),
    ensures
        slot_at(entries, width, k) is Some,
    decreases i,
{
    lemma_slot_of_entry(entries, width, i);
    lemma_position_step(entries, width, i);
    if k < position(entries, width, i) {
        assert(position(entries, width, i) == position(entries, width, i - 1) + 1);
        assert(i > 0) by {
            if i == 0 {
                assert(position(entries, width, -1) == -1);
                lemma_ideal_in_range(entries[0].0, width);
            }
        }
        assert(entry_lt(entries[i - 1], entries[i]));
        lemma_ideal_monotonic(entries[i - 1].0, entries[i].0, width);
        lemma_no_gap(entries, width, i - 1, k);
    }
}

/// What a scan collects, element by element.
proof fn lemma_probe_finds(slots: Seq<Option<(u64, u64)>>, hash: u64, from: int, k: int, offset: u64)
    requires
        0 <= from <= k < slots.len(),
        slots[k] == Some((hash, offset)),
        forall|j: int| from <= j <= k ==> (#[trigger] slots[j]) is Some,
    ensures
        probe(slots, hash, from).contains(offset),
    decreases k - from,
{
    assert(slots[from] is Some);
    if from < k {
        lemma_probe_finds(slots, hash, from + 1, k, offset);
    }
}

proof fn lemma_probe_sound(slots: Seq<Option<(u64, u64)>>, hash: u64, from: int, offset: u64)
    requires
        0 <= from,
        probe(slots, hash, from).contains(offset),
    ensures
        exists|k: int| from <= k < slots.len() && #[trigger] slots[k] == Some((hash, offset)),
    decreases slots.len() - from,
{
    assert(from < slots.len());
    match slots[from] {
        None => {},
        Some((found, here)) => {
            if found == hash && here == offset {
                assert(slots[from] == Some((hash, offset)));
            } else {
                lemma_probe_sound(slots, hash, from + 1, offset);
                let k = choose|k: int|
                    from + 1 <= k < slots.len() && #[trigger] slots[k] == Some((hash, offset));
                assert(slots[k] == Some((hash, offset)));
            }
        },
    }
}

/// One more entry: its hash is new unless the entry before it has it.
pub(crate) proof fn lemma_hashes_push(entries: Seq<(u64, u64)>, i: int)
    requires
        0 <= i < entries.len(),
        strictly_sorted(entries),
        hashes(entries.take(i)).finite(),
    ensures
        hashes(entries.take(i + 1)).finite(),
        collision_count(entries.take(i + 1)) == collision_count(entries.take(i)) + if i > 0
            && entries[i - 1].0 == entries[i].0 {
            1int
        } else {
            0int
        },
{
    let before = hashes(entries.take(i));
    let after = hashes(entries.take(i + 1));
    let h = entries[i].0;
    let old_hashes = entries.take(i).map_values(|e: (u64, u64)| e.0);
    let new_hashes = entries.take(i + 1).map_values(|e: (u64, u64)| e.0);
    assert(new_hashes =~= old_hashes.push(h));
    assert(after =~= before.insert(h)) by {
        assert forall|x: u64| after.contains(x) <==> before.insert(h).contains(x) by {
            if after.contains(x) {
                let k = choose|k: int| 0 <= k < new_hashes.len() && new_hashes[k] == x;
                if k < i {
                    assert(old_hashes[k] == x);
                }
            }
            if before.contains(x) {
                let k = choose|k: int| 0 <= k < old_hashes.len() && old_hashes[k] == x;
                assert(new_hashes[k] == x);
            }
            assert(new_hashes[i] == h);
        }
    }
    if i > 0 && entries[i - 1].0 == h {
        assert(old_hashes[i - 1] == h);
        assert(before.contains(h));
    } else {
        assert(!before.contains(h)) by {
            if before.contains(h) {
                let k = choose|k: int| 0 <= k < old_hashes.len() && old_hashes[k] == h;
                assert(entries[k].0 == h);
                if k < i - 1 {
                    assert(entry_lt(entries[k], entries[i - 1]));
                }
                assert(entry_lt(entries[i - 1], entries[i]));
            }
        }
    }
}

/// An entry that is not in its ideal slot stands right behind another one: no
/// slot is left empty that could have been used.
pub proof fn lemma_no_needless_padding(entries: Seq<(u64, u64)>, width: int, i: int)
    requires
        0 <= i < entries.len(),
        0 < width,
        position(entries, width, i) > ideal(entries[i].0, width),
    ensures
        i > 0,
        position(entries, width, i) == position(entries, width, i - 1) + 1,
{
    lemma_ideal_in_range(entries[i].0, width);
    assert(position(entries, width, -1) == -1);
}

/// Collisions count one by one: an entry adds one if an entry before it has its
/// hash, and none otherwise.
pub proof fn lemma_collisions_one_by_one(entries: Seq<(u64, u64)>, e: (u64, u64))
    ensures
        collision_count(Seq::<(u64, u64)>::empty()) == 0,
        collision_count(entries.push(e)) == collision_count(entries) + if exists|i: int|
            0 <= i < entries.len() && (#[trigger] entries[i]).0 == e.0 {
            1int
        } else {
            0int
        },
{
    let old_hashes = entries.map_values(|x: (u64, u64)| x.0);
    let new_hashes = entries.push(e).map_values(|x: (u64, u64)| x.0);
    vstd::seq_lib::seq_to_set_is_finite(old_hashes);
    assert(hashes(Seq::<(u64, u64)>::empty()) =~= Set::empty());
    assert(new_hashes =~= old_hashes.push(e.0));
    assert(hashes(entries.push(e)) =~= hashes(entries).insert(e.0)) by {
        assert forall|x: u64| hashes(entries.push(e)).contains(x) <==> hashes(entries).insert(
            e.0,
        ).contains(x) by {
            if hashes(entries.push(e)).contains(x) {
                let k = choose|k: int| 0 <= k < new_hashes.len() && new_hashes[k] == x;
                if k < old_hashes.len() {
                    assert(old_hashes[k] == x);
                }
            }
            if hashes(entries).contains(x) {
                let k = choose|k: int| 0 <= k < old_hashes.len() && old_hashes[k] == x;
                assert(new_hashes[k] == x);
            }
            assert(new_hashes[entries.len() as int] == e.0);
        }
    }
    if exists|i: int| 0 <= i < entries.len() && (#[trigger] entries[i]).0 == e.0 {
        let i = choose|i: int| 0 <= i < entries.len() && (#[trigger] entries[i]).0 == e.0;
        assert(old_hashes[i] == e.0);
        assert(hashes(entries).contains(e.0));
    } else {
        assert(!hashes(entries).contains(e.0)) by {
            if hashes(entries).contains(e.0) {
                let k = choose|k: int| 0 <= k < old_hashes.len() && old_hashes[k] == e.0;
                assert(entries[k].0 == e.0);
            }
        }
    }
}

/// A lookup finds the frame offsets that were entered for the hash, all of
/// them and no others.
pub proof fn lemma_lookup_exact(entries: Seq<(u64, u64)>, width: int, hash: u64, offset: u64)
    requires
        strictly_sorted(entries),
        entries.len() <= width,
    ensures
        lookup(table(entries, width), width, hash).contains(offset) <==> entries.contains(
            (hash, offset),
        ),
{
    let slots = table(entries, width);
    if width > 0 {
        lemma_ideal_in_range(hash, width);
    }
    if entries.contains((hash, offset)) {
        let i = choose|i: int| 0 <= i < entries.len() && entries[i] == (hash, offset);
        lemma_slot_of_entry(entries, width, i);
        lemma_position_step(entries, width, i);
        let k = position(entries, width, i);
        assert forall|j: int| ideal(hash, width) <= j <= k implies (#[trigger] slots[j]) is Some by {
            lemma_no_gap(entries, width, i, j);
        }
        lemma_probe_finds(slots, hash, ideal(hash, width), k, offset);
    }
    if lookup(slots, width, hash).contains(offset) {
        lemma_probe_sound(slots, hash, ideal(hash, width), offset);
        let k = choose|k: int|
            ideal(hash, width) <= k < slots.len() && #[trigger] slots[k] == Some((hash, offset));
        assert(slot_at(entries, width, k) == Some((hash, offset)));
        let i = choose|i: int| holds(entries, width, k, i);
        assert(entries[i] == (hash, offset));
    }
}

/// Every entry is found at or within the longest distance after its ideal
/// slot.
pub proof fn lemma_entry_within_longest_distance(entries: Seq<(u64, u64)>, width: int, i: int)
    requires
        0 <= i < entries.len() <= width,
    ensures
        ideal(entries[i].0, width) <= position(entries, width, i) <= ideal(entries[i].0, width)
            + longest(entries, width, entries.len() as int),
        table(entries, width)[position(entries, width, i)] == Some(entries[i]),
{
    lemma_longest_bounds(entries, width, entries.len() as int, i);
    lemma_slot_of_entry(entries, width, i);
}

/// A scan starts inside the table, whatever the hash, and the last slot is
/// empty, so it ends there too.
pub proof fn lemma_scan_stays_inside(entries: Seq<(u64, u64)>, width: int, hash: u64)
    requires
        0 < width,
    ensures
        0 <= ideal(hash, width) < table(entries, width).len(),
        table(entries, width).last() is None,
{
    lemma_ideal_in_range(hash, width);
    lemma_longest_nonnegative(entries, width, entries.len() as int);
    if entries.len() > 0 {
        lemma_position_in_table(entries, width, entries.len() - 1);
    }
    let last = table_len(entries, width) - 1;
    lemma_slot_between(entries, width, entries.len() as int, last);
}

/// There is only one way to list a set of entries in order, so the table does
/// not depend on the order in which entries were added.
pub proof fn lemma_sorted_set_unique(
    a: Seq<(u64, u64)>,
    b: Seq<(u64, u64)>,
    raw_a: Seq<(u64, u64)>,
    raw_b: Seq<(u64, u64)>,
)
    requires
        is_sorted_set_of(a, raw_a),
        is_sorted_set_of(b, raw_b),
        forall|e: (u64, u64)| #[trigger] raw_a.contains(e) <==> raw_b.contains(e),
    ensures
        a == b,
    decreases a.len(),
{
    if a.len() == 0 {
        if b.len() > 0 {
            assert(b.contains(b[0]));
            assert(raw_a.contains(b[0]));
            assert(a.contains(b[0]));
        }
        assert(a =~= b);
    } else {
        let top = a.last();
        assert(a.contains(top));
        assert(raw_b.contains(top));
        assert(b.contains(top));
        let j = choose|j: int| 0 <= j < b.len() && b[j] == top;
        let other = b.last();
        assert(b.contains(other));
        assert(raw_a.contains(other));
        assert(a.contains(other));
        let i = choose|i: int| 0 <= i < a.len() && a[i] == other;
        if j < b.len() - 1 {
            assert(entry_lt(b[j], b[b.len() - 1]));
            if i < a.len() - 1 {
                assert(entry_lt(a[i], a[a.len() - 1]));
            }
            assert(false);
        }
        assert(other == top);
        let (c, d) = (a.drop_last(), b.drop_last());
        assert forall|e: (u64, u64)| #[trigger] c.contains(e) <==> d.contains(e) by {
            if c.contains(e) {
                let x = choose|x: int| 0 <= x < c.len() && c[x] == e;
                assert(a[x] == e);
                assert(entry_lt(a[x], a[a.len() - 1]));
                assert(a.contains(e));
                assert(raw_a.contains(e));
                assert(b.contains(e));
                let y = choose|y: int| 0 <= y < b.len() && b[y] == e;
                assert(d[y] == e);
            }
            if d.contains(e) {
                let x = choose|x: int| 0 <= x < d.len() && d[x] == e;
                assert(b[x] == e);
                assert(entry_lt(b[x], b[b.len() - 1]));
                assert(b.contains(e));
                assert(raw_b.contains(e));
                assert(a.contains(e));
                let y = choose|y: int| 0 <= y < a.len() && a[y] == e;
                assert(c[y] == e);
            }
        }
        assert(strictly_sorted(c));
        assert(strictly_sorted(d));
        lemma_sorted_set_unique(c, d, c, d);
        assert(a =~= c.push(top));
        assert(b =~= d.push(top));
    }
}

/// There is one way only to list what occurs in `raw`, each entry once, in
/// order.
pub proof fn lemma_is_sorted_set(entries: Seq<(u64, u64)>, raw: Seq<(u64, u64)>)
    requires
        is_sorted_set_of(entries, raw),
    ensures
        entries == sorted_set(raw),
{
    lemma_sorted_set_unique(entries, sorted_set(raw), raw, raw);
}

/// What occurs in `raw` can be listed, each entry once, in order, in at most as
/// many places.
pub proof fn lemma_sorted_set_exists(raw: Seq<(u64, u64)>) -> (entries: Seq<(u64, u64)>)
    ensures
        is_sorted_set_of(entries, raw),
        entries.len() <= raw.len(),
    decreases raw.len(),
{
    if raw.len() == 0 {
        Seq::empty()
    } else {
        let e = raw.last();
        let before = lemma_sorted_set_exists(raw.drop_last());
        assert forall|x: (u64, u64)| #[trigger] raw.contains(x) <==> raw.drop_last().contains(x)
            || x == e by {
            if raw.contains(x) {
                let i = choose|i: int| 0 <= i < raw.len() && raw[i] == x;
                if i < raw.len() - 1 {
                    assert(raw.drop_last()[i] == x);
                }
            }
            if raw.drop_last().contains(x) {
                let i = choose|i: int| 0 <= i < raw.len() - 1 && raw.drop_last()[i] == x;
                assert(raw[i] == x);
            }
            assert(raw[raw.len() - 1] == e);
        }
        lemma_insert_sorted(before, e)
    }
}

proof fn lemma_insert_sorted(before: Seq<(u64, u64)>, e: (u64, u64)) -> (entries: Seq<(u64, u64)>)
    requires
        strictly_sorted(before),
    ensures
        strictly_sorted(entries),
        entries.len() <= before.len() + 1,
        forall|x: (u64, u64)| #[trigger] entries.contains(x) <==> before.contains(x) || x == e,
    decreases before.len(),
{
    if before.len() == 0 {
        assert(seq![e].contains(e)) by {
            assert(seq![e][0] == e);
        }
        seq![e]
    } else {
        let last = before.last();
        assert(before.contains(last)) by {
            assert(before[before.len() - 1] == last);
        }
        if last == e {
            before
        } else if entry_lt(last, e) {
            let entries = before.push(e);
            assert forall|x: (u64, u64)| #[trigger] entries.contains(x) <==> before.contains(x)
                || x == e by {
                if entries.contains(x) {
                    let i = choose|i: int| 0 <= i < entries.len() && entries[i] == x;
                    if i < before.len() {
                        assert(before[i] == x);
                    }
                }
                if before.contains(x) {
                    let i = choose|i: int| 0 <= i < before.len() && before[i] == x;
                    assert(entries[i] == x);
                }
                assert(entries[before.len() as int] == e);
            }
            assert forall|i: int, j: int| 0 <= i < j < entries.len() implies entry_lt(
                #[trigger] entries[i],
                #[trigger] entries[j],
            ) by {
                if j == before.len() && i < before.len() - 1 {
                    assert(entry_lt(before[i], before[before.len() - 1]));
                }
            }
            entries
        } else {
            let init = before.drop_last();
            let inner = lemma_insert_sorted(init, e);
            let entries = inner.push(last);
            assert forall|x: (u64, u64)| #[trigger] entries.contains(x) <==> before.contains(x)
                || x == e by {
                if entries.contains(x) {
                    let i = choose|i: int| 0 <= i < entries.len() && entries[i] == x;
                    if i < inner.len() {
                        assert(inner.contains(inner[i]));
                        if x != e {
                            let j = choose|j: int| 0 <= j < init.len() && init[j] == x;
                            assert(before[j] == x);
                        }
                    }
                }
                if before.contains(x) {
                    let i = choose|i: int| 0 <= i < before.len() && before[i] == x;
                    if i < init.len() {
                        assert(init[i] == x);
                        assert(inner.contains(x));
                        let j = choose|j: int| 0 <= j < inner.len() && inner[j] == x;
                        assert(entries[j] == x);
                    } else {
                        assert(entries[inner.len() as int] == x);
                    }
                }
                if x == e {
                    assert(inner.contains(x));
                    let j = choose|j: int| 0 <= j < inner.len() && inner[j] == x;
                    assert(entries[j] == x);
                }
            }
            assert forall|i: int, j: int| 0 <= i < j < entries.len() implies entry_lt(
                #[trigger] entries[i],
                #[trigger] entries[j],
            ) by {
                if j == inner.len() {
                    assert(inner.contains(inner[i]));
                    if inner[i] != e {
                        let m = choose|m: int| 0 <= m < init.len() && init[m] == inner[i];
                        assert(entry_lt(before[m], before[before.len() - 1]));
                    }
                }
            }
            entries
        }
    }
}

} // verus!
