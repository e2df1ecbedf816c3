//! Embedded index for the `.forest.car.zst` format.
//!
//! Maps from CIDs to candidate zstd frame offsets. The index is an
//! open-addressed hash table with linear probing that is written once and read
//! many times:
//!
//! - [Hashing](hash::summary) a CID gives a fixed-length entry.
//! - The [ideal slot](hash::ideal_slot_ix) of a hash, given the number of
//!   buckets, is where a lookup starts.
//! - Entries are sorted by hash, and empty slots are put between them so that
//!   each is at or after its ideal slot. A lookup scans forward from there.
//! - Two CIDs can have the same hash, and two hashes the same ideal slot. A
//!   lookup gives candidates, which the reader of the archive checks.
//!
//! On disk, the version and the header come first, then the slots. The table
//! does not hold its own length: that is kept out of band.

pub mod hash;
pub mod layout;

use crate::utils::bytes::{lemma_u64_le_round_trip, u64_from_le, u64_le, write_u64_le};
use crate::utils::cid::Cid;
use hash::{ideal_slot_ix, NonMaximalU64};
use layout::{
    collision_count, empties, expanded, is_sorted_set_of, laid_out, longest, padding, rows_match,
    sorted_set, strictly_sorted, table, table_len,
};
use vstd::prelude::*;

verus! {

/// Version of the on-disk format.
#[derive(Debug, Clone, Copy, PartialEq, Eq, PartialOrd, Ord, Hash)]
pub enum Version {
    V0,
    V1,
}

impl Version {
    /// The number that stands for this version on disk.
    pub open spec fn magic(self) -> u64 {
        match self {
            Version::V0 => 0xdead_beef,
            Version::V1 => 0xdead_bef0,
        }
    }
}

/// What a reader needs to know about the table before it looks anything up.
#[derive(Debug, Clone, Copy, PartialEq)]
pub struct V1Header {
    /// Worst-case distance between an entry and its bucket.
    pub longest_distance: u64,
    /// Number of hash collisions.
    pub collisions: u64,
    /// Number of buckets for the sake of ideal slots.
    ///
    /// Note that the index includes:
    /// - this number of slots.
    /// - [`V1Header::longest_distance`] additional ones.
    /// - a terminal empty slot.
    pub initial_buckets: u64,
}

/// A hash and the offset of the frame in which to look.
#[derive(Debug, Clone, Copy, PartialEq, Eq, PartialOrd, Ord, Hash)]
pub struct OccupiedSlot {
    pub hash: NonMaximalU64,
    pub frame_offset: u64,
}

impl View for OccupiedSlot {
    type V = (u64, u64);

    open spec fn view(&self) -> (u64, u64) {
        (self.hash@, self.frame_offset)
    }
}

/// One place in the table.
#[derive(Debug, Clone, Copy, PartialEq, Eq, PartialOrd, Ord, Hash)]
pub enum Slot {
    Empty,
    Occupied(OccupiedSlot),
}

impl View for Slot {
    type V = Option<(u64, u64)>;

    open spec fn view(&self) -> Option<(u64, u64)> {
        match self {
            Slot::Empty => None,
            Slot::Occupied(occupied) => Some(occupied@),
        }
    }
}

/// A [`Slot`] as it appears on disk. If the hash is [`u64::MAX`], then this
/// represents an empty slot.
#[derive(Debug, Clone, Copy, PartialEq)]
pub struct RawSlot {
    pub hash: u64,
    pub frame_offset: u64,
}

/// How a slot appears on disk: its hash and its frame offset, or all ones.
pub open spec fn raw_slot(slot: Option<(u64, u64)>) -> (u64, u64) {
    match slot {
        None => (u64::MAX, u64::MAX),
        Some(entry) => entry,
    }
}

impl Slot {
    /// The slot as it appears on disk.
    pub fn into_raw(self) -> (r: RawSlot)
        ensures
            (r.hash, r.frame_offset) == raw_slot(self@),
    {
        match self {
            Slot::Empty => RawSlot { hash: u64::MAX, frame_offset: u64::MAX },
            Slot::Occupied(OccupiedSlot { hash, frame_offset }) => RawSlot {
                hash: hash.get(),
                frame_offset,
            },
        }
    }
}

/// Something with a fixed-length encoding.
pub trait Writeable {
    /// The encoding.
    spec fn bytes(&self) -> Seq<u8>;

    /// The length of every encoding.
    spec fn byte_len() -> nat;

    /// The length is right.
    proof fn lemma_byte_len(&self)
        ensures
            self.bytes().len() == Self::byte_len(),
    ;

    /// Appends the encoding.
    fn write_to(&self, writer: &mut Vec<u8>)
        ensures
            final(writer)@ == old(writer)@ + self.bytes(),
    ;

    /// The number of bytes that are written on a call to `write_to`.
    fn encoded_len() -> (r: u64)
        ensures
            r == Self::byte_len(),
    ;
}

impl Writeable for Version {
    open spec fn bytes(&self) -> Seq<u8> {
        u64_le(self.magic())
    }

    open spec fn byte_len() -> nat {
        8
    }

    proof fn lemma_byte_len(&self) {
    }

    fn write_to(&self, writer: &mut Vec<u8>) {
        let magic: u64 = match self {
            Version::V0 => 0xdead_beef,
            Version::V1 => 0xdead_bef0,
        };
        write_u64_le(writer, magic);
    }

    fn encoded_len() -> (r: u64) {
        8
    }
}

/// The bytes of a slot on disk.
pub open spec fn slot_bytes(slot: Option<(u64, u64)>) -> Seq<u8> {
    u64_le(raw_slot(slot).0) + u64_le(raw_slot(slot).1)
}

impl Writeable for RawSlot {
    open spec fn bytes(&self) -> Seq<u8> {
        u64_le(self.hash) + u64_le(self.frame_offset)
    }

    open spec fn byte_len() -> nat {
        16
    }

    proof fn lemma_byte_len(&self) {
    }

    fn write_to(&self, writer: &mut Vec<u8>) {
        write_u64_le(writer, self.hash);
        write_u64_le(writer, self.frame_offset);
        assert(writer@ =~= old(writer)@ + self.bytes());
    }

    fn encoded_len() -> (r: u64) {
        16
    }
}

impl Writeable for Slot {
    open spec fn bytes(&self) -> Seq<u8> {
        slot_bytes(self@)
    }

    open spec fn byte_len() -> nat {
        16
    }

    proof fn lemma_byte_len(&self) {
    }

    fn write_to(&self, writer: &mut Vec<u8>) {
        let raw = self.into_raw();
        raw.write_to(writer);
    }

    fn encoded_len() -> (r: u64) {
        16
    }
}

/// The bytes of a header with the given numbers.
pub open spec fn header_bytes(longest_distance: u64, collisions: u64, initial_buckets: u64) -> Seq<
    u8,
> {
    u64_le(longest_distance) + u64_le(collisions) + u64_le(initial_buckets)
}

impl Writeable for V1Header {
    open spec fn bytes(&self) -> Seq<u8> {
        header_bytes(self.longest_distance, self.collisions, self.initial_buckets)
    }

    open spec fn byte_len() -> nat {
        24
    }

    proof fn lemma_byte_len(&self) {
    }

    fn write_to(&self, writer: &mut Vec<u8>) {
        write_u64_le(writer, self.longest_distance);
        write_u64_le(writer, self.collisions);
        write_u64_le(writer, self.initial_buckets);
        assert(writer@ =~= old(writer)@ + self.bytes());
    }

    fn encoded_len() -> (r: u64) {
        24
    }
}

/// The length of the encoding of a value.
pub fn written_len<T: Writeable>(value: &T) -> (r: u64)
    ensures
        r == value.bytes().len(),
{
    proof {
        value.lemma_byte_len();
    }
    T::encoded_len()
}

/// Rows of the table as plain values: the number of empty slots before each
/// entry, and the entry.
pub open spec fn rows_view(rows: Seq<(usize, OccupiedSlot)>) -> Seq<(nat, (u64, u64))> {
    rows.map_values(|row: (usize, OccupiedSlot)| (row.0 as nat, row.1@))
}

/// The slots of a table as plain values.
pub open spec fn slots_view(slots: Seq<Slot>) -> Seq<Option<(u64, u64)>> {
    slots.map_values(|slot: Slot| slot@)
}

/// The bytes of a table: those of its slots, one after the other.
pub open spec fn table_bytes(slots: Seq<Option<(u64, u64)>>) -> Seq<u8>
    decreases slots.len(),
{
    if slots.len() == 0 {
        Seq::empty()
    } else {
        table_bytes(slots.drop_last()) + slot_bytes(slots.last())
    }
}

/// The bytes of an index on `entries`, with `width` buckets.
pub open spec fn index_bytes(entries: Seq<(u64, u64)>, width: int) -> Seq<u8> {
    u64_le(Version::V1.magic()) + header_bytes(
        longest(entries, width, entries.len() as int) as u64,
        collision_count(entries) as u64,
        width as u64,
    ) + table_bytes(table(entries, width))
}

/// More slots than this no table has.
pub open spec fn max_slots() -> int {
    0x80_0000_0000_0000
}

/// Writes the actual slot table.
///
/// Importantly, this knows the [written length](Writer::written_len) of the
/// table, which is required for some containers.
pub struct Writer {
    version: Version,
    header: V1Header,
    /// Number of preceding empty slots, followed by the occupied one.
    ///
    /// This is so that empty slots aren't created, saving memory.
    slots: Vec<(usize, OccupiedSlot)>,
}

impl Writer {
    /// The entries of the table, in order.
    pub closed spec fn entries(&self) -> Seq<(u64, u64)> {
        self.slots@.map_values(|row: (usize, OccupiedSlot)| row.1@)
    }

    /// The number of buckets of the table.
    pub closed spec fn width(&self) -> int {
        self.header.initial_buckets as int
    }

    #[verifier::type_invariant]
    spec fn inv(self) -> bool {
        &&& self.version == Version::V1
        &&& strictly_sorted(self.entries())
        &&& self.entries().len() <= self.width()
        &&& table_len(self.entries(), self.width()) <= max_slots()
        &&& table_len(self.entries(), self.width()) <= usize::MAX
        &&& rows_match(rows_view(self.slots@), self.entries(), self.width())
        &&& self.header.longest_distance == longest(
            self.entries(),
            self.width(),
            self.entries().len() as int,
        )
        &&& self.header.collisions == collision_count(self.entries())
    }

    /// The number of bytes that [`Writer::write_into`] writes.
    pub fn written_len(&self) -> (r: u64)
        ensures
            r == index_bytes(self.entries(), self.width()).len(),
            r == 32 + 16 * (self.width() + longest(
                self.entries(),
                self.width(),
                self.entries().len() as int,
            ) + 1),
    {
        proof {
            use_type_invariant(self);
            lemma_index_bytes_len(self.entries(), self.width());
        }
        let slots: u64 = self.header.initial_buckets + self.header.longest_distance + 1;
        written_len(&self.version) + written_len(&self.header) + slots * Slot::encoded_len()
    }

    /// The slots of the rows in order, at least `min_slots` of them, and an
    /// empty one after that: a lookup never reads off the end of the table.
    pub fn slots(min_slots: usize, rows: &Vec<(usize, OccupiedSlot)>) -> (r: Vec<Slot>)
        requires
            expanded(rows_view(rows@)).len() < usize::MAX,
            min_slots < usize::MAX,
        ensures
            slots_view(r@) == laid_out(min_slots as nat, rows_view(rows@)),
    {
        let mut slots: Vec<Slot> = Vec::new();
        let mut i: usize = 0;
        assert(rows_view(rows@).take(0) =~= Seq::empty());
        assert(slots_view(slots@) =~= Seq::empty());
        while i < rows.len()
            invariant
                i <= rows.len(),
                slots_view(slots@) == expanded(rows_view(rows@).take(i as int)),
            decreases rows.len() - i,
        {
            let pre = rows[i].0;
            let occupied = rows[i].1;
            let ghost before = slots@;
            let mut k: usize = 0;
            while k < pre
                invariant
                    k <= pre,
                    slots_view(slots@) == slots_view(before) + empties(k as nat),
                decreases pre - k,
            {
                proof {
                    lemma_slots_view_push(slots@, Slot::Empty);
                    assert(empties((k + 1) as nat) =~= empties(k as nat).push(None));
                    assert(slots_view(slots@).push(None) =~= slots_view(before) + empties(
                        (k + 1) as nat,
                    ));
                }
                slots.push(Slot::Empty);
                k += 1;
            }
            proof {
                lemma_slots_view_push(slots@, Slot::Occupied(occupied));
            }
            slots.push(Slot::Occupied(occupied));
            proof {
                let done = rows_view(rows@).take(i + 1);
                assert(done.drop_last() =~= rows_view(rows@).take(i as int));
                assert(slots_view(slots@) =~= expanded(done));
            }
            i += 1;
        }
        assert(rows_view(rows@).take(i as int) =~= rows_view(rows@));
        let ghost used = slots@;
        while slots.len() < min_slots
            invariant
                used.len() <= slots.len(),
                slots.len() <= min_slots || slots@ == used,
                slots_view(slots@) == slots_view(used) + empties((slots.len() - used.len()) as nat),
            decreases min_slots - slots.len(),
        {
            let ghost filler = (slots.len() - used.len()) as nat;
            proof {
                lemma_slots_view_push(slots@, Slot::Empty);
                assert(empties(filler + 1) =~= empties(filler).push(None));
                assert(slots_view(slots@).push(None) =~= slots_view(used) + empties(filler + 1));
            }
            slots.push(Slot::Empty);
        }
        proof {
            lemma_slots_view_push(slots@, Slot::Empty);
        }
        slots.push(Slot::Empty);
        assert(slots_view(slots@) =~= laid_out(min_slots as nat, rows_view(rows@)));
        slots
    }

    /// Appends the index: the version, the header and the slots.
    pub fn write_into(self, writer: &mut Vec<u8>)
        ensures
            final(writer)@ == old(writer)@ + index_bytes(self.entries(), self.width()),
    {
        proof {
            use_type_invariant(&self);
            layout::lemma_laid_out(rows_view(self.slots@), self.entries(), self.width());
        }
        self.version.write_to(writer);
        self.header.write_to(writer);
        let ghost start = writer@;
        let min_slots: u64 = self.header.initial_buckets + self.header.longest_distance;
        let slots = Self::slots(min_slots as usize, &self.slots);
        let ghost view = slots_view(slots@);
        let mut i: usize = 0;
        assert(view.take(0) =~= Seq::empty());
        assert(writer@ =~= start + table_bytes(view.take(0)));
        while i < slots.len()
            invariant
                i <= slots.len(),
                view == slots_view(slots@),
                writer@ == start + table_bytes(view.take(i as int)),
            decreases slots.len() - i,
        {
            slots[i].write_to(writer);
            assert(view.take(i + 1).drop_last() =~= view.take(i as int));
            assert(writer@ =~= start + table_bytes(view.take(i + 1)));
            i += 1;
        }
        assert(view.take(i as int) =~= view);
        assert(writer@ =~= old(writer)@ + index_bytes(self.entries(), self.width()));
    }
}

proof fn lemma_slots_view_push(slots: Seq<Slot>, slot: Slot)
    ensures
        slots_view(slots.push(slot)) == slots_view(slots).push(slot@),
{
    assert(slots_view(slots.push(slot)) =~= slots_view(slots).push(slot@));
}

proof fn lemma_table_bytes_len(slots: Seq<Option<(u64, u64)>>)
    ensures
        table_bytes(slots).len() == 16 * slots.len(),
    decreases slots.len(),
{
    if slots.len() > 0 {
        lemma_table_bytes_len(slots.drop_last());
    }
}

/// The length of an index.
pub proof fn lemma_index_bytes_len(entries: Seq<(u64, u64)>, width: int)
    requires
        0 <= width,
    ensures
        index_bytes(entries, width).len() == 32 + 16 * table_len(entries, width),
{
    layout::lemma_longest_nonnegative(entries, width, entries.len() as int);
    lemma_table_bytes_len(table(entries, width));
}

/// The slot that `bytes` holds at place `k` of the table: empty if the hash is
/// [`u64::MAX`].
pub open spec fn read_slot(bytes: Seq<u8>, k: int) -> Option<(u64, u64)> {
    let start = 32 + 16 * k;
    let hash = u64_from_le(bytes.subrange(start, start + 8));
    if hash == u64::MAX {
        None
    } else {
        Some((hash, u64_from_le(bytes.subrange(start + 8, start + 16))))
    }
}

/// The table that the bytes of an index hold.
pub open spec fn read_table(bytes: Seq<u8>) -> Seq<Option<(u64, u64)>> {
    Seq::new(((bytes.len() - 32) / 16) as nat, |k: int| read_slot(bytes, k))
}

/// The three numbers of the header that the bytes of an index hold: longest
/// distance, collisions and buckets.
pub open spec fn read_header(bytes: Seq<u8>) -> (u64, u64, u64) {
    (
        u64_from_le(bytes.subrange(8, 16)),
        u64_from_le(bytes.subrange(16, 24)),
        u64_from_le(bytes.subrange(24, 32)),
    )
}

proof fn lemma_table_bytes_slot(slots: Seq<Option<(u64, u64)>>, k: int)
    requires
        0 <= k < slots.len(),
    ensures
        table_bytes(slots).len() == 16 * slots.len(),
        table_bytes(slots).subrange(16 * k, 16 * k + 16) == slot_bytes(slots[k]),
    decreases slots.len(),
{
    lemma_table_bytes_len(slots);
    lemma_table_bytes_len(slots.drop_last());
    let all = table_bytes(slots);
    let init = table_bytes(slots.drop_last());
    if k < slots.len() - 1 {
        lemma_table_bytes_slot(slots.drop_last(), k);
        assert(all.subrange(16 * k, 16 * k + 16) =~= init.subrange(16 * k, 16 * k + 16));
    } else {
        assert(all.subrange(16 * k, 16 * k + 16) =~= slot_bytes(slots[k]));
    }
}

/// Reading the bytes of an index gives back its version, its header and every
/// slot of its table.
pub proof fn lemma_read_index(entries: Seq<(u64, u64)>, width: int)
    requires
        0 <= width <= u64::MAX,
        forall|i: int| 0 <= i < entries.len() ==> (#[trigger] entries[i]).0 < u64::MAX,
    ensures
        u64_from_le(index_bytes(entries, width).subrange(0, 8)) == Version::V1.magic(),
        read_header(index_bytes(entries, width)) == (
            longest(entries, width, entries.len() as int) as u64,
            collision_count(entries) as u64,
            width as u64,
        ),
        read_table(index_bytes(entries, width)) == table(entries, width),
{
    let bytes = index_bytes(entries, width);
    let slots = table(entries, width);
    let magic = Version::V1.magic();
    let (a, b, c) = (
        longest(entries, width, entries.len() as int) as u64,
        collision_count(entries) as u64,
        width as u64,
    );
    lemma_index_bytes_len(entries, width);
    lemma_u64_le_round_trip(magic);
    lemma_u64_le_round_trip(a);
    lemma_u64_le_round_trip(b);
    lemma_u64_le_round_trip(c);
    assert(bytes.subrange(0, 8) =~= u64_le(magic));
    assert(bytes.subrange(8, 16) =~= u64_le(a));
    assert(bytes.subrange(16, 24) =~= u64_le(b));
    assert(bytes.subrange(24, 32) =~= u64_le(c));
    layout::lemma_longest_nonnegative(entries, width, entries.len() as int);
    assert(read_table(bytes).len() == slots.len());
    assert forall|k: int| 0 <= k < slots.len() implies read_slot(bytes, k) == slots[k] by {
        lemma_table_bytes_slot(slots, k);
        let start = 32 + 16 * k;
        let raw = raw_slot(slots[k]);
        let stored = table_bytes(slots).subrange(16 * k, 16 * k + 16);
        lemma_u64_le_round_trip(raw.0);
        lemma_u64_le_round_trip(raw.1);
        assert(bytes.subrange(start, start + 8) =~= stored.subrange(0, 8));
        assert(bytes.subrange(start + 8, start + 16) =~= stored.subrange(8, 16));
        assert(stored.subrange(0, 8) =~= u64_le(raw.0));
        assert(stored.subrange(8, 16) =~= u64_le(raw.1));
        if exists|i: int| layout::holds(entries, width, k, i) {
            let i = choose|i: int| layout::holds(entries, width, k, i);
            assert(slots[k] == Some(entries[i]));
            assert(entries[i].0 < u64::MAX);
        }
    }
    assert(read_table(bytes) =~= slots);
}

/// What the numbers of a header mean for a table. Every entry stands at or
/// behind its ideal slot for that many buckets, within the longest distance,
/// which some entry reaches. Behind the buckets and as many slots as the longest
/// distance there is one more, which is empty. An entry that is not in its ideal
/// slot stands right behind another one.
pub open spec fn numbers_hold(
    slots: Seq<Option<(u64, u64)>>,
    entries: Seq<(u64, u64)>,
    longest_distance: int,
    buckets: int,
) -> bool {
    &&& slots.len() == buckets + longest_distance + 1
    &&& slots.last() is None
    &&& forall|i: int|
        0 <= i < entries.len() ==> stands_within(
            slots,
            buckets,
            longest_distance,
            #[trigger] entries[i],
        )
    &&& exists|i: int|
        0 <= i < entries.len() && slots[hash::ideal((#[trigger] entries[i]).0, buckets)
            + longest_distance] == Some(entries[i])
    &&& forall|k: int|
        0 <= k < slots.len() && (#[trigger] slots[k]) is Some ==> k == hash::ideal(
            (slots[k]->0).0,
            buckets,
        ) || (0 < k && slots[k - 1] is Some)
}

proof fn lemma_numbers_hold(entries: Seq<(u64, u64)>, width: int)
    requires
        strictly_sorted(entries),
        0 < entries.len() <= width,
    ensures
        numbers_hold(
            table(entries, width),
            entries,
            longest(entries, width, entries.len() as int),
            width,
        ),
{
    let n = entries.len() as int;
    let slots = table(entries, width);
    let far = longest(entries, width, n);
    layout::lemma_longest_nonnegative(entries, width, n);
    layout::lemma_scan_stays_inside(entries, width, 0);
    assert forall|i: int| 0 <= i < n implies stands_within(
        slots,
        width,
        far,
        #[trigger] entries[i],
    ) by {
        layout::lemma_entry_within_longest_distance(entries, width, i);
        layout::lemma_slot_of_entry(entries, width, i);
        let k = layout::position(entries, width, i);
        assert(slots[k] == Some(entries[i]));
    }
    assert(exists|i: int|
        0 <= i < entries.len() && slots[hash::ideal((#[trigger] entries[i]).0, width) + far]
            == Some(entries[i])) by {
        layout::lemma_longest_attained(entries, width, n);
        let i = choose|i: int|
            0 <= i < n && #[trigger] layout::distance(entries, width, i) == far;
        layout::lemma_entry_within_longest_distance(entries, width, i);
        assert(slots[hash::ideal(entries[i].0, width) + far] == Some(entries[i]));
    }
    assert forall|k: int| 0 <= k < slots.len() && (#[trigger] slots[k]) is Some implies k
        == hash::ideal((slots[k]->0).0, width) || (0 < k && slots[k - 1] is Some) by {
        let i = choose|i: int| layout::holds(entries, width, k, i);
        assert(slots[k] == Some(entries[i]));
        layout::lemma_position_step(entries, width, i);
        if k > hash::ideal(entries[i].0, width) {
            layout::lemma_no_needless_padding(entries, width, i);
            layout::lemma_position_step(entries, width, i - 1);
            layout::lemma_slot_of_entry(entries, width, i - 1);
        }
    }
}

/// The numbers at the start of an index hold of the table behind them, and there
/// are five buckets for every four entries.
pub proof fn lemma_index_numbers(entries: Seq<(u64, u64)>)
    requires
        strictly_sorted(entries),
        0 < entries.len(),
        fits(entries.len()),
        forall|i: int| 0 <= i < entries.len() ==> (#[trigger] entries[i]).0 < u64::MAX,
    ensures
        ({
            let bytes = index_bytes(entries, width_for(entries.len()));
            let (longest_distance, _, buckets) = read_header(bytes);
            &&& u64_from_le(bytes.subrange(0, 8)) == 0xdead_bef0
            &&& buckets == entries.len() + entries.len() / 4
            &&& bytes.len() == 32 + 16 * (buckets + longest_distance + 1)
            &&& numbers_hold(
                read_table(bytes),
                entries,
                longest_distance as int,
                buckets as int,
            )
        }),
{
    let n = entries.len() as int;
    let width = width_for(entries.len());
    lemma_read_index(entries, width);
    lemma_index_bytes_len(entries, width);
    layout::lemma_longest_nonnegative(entries, width, n);
    layout::lemma_longest_below_len(entries, width, n);
    lemma_numbers_hold(entries, width);
}

/// An entry stands at or behind its ideal slot, at most that far from it.
pub open spec fn stands_within(
    slots: Seq<Option<(u64, u64)>>,
    buckets: int,
    longest_distance: int,
    entry: (u64, u64),
) -> bool {
    exists|k: int|
        {
            &&& 0 <= k < slots.len()
            &&& #[trigger] slots[k] == Some(entry)
            &&& hash::ideal(entry.0, buckets) <= k <= hash::ideal(entry.0, buckets)
                + longest_distance
        }
}

/// On disk, an empty slot is sixteen bytes of ones, and an entry is its hash and
/// its frame offset.
pub proof fn lemma_slot_bytes_read_back(slot: Option<(u64, u64)>)
    ensures
        slot_bytes(slot).len() == 16,
        slot is None ==> forall|k: int| 0 <= k < 16 ==> #[trigger] slot_bytes(slot)[k] == 0xff,
        slot matches Some((hash, offset)) ==> u64_from_le(slot_bytes(slot).take(8)) == hash
            && u64_from_le(slot_bytes(slot).skip(8)) == offset,
{
    match slot {
        None => {
            assert(u64::MAX as u8 == 0xff && (u64::MAX >> 8) as u8 == 0xff && (u64::MAX
                >> 16) as u8 == 0xff && (u64::MAX >> 24) as u8 == 0xff && (u64::MAX >> 32) as u8
                == 0xff && (u64::MAX >> 40) as u8 == 0xff && (u64::MAX >> 48) as u8 == 0xff && (
            u64::MAX >> 56) as u8 == 0xff) by (bit_vector);
        },
        Some((hash, offset)) => {
            lemma_u64_le_round_trip(hash);
            lemma_u64_le_round_trip(offset);
            assert(slot_bytes(slot).take(8) =~= u64_le(hash));
            assert(slot_bytes(slot).skip(8) =~= u64_le(offset));
        },
    }
}

/// An index finds exactly what was put into it: scanning the bytes that are
/// written for `raw` gives, for every hash, the frame offsets that `raw` pairs
/// with it, and no others.
pub proof fn lemma_index_finds_exactly(
    raw: Seq<(u64, u64)>,
    entries: Seq<(u64, u64)>,
    hash: u64,
    offset: u64,
)
    requires
        is_sorted_set_of(entries, raw),
        fits(entries.len()),
        forall|e: (u64, u64)| #[trigger] raw.contains(e) ==> e.0 < u64::MAX,
    ensures
        ({
            let bytes = index_bytes(entries, width_for(entries.len()));
            layout::lookup(read_table(bytes), read_header(bytes).2 as int, hash).contains(offset)
        }) <==> raw.contains((hash, offset)),
{
    let width = width_for(entries.len());
    assert forall|i: int| 0 <= i < entries.len() implies (#[trigger] entries[i]).0 < u64::MAX by {
        assert(entries.contains(entries[i]));
        assert(raw.contains(entries[i]));
    }
    lemma_read_index(entries, width);
    layout::lemma_lookup_exact(entries, width, hash, offset);
    assert(entries.contains((hash, offset)) <==> raw.contains((hash, offset)));
}

/// Whether a table can be made for that many entries: the number of buckets is
/// exact while it can be told apart from its neighbours in 53 bits, and all
/// slots can be counted.
pub open spec fn fits(len: nat) -> bool {
    &&& len * 5 < 0x20_0000_0000_0000
    &&& len * 3 < usize::MAX
}

/// Whether a table can be made for the entries, of which repeated ones count
/// once.
pub open spec fn all_fit(raw: Seq<(u64, u64)>) -> bool {
    fits(raw.len()) || fits(sorted_set(raw).len())
}

/// The number of buckets for that many entries at a load factor of four fifths,
/// rounded down.
pub open spec fn width_for(len: nat) -> int {
    (len * 5) as int / 4
}

/// The number of buckets for `slots_len` entries, if there are any.
pub fn initial_width(slots_len: usize) -> (r: Option<usize>)
    requires
        fits(slots_len as nat),
    ensures
        r == if slots_len == 0 {
            None
        } else {
            Some(width_for(slots_len as nat) as usize)
        },
        r matches Some(width) ==> width == width_for(slots_len as nat) && slots_len <= width,
{
    if slots_len == 0 {
        None
    } else {
        Some((slots_len as u64 * 5 / 4) as usize)
    }
}

/// Orders entries by hash, then by frame offset.
///
/// Calls the standard library's `sort_unstable` on pairs of integers. The
/// contract claims that the pairs end up in lexicographic order and that none
/// is lost, added or changed.
#[verifier::external_body]
fn sort_entries(entries: &mut Vec<(u64, u64)>)
    ensures
        forall|i: int, j: int|
            0 <= i < j < final(entries).len() ==> !layout::entry_lt(
                #[trigger] final(entries)@[j],
                #[trigger] final(entries)@[i],
            ),
        final(entries)@.to_multiset() == old(entries)@.to_multiset(),
{
    entries.sort_unstable()
}

/// Drops repeated entries.
fn dedup_entries(entries: &Vec<(u64, u64)>) -> (r: Vec<(u64, u64)>)
    requires
        forall|i: int, j: int|
            0 <= i < j < entries.len() ==> !layout::entry_lt(
                #[trigger] entries@[j],
                #[trigger] entries@[i],
            ),
    ensures
        is_sorted_set_of(r@, entries@),
        r.len() <= entries.len(),
{
    let mut unique: Vec<(u64, u64)> = Vec::new();
    let mut i: usize = 0;
    while i < entries.len()
        invariant
            i <= entries.len(),
            unique.len() <= i,
            forall|a: int, b: int|
                0 <= a < b < entries.len() ==> !layout::entry_lt(
                    #[trigger] entries@[b],
                    #[trigger] entries@[a],
                ),
            i > 0 ==> unique.len() > 0 && unique@.last() == entries@[i - 1],
            strictly_sorted(unique@),
            forall|a: int| 0 <= a < unique.len() ==> entries@.contains(#[trigger] unique@[a]),
            forall|a: int| 0 <= a < i ==> unique@.contains(#[trigger] entries@[a]),
        decreases entries.len() - i,
    {
        let (hash, offset) = entries[i];
        let ghost before = unique@;
        if i == 0 || entries[i - 1].0 != hash || entries[i - 1].1 != offset {
            if i > 0 {
                assert(!layout::entry_lt(entries@[i as int], entries@[i - 1]));
            }
            unique.push((hash, offset));
            proof {
                assert(entries@.contains(entries@[i as int]));
                assert(unique@[before.len() as int] == entries@[i as int]);
                assert forall|a: int, b: int| 0 <= a < b < unique.len() implies layout::entry_lt(
                    #[trigger] unique@[a],
                    #[trigger] unique@[b],
                ) by {
                    if b == before.len() && a < before.len() - 1 {
                        assert(layout::entry_lt(before[a], before[before.len() - 1]));
                    }
                }
                assert forall|a: int| 0 <= a < i + 1 implies unique@.contains(
                    #[trigger] entries@[a],
                ) by {
                    if a < i {
                        assert(before.contains(entries@[a]));
                        let b = choose|b: int| 0 <= b < before.len() && before[b] == entries@[a];
                        assert(unique@[b] == entries@[a]);
                    }
                }
            }
        }
        i += 1;
    }
    assert forall|e: (u64, u64)| #[trigger] unique@.contains(e) <==> entries@.contains(e) by {
        if unique@.contains(e) {
            let a = choose|a: int| 0 <= a < unique.len() && unique@[a] == e;
            assert(entries@.contains(unique@[a]));
        }
        if entries@.contains(e) {
            let a = choose|a: int| 0 <= a < entries.len() && entries@[a] == e;
            assert(unique@.contains(entries@[a]));
        }
    }
    unique
}

/// Counts the entries that share their hash with an earlier one.
fn count_collisions(entries: &Vec<(u64, u64)>) -> (r: usize)
    requires
        strictly_sorted(entries@),
    ensures
        r == collision_count(entries@),
{
    let mut collisions: usize = 0;
    let mut i: usize = 0;
    assert(layout::hashes(entries@.take(0)) =~= Set::empty());
    while i < entries.len()
        invariant
            i <= entries.len(),
            strictly_sorted(entries@),
            collisions <= i,
            layout::hashes(entries@.take(i as int)).finite(),
            collisions == collision_count(entries@.take(i as int)),
        decreases entries.len() - i,
    {
        proof {
            layout::lemma_hashes_push(entries@, i as int);
        }
        if i > 0 && entries[i - 1].0 == entries[i].0 {
            collisions += 1;
        }
        i += 1;
    }
    assert(entries@.take(i as int) =~= entries@);
    collisions
}

/// Puts the entries into rows, and finds the longest distance.
fn lay_out(entries: &Vec<(u64, u64)>, width: usize) -> (r: (Vec<(usize, OccupiedSlot)>, usize))
    requires
        0 < width,
        entries.len() + width <= usize::MAX,
        forall|i: int| 0 <= i < entries.len() ==> (#[trigger] entries@[i]).0 < u64::MAX,
    ensures
        rows_match(rows_view(r.0@), entries@, width as int),
        r.0.len() == entries.len(),
        forall|i: int| 0 <= i < entries.len() ==> (#[trigger] r.0@[i]).1@ == entries@[i],
        r.1 == longest(entries@, width as int, entries.len() as int),
{
    let mut rows: Vec<(usize, OccupiedSlot)> = Vec::new();
    let mut total_padding: usize = 0;
    let mut longest_distance: usize = 0;
    let mut i: usize = 0;
    while i < entries.len()
        invariant
            i <= entries.len(),
            rows.len() == i,
            0 < width,
            entries.len() + width <= usize::MAX,
            i + total_padding == layout::position(entries@, width as int, i - 1) + 1,
            longest_distance == longest(entries@, width as int, i as int),
            forall|k: int| 0 <= k < entries.len() ==> (#[trigger] entries@[k]).0 < u64::MAX,
            forall|k: int|
                0 <= k < i ==> (#[trigger] rows@[k]).0 == padding(entries@, width as int, k)
                    && rows@[k].1@ == entries@[k],
        decreases entries.len() - i,
    {
        proof {
            layout::lemma_position_bound(entries@, width as int, i as int);
            layout::lemma_position_step(entries@, width as int, i as int);
        }
        let (raw_hash, frame_offset) = entries[i];
        let hash = NonMaximalU64::from_raw(raw_hash);
        let ix: usize = i + total_padding;
        let ideal_ix = ideal_slot_ix(hash, width);
        let pre_padding: usize = if ideal_ix > ix {
            ideal_ix - ix
        } else {
            0
        };
        let actual_ix: usize = ix + pre_padding;
        let distance: usize = actual_ix - ideal_ix;
        if distance > longest_distance {
            longest_distance = distance;
        }
        total_padding = total_padding + pre_padding;
        rows.push((pre_padding, OccupiedSlot { hash, frame_offset }));
        i += 1;
    }
    (rows, longest_distance)
}

/// The entries for identifiers and the offsets of their frames.
pub open spec fn summaries(pairs: Seq<(Cid, u64)>) -> Seq<(u64, u64)> {
    pairs.map_values(|pair: (Cid, u64)| (hash::summarized(pair.0@), pair.1))
}

/// Accumulator of CIDs and frame offsets for the hash table.
///
/// Call [`Builder::into_writer`] when the table is ready to be written.
pub struct Builder {
    entries: Vec<(u64, u64)>,
}

impl View for Builder {
    type V = Seq<(u64, u64)>;

    closed spec fn view(&self) -> Seq<(u64, u64)> {
        self.entries@
    }
}

impl Default for Builder {
    fn default() -> (r: Self)
        ensures
            r@ == Seq::<(u64, u64)>::empty(),
    {
        Self::new()
    }
}

impl Builder {
    #[verifier::type_invariant]
    spec fn inv(self) -> bool {
        forall|i: int| 0 <= i < self.entries.len() ==> (#[trigger] self.entries@[i]).0 < u64::MAX
    }

    /// A builder without entries.
    pub fn new() -> (r: Self)
        ensures
            r@ == Seq::<(u64, u64)>::empty(),
    {
        Builder { entries: Vec::new() }
    }

    /// The number of entries, repeated ones included.
    pub fn len(&self) -> (r: usize)
        ensures
            r == self@.len(),
    {
        self.entries.len()
    }

    /// Adds an entry for each identifier, under its [summary](hash::summary).
    pub fn extend(&mut self, iter: Vec<(Cid, u64)>)
        ensures
            final(self)@ == old(self)@ + summaries(iter@),
            final(self)@.len() == old(self)@.len() + iter.len(),
            forall|i: int|
                0 <= i < iter.len() ==> #[trigger] final(self)@[old(self)@.len() + i] == (
                    hash::summarized(iter@[i].0@),
                    iter@[i].1,
                ),
    {
        let mut i: usize = 0;
        assert(self@ =~= old(self)@ + summaries(iter@.take(0)));
        while i < iter.len()
            invariant
                i <= iter.len(),
                self@ == old(self)@ + summaries(iter@.take(i as int)),
            decreases iter.len() - i,
        {
            let (cid, frame_offset) = iter[i];
            let ghost before = self@;
            self.push(hash::summary(&cid), frame_offset);
            assert(summaries(iter@.take(i + 1)) =~= summaries(iter@.take(i as int)).push(
                (hash::summarized(cid@), frame_offset),
            ));
            i += 1;
        }
        assert(iter@.take(i as int) =~= iter@);
    }

    /// Adds an entry for each hash.
    pub fn extend_hashes(&mut self, iter: Vec<(NonMaximalU64, u64)>)
        ensures
            final(self)@ == old(self)@ + iter@.map_values(
                |entry: (NonMaximalU64, u64)| (entry.0@, entry.1),
            ),
    {
        let ghost added = iter@.map_values(|entry: (NonMaximalU64, u64)| (entry.0@, entry.1));
        let mut i: usize = 0;
        assert(self@ =~= old(self)@ + added.take(0));
        while i < iter.len()
            invariant
                i <= iter.len(),
                added == iter@.map_values(|entry: (NonMaximalU64, u64)| (entry.0@, entry.1)),
                self@ == old(self)@ + added.take(i as int),
            decreases iter.len() - i,
        {
            let (hash, frame_offset) = iter[i];
            self.push(hash, frame_offset);
            assert(added.take(i + 1) =~= added.take(i as int).push(added[i as int]));
            i += 1;
        }
        assert(added.take(i as int) =~= added);
    }

    fn push(&mut self, hash: NonMaximalU64, frame_offset: u64)
        ensures
            final(self)@ == old(self)@.push((hash@, frame_offset)),
    {
        proof {
            use_type_invariant(&*self);
        }
        let mut entries: Vec<(u64, u64)> = Vec::new();
        std::mem::swap(&mut entries, &mut self.entries);
        let raw = hash.get();
        entries.push((raw, frame_offset));
        self.entries = entries;
    }

    /// Sorts and lays out the entries.
    pub fn into_writer(self) -> (r: Writer)
        requires
            all_fit(self@),
        ensures
            r.entries() == sorted_set(self@),
            is_sorted_set_of(r.entries(), self@),
            r.width() == width_for(r.entries().len()),
            r.width() == r.entries().len() + r.entries().len() / 4,
            forall|i: int, j: int|
                0 <= i < j < r.entries().len() ==> (#[trigger] r.entries()[i]).0 < (
                #[trigger] r.entries()[j]).0 || (r.entries()[i].0 == r.entries()[j].0
                    && r.entries()[i].1 < r.entries()[j].1),
            forall|e: (u64, u64)| #[trigger] r.entries().contains(e) <==> self@.contains(e),
    {
        proof {
            use_type_invariant(&self);
        }
        let mut sorted = self.entries;
        let ghost raw = sorted@;
        // First, sort by hash
        sort_entries(&mut sorted);
        let entries = dedup_entries(&sorted);
        proof {
            broadcast use vstd::seq_lib::group_to_multiset_ensures;

            assert(sorted@.len() == raw.len()) by {
                assert(sorted@.to_multiset().len() == raw.to_multiset().len());
            }
            assert forall|e: (u64, u64)| #[trigger] entries@.contains(e) <==> raw.contains(e) by {
                assert(sorted@.contains(e) <==> sorted@.to_multiset().count(e) > 0);
                assert(raw.contains(e) <==> raw.to_multiset().count(e) > 0);
            }
            assert(is_sorted_set_of(entries@, raw));
            layout::lemma_is_sorted_set(entries@, raw);
            assert forall|i: int| 0 <= i < entries.len() implies (#[trigger] entries@[i]).0
                < u64::MAX by {
                assert(entries@.contains(entries@[i]));
                assert(raw.contains(entries@[i]));
            }
        }
        match initial_width(entries.len()) {
            None => {
                let slots: Vec<(usize, OccupiedSlot)> = Vec::new();
                proof {
                    assert(slots@.map_values(|row: (usize, OccupiedSlot)| row.1@) =~= entries@);
                    assert(layout::hashes(entries@) =~= Set::empty());
                }
                let writer = Writer {
                    version: Version::V1,
                    header: V1Header { longest_distance: 0, collisions: 0, initial_buckets: 0 },
                    slots,
                };
                writer
            },
            Some(width) => {
                let collisions = count_collisions(&entries);
                let (slots, longest_distance) = lay_out(&entries, width);
                proof {
                    assert(slots@.map_values(|row: (usize, OccupiedSlot)| row.1@) =~= entries@);
                    layout::lemma_longest_below_len(
                        entries@,
                        width as int,
                        entries.len() as int,
                    );
                }
                let writer = Writer {
                    version: Version::V1,
                    header: V1Header {
                        longest_distance: longest_distance as u64,
                        collisions: collisions as u64,
                        initial_buckets: width as u64,
                    },
                    slots,
                };
                writer
            },
        }
    }
}

} // verus!
