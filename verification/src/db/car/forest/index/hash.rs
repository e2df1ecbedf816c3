//! Hashes of the index and the slots that they would like to be in.

use crate::utils::bytes::u64_from_le;
use crate::utils::cid::{Cid, CidView};
use vstd::prelude::*;

verus! {

/// A `u64` that is never [`u64::MAX`], which marks an empty slot on disk.
#[derive(Debug, Clone, Copy, PartialEq, Eq, PartialOrd, Ord, Hash, Default)]
pub struct NonMaximalU64(u64);

impl View for NonMaximalU64 {
    type V = u64;

    closed spec fn view(&self) -> u64 {
        self.0
    }
}

impl NonMaximalU64 {
    #[verifier::type_invariant]
    spec fn below_max(self) -> bool {
        self.0 < u64::MAX
    }

    /// Squeezes a `u64` into the range: zero stays, everything else goes down
    /// by one.
    pub fn fit(u: u64) -> (r: Self)
        ensures
            r@ == fitted(u),
            u == 0 ==> r@ == 0,
            u > 0 ==> r@ == u - 1,
    {
        NonMaximalU64(if u == 0 { 0 } else { u - 1 })
    }

    /// A number that is known to be in range.
    pub(crate) fn from_raw(u: u64) -> (r: Self)
        requires
            u < u64::MAX,
        ensures
            r@ == u,
    {
        NonMaximalU64(u)
    }

    /// The number itself.
    pub fn get(&self) -> (r: u64)
        ensures
            r == self@,
            r < u64::MAX,
    {
        proof {
            use_type_invariant(self);
        }
        self.0
    }
}

/// Zero for zero, and one less for every other number.
pub open spec fn fitted(u: u64) -> u64 {
    if u == 0 {
        0
    } else {
        (u - 1) as u64
    }
}

/// `seed` combined by exclusive or with the first `n` groups of eight bytes,
/// each read with the least significant byte first.
pub open spec fn folded(digest: Seq<u8>, seed: u64, n: nat) -> u64
    decreases n,
{
    if n == 0 {
        seed
    } else {
        folded(digest, seed, (n - 1) as nat) ^ u64_from_le(
            digest.subrange(8 * n - 8, 8 * n as int),
        )
    }
}

/// The hash of an identifier: codec, hash code and all whole groups of eight
/// bytes of the digest.
pub open spec fn summarized(cid: CidView) -> u64 {
    fitted(folded(cid.digest, cid.codec ^ cid.code, cid.digest.len() / 8))
}

/// All whole groups of eight bytes, each read with the least significant byte
/// first, combined by exclusive or. Bytes behind the last whole group do not
/// count.
pub open spec fn groups_xor(digest: Seq<u8>) -> u64
    decreases digest.len(),
{
    if digest.len() < 8 {
        0
    } else {
        u64_from_le(digest.take(8)) ^ groups_xor(digest.skip(8))
    }
}

/// The hash before it is squeezed into the range.
pub open spec fn unfitted(cid: CidView) -> u64 {
    folded(cid.digest, cid.codec ^ cid.code, cid.digest.len() / 8)
}

proof fn lemma_folded_split(digest: Seq<u8>, seed: u64, n: nat)
    requires
        0 < n,
        8 * n <= digest.len(),
    ensures
        folded(digest, seed, n) == folded(
            digest.skip(8),
            seed ^ u64_from_le(digest.take(8)),
            (n - 1) as nat,
        ),
    decreases n,
{
    let rest = digest.skip(8);
    let first = u64_from_le(digest.take(8));
    if n > 1 {
        lemma_folded_split(digest, seed, (n - 1) as nat);
        assert(digest.subrange(8 * n - 8, 8 * n as int) =~= rest.subrange(
            8 * (n - 1) - 8,
            8 * (n - 1),
        ));
    } else {
        assert(digest.subrange(0, 8) =~= digest.take(8));
        assert(folded(digest, seed, 0) == seed);
    }
}

proof fn lemma_folded_is_xor(digest: Seq<u8>, seed: u64)
    ensures
        folded(digest, seed, digest.len() / 8) == seed ^ groups_xor(digest),
    decreases digest.len(),
{
    if digest.len() < 8 {
        assert(seed ^ 0 == seed) by (bit_vector);
    } else {
        let rest = digest.skip(8);
        let first = u64_from_le(digest.take(8));
        let others = groups_xor(rest);
        lemma_folded_split(digest, seed, digest.len() / 8);
        assert((digest.len() / 8 - 1) as nat == rest.len() / 8);
        lemma_folded_is_xor(rest, seed ^ first);
        assert(seed ^ first ^ others == seed ^ (first ^ others)) by (bit_vector);
    }
}

/// Every whole group of eight bytes of the digest counts: the hash is the
/// exclusive or of the codec, the hash code and all groups, with one taken off
/// unless it is zero.
pub proof fn lemma_summary_is_xor(cid: CidView)
    ensures
        unfitted(cid) == cid.codec ^ cid.code ^ groups_xor(cid.digest),
        unfitted(cid) == 0 ==> summarized(cid) == 0,
        unfitted(cid) > 0 ==> summarized(cid) == unfitted(cid) - 1,
{
    lemma_folded_is_xor(cid.digest, cid.codec ^ cid.code);
}

proof fn lemma_xor_exchanged(a: Seq<u8>, b: Seq<u8>, i: int)
    requires
        a.len() == b.len(),
        0 <= i < a.len() as int / 8,
        a.take(8 * i) == b.take(8 * i),
        a.skip(8 * i + 8) == b.skip(8 * i + 8),
    ensures
        groups_xor(b) == groups_xor(a) ^ u64_from_le(a.subrange(8 * i, 8 * i + 8)) ^ u64_from_le(
            b.subrange(8 * i, 8 * i + 8),
        ),
    decreases i,
{
    let (x, y) = (u64_from_le(a.take(8)), u64_from_le(b.take(8)));
    let (p, q) = (groups_xor(a.skip(8)), groups_xor(b.skip(8)));
    if i == 0 {
        assert(a.subrange(0, 8) =~= a.take(8));
        assert(b.subrange(0, 8) =~= b.take(8));
        assert(y ^ p == (x ^ p) ^ x ^ y) by (bit_vector);
    } else {
        let (s, t) = (a.skip(8), b.skip(8));
        assert(a.take(8) =~= a.take(8 * i).take(8));
        assert(b.take(8) =~= b.take(8 * i).take(8));
        assert(s.take(8 * (i - 1)) =~= a.take(8 * i).skip(8));
        assert(t.take(8 * (i - 1)) =~= b.take(8 * i).skip(8));
        assert(s.skip(8 * (i - 1) + 8) =~= a.skip(8 * i + 8));
        assert(t.skip(8 * (i - 1) + 8) =~= b.skip(8 * i + 8));
        assert(s.subrange(8 * (i - 1), 8 * (i - 1) + 8) =~= a.subrange(8 * i, 8 * i + 8));
        assert(t.subrange(8 * (i - 1), 8 * (i - 1) + 8) =~= b.subrange(8 * i, 8 * i + 8));
        lemma_xor_exchanged(s, t, i - 1);
        let g = u64_from_le(a.subrange(8 * i, 8 * i + 8));
        let h = u64_from_le(b.subrange(8 * i, 8 * i + 8));
        assert(x ^ (p ^ g ^ h) == (x ^ p) ^ g ^ h) by (bit_vector);
    }
}

/// Exchanging one group of the digest for another changes the hash, before it is
/// squeezed into the range, by exactly their exclusive or. This holds of every
/// whole group.
pub proof fn lemma_summary_counts_every_group(a: CidView, b: CidView, i: int)
    requires
        a.codec == b.codec,
        a.code == b.code,
        a.digest.len() == b.digest.len(),
        0 <= i < a.digest.len() as int / 8,
        a.digest.take(8 * i) == b.digest.take(8 * i),
        a.digest.skip(8 * i + 8) == b.digest.skip(8 * i + 8),
    ensures
        unfitted(b) == unfitted(a) ^ u64_from_le(a.digest.subrange(8 * i, 8 * i + 8))
            ^ u64_from_le(b.digest.subrange(8 * i, 8 * i + 8)),
        summarized(a) == if unfitted(a) == 0 {
            0
        } else {
            unfitted(a) - 1
        },
        summarized(b) == if unfitted(b) == 0 {
            0
        } else {
            unfitted(b) - 1
        },
{
    lemma_summary_is_xor(a);
    lemma_summary_is_xor(b);
    lemma_xor_exchanged(a.digest, b.digest, i);
    let seed = a.codec ^ a.code;
    let x = groups_xor(a.digest);
    let g = u64_from_le(a.digest.subrange(8 * i, 8 * i + 8));
    let h = u64_from_le(b.digest.subrange(8 * i, 8 * i + 8));
    assert(seed ^ (x ^ g ^ h) == (seed ^ x) ^ g ^ h) by (bit_vector);
}

/// Codec and hash code count in the same way, and stand alone where the digest
/// has no whole group.
pub proof fn lemma_summary_counts_codes(a: CidView, b: CidView)
    requires
        a.digest == b.digest,
    ensures
        unfitted(b) == unfitted(a) ^ (a.codec ^ a.code) ^ (b.codec ^ b.code),
        a.digest.len() < 8 ==> unfitted(a) == a.codec ^ a.code,
{
    lemma_summary_is_xor(a);
    lemma_summary_is_xor(b);
    let (s, t) = (a.codec ^ a.code, b.codec ^ b.code);
    let x = groups_xor(a.digest);
    assert(t ^ x == (s ^ x) ^ s ^ t) by (bit_vector);
    if a.digest.len() < 8 {
        assert(s ^ 0 == s) by (bit_vector);
    }
}

/// Summarizes a [`Cid`]'s internal hash as a `u64`-sized hash.
pub fn summary(cid: &Cid) -> (r: NonMaximalU64)
    ensures
        r@ == summarized(cid@),
        ({
            let hash = cid@.codec ^ cid@.code ^ groups_xor(cid@.digest);
            r@ == if hash == 0 {
                0
            } else {
                hash - 1
            }
        }),
{
    proof {
        lemma_summary_is_xor(cid@);
    }
    let digest = cid.digest();
    let chunks: usize = digest.len() / 8;
    let mut hash: u64 = cid.codec() ^ cid.hash_code();
    let mut i: usize = 0;
    while i < chunks
        invariant
            i <= chunks,
            chunks == digest.len() / 8,
            digest@ == cid@.digest,
            hash == folded(digest@, cid@.codec ^ cid@.code, i as nat),
        decreases chunks - i,
    {
        let at: usize = i * 8;
        let chunk: u64 = digest[at] as u64 | (digest[at + 1] as u64) << 8 | (digest[at + 2] as u64)
            << 16 | (digest[at + 3] as u64) << 24 | (digest[at + 4] as u64) << 32 | (digest[at
            + 5] as u64) << 40 | (digest[at + 6] as u64) << 48 | (digest[at + 7] as u64) << 56;
        assert(chunk == u64_from_le(digest@.subrange(8 * i, 8 * i + 8)));
        hash = hash ^ chunk;
        i += 1;
    }
    NonMaximalU64::fit(hash)
}

/// The slot that a hash would like to be in, in a table of `num_buckets`
/// buckets: the range of a `u64` is cut into that many equal pieces.
pub open spec fn ideal(hash: u64, num_buckets: int) -> int {
    (hash * num_buckets) / 0x1_0000_0000_0000_0000
}

/// The ideal slot lies within the buckets.
pub proof fn lemma_ideal_in_range(hash: u64, num_buckets: int)
    requires
        0 < num_buckets,
    ensures
        0 <= ideal(hash, num_buckets) < num_buckets,
{
    assert(0 <= (hash * num_buckets) / 0x1_0000_0000_0000_0000 < num_buckets) by (nonlinear_arith)
        requires
            0 < num_buckets,
            0 <= hash < 0x1_0000_0000_0000_0000,
    ;
}

/// The range of hashes is cut into equal pieces, one for each bucket: the ideal
/// slot is the number of the piece that the hash lies in.
pub proof fn lemma_ideal_is_piece(hash: u64, num_buckets: int)
    requires
        0 < num_buckets,
    ensures
        ideal(hash, num_buckets) * 0x1_0000_0000_0000_0000 <= hash * num_buckets,
        hash * num_buckets < (ideal(hash, num_buckets) + 1) * 0x1_0000_0000_0000_0000,
{
}

/// A larger hash has an ideal slot that is at least as far along.
pub proof fn lemma_ideal_monotonic(a: u64, b: u64, num_buckets: int)
    requires
        a <= b,
        0 <= num_buckets,
    ensures
        ideal(a, num_buckets) <= ideal(b, num_buckets),
{
    assert(a * num_buckets <= b * num_buckets) by (nonlinear_arith)
        requires
            a <= b,
            0 <= num_buckets,
    ;
}

/// Desired slot for a hash with a given table length.
pub fn ideal_slot_ix(hash: NonMaximalU64, num_buckets: usize) -> (r: usize)
    requires
        num_buckets > 0,
    ensures
        r == ideal(hash@, num_buckets as int),
        r < num_buckets,
        r * 0x1_0000_0000_0000_0000 <= hash@ * num_buckets < (r + 1) * 0x1_0000_0000_0000_0000,
{
    let h: u64 = hash.get();
    proof {
        lemma_ideal_in_range(h, num_buckets as int);
        assert(h * num_buckets <= u128::MAX) by (nonlinear_arith)
            requires
                h <= u64::MAX,
                num_buckets <= u64::MAX,
        ;
    }
    let product: u128 = h as u128 * num_buckets as u128;
    assert(product >> 64 == product / 0x1_0000_0000_0000_0000) by (bit_vector);
    (product >> 64) as usize
}

} // verus!
