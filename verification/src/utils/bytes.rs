//! Fixed-width and variable-length integer encodings.

use byteorder::{LittleEndian, WriteBytesExt};
use integer_encoding::VarInt;
use vstd::prelude::*;

verus! {

/// The eight bytes of `v`, least significant first.
pub open spec fn u64_le(v: u64) -> Seq<u8> {
    seq![
        v as u8,
        (v >> 8) as u8,
        (v >> 16) as u8,
        (v >> 24) as u8,
        (v >> 32) as u8,
        (v >> 40) as u8,
        (v >> 48) as u8,
        (v >> 56) as u8,
    ]
}

/// The value of eight bytes, least significant first.
pub open spec fn u64_from_le(s: Seq<u8>) -> u64 {
    s[0] as u64 | (s[1] as u64) << 8 | (s[2] as u64) << 16 | (s[3] as u64) << 24
        | (s[4] as u64) << 32 | (s[5] as u64) << 40 | (s[6] as u64) << 48 | (s[7] as u64) << 56
}

/// The eight bytes of `v`, most significant first.
pub open spec fn u64_be(v: u64) -> Seq<u8> {
    u64_le(v).reverse()
}

/// The value of eight bytes, most significant first.
pub open spec fn u64_from_be(s: Seq<u8>) -> u64 {
    u64_from_le(s.reverse())
}

/// The four bytes of `v`, least significant first.
pub open spec fn u32_le(v: u32) -> Seq<u8> {
    seq![v as u8, (v >> 8) as u8, (v >> 16) as u8, (v >> 24) as u8]
}

/// The variable-length encoding of `n`: seven bits to a byte, least
/// significant first, the high bit set on every byte but the last.
pub open spec fn uvarint(n: nat) -> Seq<u8>
    decreases n,
{
    if n < 128 {
        seq![n as u8]
    } else {
        seq![(n % 128 + 128) as u8] + uvarint(n / 128)
    }
}

/// Reading back the eight bytes of an integer gives the integer.
pub proof fn lemma_u64_le_round_trip(v: u64)
    ensures
        u64_le(v).len() == 8,
        u64_from_le(u64_le(v)) == v,
        u64_be(v).len() == 8,
        u64_from_be(u64_be(v)) == v,
{
    assert((v as u8) as u64 | ((v >> 8) as u8 as u64) << 8 | ((v >> 16) as u8 as u64) << 16 | ((v
        >> 24) as u8 as u64) << 24 | ((v >> 32) as u8 as u64) << 32 | ((v >> 40) as u8 as u64) << 40
        | ((v >> 48) as u8 as u64) << 48 | ((v >> 56) as u8 as u64) << 56 == v) by (bit_vector);
    assert(u64_be(v).reverse() =~= u64_le(v));
}

/// Two eight-byte strings with the same value are the same string.
pub proof fn lemma_u64_from_le_round_trip(s: Seq<u8>)
    requires
        s.len() == 8,
    ensures
        u64_le(u64_from_le(s)) == s,
{
    let (a, b, c, d) = (s[0], s[1], s[2], s[3]);
    let (e, f, g, h) = (s[4], s[5], s[6], s[7]);
    let v = a as u64 | (b as u64) << 8 | (c as u64) << 16 | (d as u64) << 24 | (e as u64) << 32 | (
    f as u64) << 40 | (g as u64) << 48 | (h as u64) << 56;
    assert(v as u8 == a && (v >> 8) as u8 == b && (v >> 16) as u8 == c && (v >> 24) as u8 == d && (v
        >> 32) as u8 == e && (v >> 40) as u8 == f && (v >> 48) as u8 == g && (v >> 56) as u8 == h)
        by (bit_vector)
        requires
            v == a as u64 | (b as u64) << 8 | (c as u64) << 16 | (d as u64) << 24 | (e as u64) << 32
                | (f as u64) << 40 | (g as u64) << 48 | (h as u64) << 56,
    ;
    assert(u64_le(u64_from_le(s)) =~= s);
}

/// Eight bytes, least significant first, are the digits of their value to the
/// base 256.
pub proof fn lemma_u64_from_le_value(s: Seq<u8>)
    requires
        s.len() == 8,
    ensures
        u64_from_le(s) == s[0] + s[1] * 0x100 + s[2] * 0x1_0000 + s[3] * 0x100_0000 + s[4]
            * 0x1_0000_0000 + s[5] * 0x100_0000_0000 + s[6] * 0x1_0000_0000_0000 + s[7]
            * 0x100_0000_0000_0000,
{
    let (a, b, c, d) = (s[0] as u64, s[1] as u64, s[2] as u64, s[3] as u64);
    let (e, f, g, h) = (s[4] as u64, s[5] as u64, s[6] as u64, s[7] as u64);
    assert(a | b << 8 | c << 16 | d << 24 | e << 32 | f << 40 | g << 48 | h << 56 == a + b * 0x100
        + c * 0x1_0000 + d * 0x100_0000 + e * 0x1_0000_0000 + f * 0x100_0000_0000 + g
        * 0x1_0000_0000_0000 + h * 0x100_0000_0000_0000) by (bit_vector)
        requires
            a < 256,
            b < 256,
            c < 256,
            d < 256,
            e < 256,
            f < 256,
            g < 256,
            h < 256,
    ;
}

/// The eight bytes of an integer are its digits to the base 256, least
/// significant first, or most significant first.
pub proof fn lemma_u64_bytes_value(v: u64)
    ensures
        ({
            let s = u64_le(v);
            &&& s.len() == 8
            &&& v == s[0] + s[1] * 0x100 + s[2] * 0x1_0000 + s[3] * 0x100_0000 + s[4]
                * 0x1_0000_0000 + s[5] * 0x100_0000_0000 + s[6] * 0x1_0000_0000_0000 + s[7]
                * 0x100_0000_0000_0000
        }),
        ({
            let s = u64_be(v);
            &&& s.len() == 8
            &&& v == s[7] + s[6] * 0x100 + s[5] * 0x1_0000 + s[4] * 0x100_0000 + s[3]
                * 0x1_0000_0000 + s[2] * 0x100_0000_0000 + s[1] * 0x1_0000_0000_0000 + s[0]
                * 0x100_0000_0000_0000
        }),
{
    lemma_u64_le_round_trip(v);
    lemma_u64_from_le_value(u64_le(v));
}

/// Eight bytes, most significant first, are the digits of their value to the
/// base 256.
pub proof fn lemma_u64_from_be_value(s: Seq<u8>)
    requires
        s.len() == 8,
    ensures
        u64_from_be(s) == s[7] + s[6] * 0x100 + s[5] * 0x1_0000 + s[4] * 0x100_0000 + s[3]
            * 0x1_0000_0000 + s[2] * 0x100_0000_0000 + s[1] * 0x1_0000_0000_0000 + s[0]
            * 0x100_0000_0000_0000,
{
    lemma_u64_from_le_value(s.reverse());
}

/// The four bytes of an integer are its digits to the base 256, least
/// significant first.
pub proof fn lemma_u32_le_value(v: u32)
    ensures
        ({
            let s = u32_le(v);
            &&& s.len() == 4
            &&& v == s[0] + s[1] * 0x100 + s[2] * 0x1_0000 + s[3] * 0x100_0000
        }),
{
    let s = u32_le(v);
    assert(v == (v as u8) as u32 + ((v >> 8) as u8) as u32 * 0x100 + ((v >> 16) as u8) as u32
        * 0x1_0000 + ((v >> 24) as u8) as u32 * 0x100_0000) by (bit_vector);
}

/// The number that bytes stand for when each holds seven bits of it, least
/// significant first.
pub open spec fn seven_bit_value(bytes: Seq<u8>) -> nat
    decreases bytes.len(),
{
    if bytes.len() == 0 {
        0
    } else {
        bytes[0] as nat % 128 + 128 * seven_bit_value(bytes.drop_first())
    }
}

/// A variable-length integer can be read: its bytes hold seven bits each, and
/// all but the last have the high bit set.
pub proof fn lemma_uvarint_value(n: nat)
    ensures
        seven_bit_value(uvarint(n)) == n,
        uvarint(n).len() > 0,
        uvarint(n).last() < 128,
        forall|i: int| 0 <= i < uvarint(n).len() - 1 ==> #[trigger] uvarint(n)[i] >= 128,
    decreases n,
{
    if n < 128 {
        assert(uvarint(n).drop_first() =~= Seq::empty());
        assert(seven_bit_value(uvarint(n).drop_first()) == 0);
    } else {
        lemma_uvarint_value(n / 128);
        let rest = uvarint(n / 128);
        assert(uvarint(n).drop_first() =~= rest);
        assert forall|i: int| 0 <= i < uvarint(n).len() - 1 implies #[trigger] uvarint(n)[i]
            >= 128 by {
            if i > 0 {
                assert(uvarint(n)[i] == rest[i - 1]);
            }
        }
    }
}

/// The variable-length integer at the start of some bytes, and what follows it.
pub open spec fn read_uvarint(bytes: Seq<u8>) -> (nat, Seq<u8>)
    decreases bytes.len(),
{
    if bytes.len() == 0 {
        (0, bytes)
    } else if bytes[0] < 128 {
        (bytes[0] as nat, bytes.drop_first())
    } else {
        let (high, rest) = read_uvarint(bytes.drop_first());
        ((bytes[0] - 128 + 128 * high) as nat, rest)
    }
}

/// What is written as a variable-length integer is read back, whatever follows.
pub proof fn lemma_read_uvarint(n: nat, rest: Seq<u8>)
    ensures
        read_uvarint(uvarint(n) + rest) == (n, rest),
    decreases n,
{
    let bytes = uvarint(n) + rest;
    if n < 128 {
        assert(bytes.drop_first() =~= rest);
    } else {
        lemma_read_uvarint(n / 128, rest);
        assert(bytes.drop_first() =~= uvarint(n / 128) + rest);
    }
}

/// A variable-length integer takes between one and ten bytes.
pub proof fn lemma_uvarint_len(n: nat)
    requires
        n <= u64::MAX,
    ensures
        1 <= uvarint(n).len() <= 10,
{
    reveal_with_fuel(uvarint, 11);
}

/// A variable-length integer says by itself where it ends.
pub proof fn lemma_uvarint_prefix_free(a: nat, b: nat, x: Seq<u8>, y: Seq<u8>)
    requires
        uvarint(a) + x == uvarint(b) + y,
    ensures
        a == b,
        x == y,
    decreases a,
{
    let left = uvarint(a) + x;
    let right = uvarint(b) + y;
    assert(left[0] == uvarint(a)[0]);
    assert(right[0] == uvarint(b)[0]);
    if a < 128 {
        assert(left[0] == a as u8 && a as u8 == a);
        assert(b < 128) by {
            if b >= 128 {
                assert(right[0] == (b % 128 + 128) as u8);
            }
        }
        assert(x =~= left.drop_first());
        assert(y =~= right.drop_first());
    } else {
        assert(left[0] == (a % 128 + 128) as u8);
        assert(b >= 128) by {
            if b < 128 {
                assert(right[0] == b as u8);
            }
        }
        assert(right[0] == (b % 128 + 128) as u8);
        assert(uvarint(a / 128) + x =~= left.drop_first());
        assert(uvarint(b / 128) + y =~= right.drop_first());
        lemma_uvarint_prefix_free(a / 128, b / 128, x, y);
    }
}

/// Appends an integer as eight bytes, least significant first.
///
/// Calls `byteorder::WriteBytesExt::write_u64` with `LittleEndian`. The
/// contract claims that it appends those eight bytes and touches nothing else:
/// a vector grows as needed, so the write does not fail.
#[verifier::external_body]
pub(crate) fn write_u64_le(out: &mut Vec<u8>, v: u64)
    ensures
        final(out)@ == old(out)@ + u64_le(v),
{
    out.write_u64::<LittleEndian>(v).unwrap()
}

/// The variable-length encoding of an integer.
///
/// Calls `integer_encoding::VarInt::encode_var_vec` on a `u64`. The contract
/// claims that it returns seven bits to a byte, least significant first, with
/// the high bit marking that more bytes follow.
#[verifier::external_body]
pub(crate) fn encode_var_vec(n: u64) -> (r: Vec<u8>)
    ensures
        r@ == uvarint(n as nat),
{
    n.encode_var_vec()
}

/// Whether two byte strings are equal.
pub fn bytes_eq(a: &[u8], b: &[u8]) -> (r: bool)
    ensures
        r == (a@ == b@),
{
    if a.len() != b.len() {
        return false;
    }
    let mut i: usize = 0;
    while i < a.len()
        invariant
            i <= a.len(),
            a.len() == b.len(),
            forall|j: int| 0 <= j < i ==> a@[j] == b@[j],
        decreases a.len() - i,
    {
        if a[i] != b[i] {
            return false;
        }
        i += 1;
    }
    assert(a@ =~= b@);
    true
}

} // verus!
