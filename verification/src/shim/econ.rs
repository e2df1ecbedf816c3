//! Big integers and amounts of tokens.

use crate::utils::bytes::bytes_eq;
use crate::utils::ipld::{content, IpldView};
use ipld_core::ipld::Ipld;
use vstd::prelude::*;

verus! {

/// The longest encoding of an integer, in bytes.
pub const MAX_BIGINT_SIZE: usize = 128;

/// An integer as its sign and the bytes of its magnitude, most significant
/// first.
#[verifier::ext_equal]
pub struct BigIntView {
    pub negative: bool,
    pub magnitude: Seq<u8>,
}

/// The encoding of an integer: nothing for zero; else a byte for the sign, then
/// the magnitude.
pub open spec fn bigint_bytes(value: BigIntView) -> Seq<u8> {
    if value.magnitude.len() == 0 {
        Seq::empty()
    } else {
        seq![if value.negative { 1u8 } else { 0u8 }] + value.magnitude
    }
}

/// Whether an integer has an encoding.
pub open spec fn bigint_encodable(value: BigIntView) -> bool {
    bigint_bytes(value).len() <= MAX_BIGINT_SIZE
}

/// The bytes without zeros in front.
pub open spec fn trimmed(bytes: Seq<u8>) -> Seq<u8>
    decreases bytes.len(),
{
    if bytes.len() > 0 && bytes[0] == 0 {
        trimmed(bytes.drop_first())
    } else {
        bytes
    }
}

/// Only zeros in front are taken away, and all of them.
pub proof fn lemma_trimmed_drops_zeros(bytes: Seq<u8>)
    ensures
        ({
            let n = bytes.len() - trimmed(bytes).len();
            &&& 0 <= n <= bytes.len()
            &&& trimmed(bytes) == bytes.skip(n)
            &&& forall|k: int| 0 <= k < n ==> #[trigger] bytes[k] == 0
            &&& n < bytes.len() ==> bytes[n] != 0
        }),
    decreases bytes.len(),
{
    if bytes.len() > 0 && bytes[0] == 0 {
        let rest = bytes.drop_first();
        lemma_trimmed_drops_zeros(rest);
        let n = bytes.len() - trimmed(bytes).len();
        assert(rest.skip(n - 1) =~= bytes.skip(n));
        assert forall|k: int| 0 <= k < n implies #[trigger] bytes[k] == 0 by {
            if k > 0 {
                assert(rest[k - 1] == bytes[k]);
            }
        }
    } else {
        assert(bytes.skip(0) =~= bytes);
    }
}

/// The number that bytes stand for, most significant first.
pub open spec fn big_endian_value(bytes: Seq<u8>) -> nat
    decreases bytes.len(),
{
    if bytes.len() == 0 {
        0
    } else {
        256 * big_endian_value(bytes.drop_last()) + bytes.last() as nat
    }
}

/// Taking zeros away in front leaves the number as it is.
pub proof fn lemma_trimmed_same_value(bytes: Seq<u8>)
    ensures
        big_endian_value(trimmed(bytes)) == big_endian_value(bytes),
    decreases bytes.len(),
{
    if bytes.len() > 0 && bytes[0] == 0 {
        lemma_leading_zero(bytes);
        lemma_trimmed_same_value(bytes.drop_first());
    }
}

proof fn lemma_leading_zero(bytes: Seq<u8>)
    requires
        bytes.len() > 0,
        bytes[0] == 0,
    ensures
        big_endian_value(bytes.drop_first()) == big_endian_value(bytes),
    decreases bytes.len(),
{
    if bytes.len() == 1 {
        assert(bytes.drop_first() =~= bytes.drop_last());
        assert(big_endian_value(bytes.drop_last()) == 0);
    } else {
        lemma_leading_zero(bytes.drop_last());
        assert(bytes.drop_first().drop_last() =~= bytes.drop_last().drop_first());
    }
}

/// An integer of any size.
#[derive(Debug, Hash)]
pub struct BigInt {
    negative: bool,
    /// Without zeros in front.
    magnitude: Vec<u8>,
}

impl View for BigInt {
    type V = BigIntView;

    closed spec fn view(&self) -> BigIntView {
        BigIntView { negative: self.negative, magnitude: self.magnitude@ }
    }
}

impl PartialEq for BigInt {
    fn eq(&self, other: &Self) -> (r: bool) {
        let same = self.negative == other.negative && bytes_eq(
            self.magnitude.as_slice(),
            other.magnitude.as_slice(),
        );
        assert(same == (self@ =~= other@));
        same
    }
}

impl Eq for BigInt {

}

impl vstd::std_specs::cmp::PartialEqSpecImpl for BigInt {
    open spec fn obeys_eq_spec() -> bool {
        true
    }

    open spec fn eq_spec(&self, other: &Self) -> bool {
        self@ == other@
    }
}

impl Clone for BigInt {
    fn clone(&self) -> (r: Self)
        ensures
            r@ == self@,
    {
        proof {
            use_type_invariant(self);
        }
        let magnitude = self.magnitude.clone();
        assert(magnitude@ =~= self.magnitude@);
        BigInt { negative: self.negative, magnitude }
    }
}

impl BigInt {
    #[verifier::type_invariant]
    spec fn inv(self) -> bool {
        &&& self.magnitude.len() > 0 ==> self.magnitude@[0] != 0
        &&& self.magnitude.len() == 0 ==> !self.negative
    }

    /// The integer with the given sign and magnitude, most significant byte
    /// first. Zero has no sign.
    pub fn from_bytes_be(negative: bool, bytes: &[u8]) -> (r: Self)
        ensures
            r@.magnitude == trimmed(bytes@),
            r@.negative == (negative && trimmed(bytes@).len() > 0),
            big_endian_value(r@.magnitude) == big_endian_value(bytes@),
            r@.magnitude.len() > 0 ==> r@.magnitude[0] != 0 && r@.negative == negative,
            r@.magnitude.len() == 0 ==> !r@.negative,
    {
        proof {
            lemma_trimmed_same_value(bytes@);
            lemma_trimmed_drops_zeros(bytes@);
        }
        let mut magnitude: Vec<u8> = Vec::new();
        let mut i: usize = 0;
        assert(bytes@.skip(0) =~= bytes@);
        while i < bytes.len()
            invariant
                i <= bytes.len(),
                trimmed(bytes@) == if magnitude.len() == 0 {
                    trimmed(bytes@.skip(i as int))
                } else {
                    magnitude@ + bytes@.skip(i as int)
                },
                magnitude.len() > 0 ==> magnitude@[0] != 0,
            decreases bytes.len() - i,
        {
            let byte = bytes[i];
            let ghost rest = bytes@.skip(i as int);
            assert(rest.drop_first() =~= bytes@.skip(i + 1));
            if magnitude.len() > 0 || byte != 0 {
                assert((magnitude@ + rest) =~= magnitude@.push(byte) + bytes@.skip(i + 1));
                assert(Seq::empty().push(byte) + bytes@.skip(i + 1) =~= rest);
                magnitude.push(byte);
            }
            i += 1;
        }
        assert(bytes@.skip(i as int) =~= Seq::empty());
        assert(magnitude@ + Seq::<u8>::empty() =~= magnitude@);
        let negative = negative && magnitude.len() > 0;
        BigInt { negative, magnitude }
    }

    /// Whether the integer is below zero.
    pub fn is_negative(&self) -> (r: bool)
        ensures
            r == self@.negative,
    {
        self.negative
    }

    /// The magnitude, most significant byte first.
    pub fn magnitude(&self) -> (r: &Vec<u8>)
        ensures
            r@ == self@.magnitude,
    {
        &self.magnitude
    }

    /// The integer as a value of the data model, unless it is too large.
    pub(crate) fn to_ipld(&self) -> (r: Option<Ipld>)
        ensures
            r is Some <==> bigint_encodable(self@),
            r matches Some(value) ==> content(value) == IpldView::Bytes(bigint_bytes(self@)),
    {
        proof {
            use_type_invariant(self);
        }
        serialize_bigint(self.negative, self.magnitude.as_slice())
    }
}

/// The integer with the given sign and magnitude as a value of the data model.
///
/// Calls `fvm_shared::bigint::bigint_ser::serialize`. The contract claims that
/// it gives a byte string: nothing for zero, else a byte for the sign followed
/// by the magnitude. It claims that an integer is refused if and only if that
/// string would be longer than 128 bytes.
#[verifier::external_body]
fn serialize_bigint(negative: bool, magnitude: &[u8]) -> (r: Option<Ipld>)
    requires
        magnitude.len() > 0 ==> magnitude@[0] != 0,
    ensures
        r is Some <==> bigint_encodable(BigIntView { negative, magnitude: magnitude@ }),
        r matches Some(value) ==> content(value) == IpldView::Bytes(
            bigint_bytes(BigIntView { negative, magnitude: magnitude@ }),
        ),
{
    let sign = if negative { num_bigint::Sign::Minus } else { num_bigint::Sign::Plus };
    let value = num_bigint::BigInt::from_bytes_be(sign, magnitude);
    fvm_shared::bigint::bigint_ser::serialize(&value, ipld_core::serde::Serializer).ok()
}

/// An amount of tokens, in the smallest unit.
#[derive(Debug, PartialEq, Eq, Hash)]
pub struct TokenAmount {
    pub atto: BigInt,
}

impl Clone for TokenAmount {
    fn clone(&self) -> (r: Self)
        ensures
            r.atto@ == self.atto@,
    {
        TokenAmount { atto: self.atto.clone() }
    }
}

} // verus!
