//! Addresses of actors.

use crate::utils::bytes::{
    bytes_eq, encode_var_vec, lemma_read_uvarint, lemma_uvarint_prefix_free, read_uvarint, uvarint,
};
use vstd::prelude::*;
use vstd::slice::{slice_subrange, slice_to_vec};

verus! {

/// The longest subaddress of a delegated address, in bytes.
pub const MAX_SUBADDRESS_LEN: usize = 54;

/// Actor ID of the manager of Ethereum accounts.
pub const ETHEREUM_ACCOUNT_MANAGER_ACTOR_ID: u64 = 10;

/// How the data of an address was derived.
#[derive(Debug, Clone, Copy, PartialEq, Eq, Hash, Structural)]
pub enum Protocol {
    ID,
    Secp256k1,
    Actor,
    BLS,
    Delegated,
}

impl Protocol {
    /// The number that stands for the protocol.
    pub open spec fn number(self) -> u8 {
        match self {
            Protocol::ID => 0,
            Protocol::Secp256k1 => 1,
            Protocol::Actor => 2,
            Protocol::BLS => 3,
            Protocol::Delegated => 4,
        }
    }

    /// The number that stands for the protocol.
    pub fn as_u8(self) -> (r: u8)
        ensures
            r == self.number(),
    {
        match self {
            Protocol::ID => 0,
            Protocol::Secp256k1 => 1,
            Protocol::Actor => 2,
            Protocol::BLS => 3,
            Protocol::Delegated => 4,
        }
    }
}

/// The data of an address.
pub enum AddressView {
    ID(u64),
    Secp256k1(Seq<u8>),
    Actor(Seq<u8>),
    BLS(Seq<u8>),
    Delegated(u64, Seq<u8>),
}

impl AddressView {
    /// The data has the length that its protocol asks for.
    pub open spec fn valid(self) -> bool {
        match self {
            AddressView::ID(_) => true,
            AddressView::Secp256k1(hash) => hash.len() == 20,
            AddressView::Actor(hash) => hash.len() == 20,
            AddressView::BLS(key) => key.len() == 48,
            AddressView::Delegated(_, subaddress) => subaddress.len() <= MAX_SUBADDRESS_LEN,
        }
    }

    /// The protocol.
    pub open spec fn protocol(self) -> Protocol {
        match self {
            AddressView::ID(_) => Protocol::ID,
            AddressView::Secp256k1(_) => Protocol::Secp256k1,
            AddressView::Actor(_) => Protocol::Actor,
            AddressView::BLS(_) => Protocol::BLS,
            AddressView::Delegated(_, _) => Protocol::Delegated,
        }
    }
}

/// The encoding of an address: the number of its protocol, then its data.
pub open spec fn address_bytes(address: AddressView) -> Seq<u8> {
    seq![address.protocol().number()] + match address {
        AddressView::ID(id) => uvarint(id as nat),
        AddressView::Secp256k1(hash) => hash,
        AddressView::Actor(hash) => hash,
        AddressView::BLS(key) => key,
        AddressView::Delegated(namespace, subaddress) => uvarint(namespace as nat) + subaddress,
    }
}

/// The encoding of an address can be read by place: a byte for the protocol,
/// then the data as it is, or an ID or namespace as a variable-length integer.
pub proof fn lemma_address_bytes_read_back(address: AddressView)
    ensures
        ({
            let bytes = address_bytes(address);
            match address {
                AddressView::ID(id) => bytes[0] == 0 && read_uvarint(bytes.skip(1)) == (
                    id as nat,
                    Seq::<u8>::empty(),
                ),
                AddressView::Secp256k1(hash) => bytes[0] == 1 && bytes.skip(1) == hash,
                AddressView::Actor(hash) => bytes[0] == 2 && bytes.skip(1) == hash,
                AddressView::BLS(key) => bytes[0] == 3 && bytes.skip(1) == key,
                AddressView::Delegated(namespace, subaddress) => bytes[0] == 4 && read_uvarint(
                    bytes.skip(1),
                ) == (namespace as nat, subaddress),
            }
        }),
{
    let bytes = address_bytes(address);
    match address {
        AddressView::ID(id) => {
            lemma_read_uvarint(id as nat, Seq::empty());
            assert(bytes.skip(1) =~= uvarint(id as nat) + Seq::empty());
        },
        AddressView::Secp256k1(hash) => {
            assert(bytes.skip(1) =~= hash);
        },
        AddressView::Actor(hash) => {
            assert(bytes.skip(1) =~= hash);
        },
        AddressView::BLS(key) => {
            assert(bytes.skip(1) =~= key);
        },
        AddressView::Delegated(namespace, subaddress) => {
            lemma_read_uvarint(namespace as nat, subaddress);
            assert(bytes.skip(1) =~= uvarint(namespace as nat) + subaddress);
        },
    }
}

/// No two addresses have the same encoding.
pub proof fn lemma_address_bytes_unique(a: AddressView, b: AddressView)
    requires
        address_bytes(a) == address_bytes(b),
    ensures
        a == b,
{
    let left = address_bytes(a);
    let right = address_bytes(b);
    assert(left[0] == a.protocol().number());
    assert(right[0] == b.protocol().number());
    let (x, y) = (left.drop_first(), right.drop_first());
    match (a, b) {
        (AddressView::ID(m), AddressView::ID(n)) => {
            assert(x =~= uvarint(m as nat) + Seq::empty());
            assert(y =~= uvarint(n as nat) + Seq::empty());
            lemma_uvarint_prefix_free(m as nat, n as nat, Seq::empty(), Seq::empty());
        },
        (AddressView::Secp256k1(s), AddressView::Secp256k1(t)) => {
            assert(x =~= s && y =~= t);
        },
        (AddressView::Actor(s), AddressView::Actor(t)) => {
            assert(x =~= s && y =~= t);
        },
        (AddressView::BLS(s), AddressView::BLS(t)) => {
            assert(x =~= s && y =~= t);
        },
        (AddressView::Delegated(m, s), AddressView::Delegated(n, t)) => {
            assert(x =~= uvarint(m as nat) + s);
            assert(y =~= uvarint(n as nat) + t);
            lemma_uvarint_prefix_free(m as nat, n as nat, s, t);
        },
        _ => {},
    }
}

#[derive(Debug, Clone, Copy, Hash)]
enum Payload {
    ID(u64),
    Secp256k1([u8; 20]),
    Actor([u8; 20]),
    BLS([u8; 48]),
    /// Namespace, and subaddress with its length.
    Delegated(u64, u8, [u8; 54]),
}

/// An address.
#[derive(Debug, Clone, Copy, Hash)]
pub struct Address {
    payload: Payload,
}

impl View for Address {
    type V = AddressView;

    closed spec fn view(&self) -> AddressView {
        match self.payload {
            Payload::ID(id) => AddressView::ID(id),
            Payload::Secp256k1(hash) => AddressView::Secp256k1(hash@),
            Payload::Actor(hash) => AddressView::Actor(hash@),
            Payload::BLS(key) => AddressView::BLS(key@),
            Payload::Delegated(namespace, length, buffer) => AddressView::Delegated(
                namespace,
                buffer@.take(length as int),
            ),
        }
    }
}

impl Address {
    #[verifier::type_invariant]
    spec fn inv(self) -> bool {
        self.payload matches Payload::Delegated(_, length, _) ==> length <= MAX_SUBADDRESS_LEN
    }

    /// The address of an actor by its ID.
    pub fn new_id(id: u64) -> (r: Self)
        ensures
            r@ == AddressView::ID(id),
    {
        Address { payload: Payload::ID(id) }
    }

    /// The address for the hash of a secp256k1 public key.
    pub fn new_secp256k1(hash: [u8; 20]) -> (r: Self)
        ensures
            r@ == AddressView::Secp256k1(hash@),
    {
        Address { payload: Payload::Secp256k1(hash) }
    }

    /// The address for the hash of an actor's data.
    pub fn new_actor(hash: [u8; 20]) -> (r: Self)
        ensures
            r@ == AddressView::Actor(hash@),
    {
        Address { payload: Payload::Actor(hash) }
    }

    /// The address of a BLS public key.
    pub fn new_bls(pubkey: [u8; 48]) -> (r: Self)
        ensures
            r@ == AddressView::BLS(pubkey@),
    {
        Address { payload: Payload::BLS(pubkey) }
    }

    /// The address that an actor gives out in its namespace, unless the
    /// subaddress is too long.
    pub fn new_delegated(namespace: u64, subaddress: &[u8]) -> (r: Option<Self>)
        ensures
            r is Some <==> subaddress.len() <= MAX_SUBADDRESS_LEN,
            r matches Some(address) ==> address@ == AddressView::Delegated(
                namespace,
                subaddress@,
            ),
    {
        if subaddress.len() > MAX_SUBADDRESS_LEN {
            return None;
        }
        let mut buffer: [u8; 54] = [0u8; 54];
        let mut i: usize = 0;
        while i < subaddress.len()
            invariant
                i <= subaddress.len() <= MAX_SUBADDRESS_LEN,
                forall|k: int| 0 <= k < i ==> buffer@[k] == subaddress@[k],
            decreases subaddress.len() - i,
        {
            buffer[i] = subaddress[i];
            i += 1;
        }
        assert(buffer@.take(i as int) =~= subaddress@);
        Some(Address { payload: Payload::Delegated(namespace, i as u8, buffer) })
    }

    /// The protocol.
    pub fn protocol(&self) -> (r: Protocol)
        ensures
            r == self@.protocol(),
            r == match self@ {
                AddressView::ID(_) => Protocol::ID,
                AddressView::Secp256k1(_) => Protocol::Secp256k1,
                AddressView::Actor(_) => Protocol::Actor,
                AddressView::BLS(_) => Protocol::BLS,
                AddressView::Delegated(_, _) => Protocol::Delegated,
            },
    {
        match self.payload {
            Payload::ID(_) => Protocol::ID,
            Payload::Secp256k1(_) => Protocol::Secp256k1,
            Payload::Actor(_) => Protocol::Actor,
            Payload::BLS(_) => Protocol::BLS,
            Payload::Delegated(_, _, _) => Protocol::Delegated,
        }
    }

    /// The actor ID, if the address holds one.
    pub fn id(&self) -> (r: Option<u64>)
        ensures
            r == match self@ {
                AddressView::ID(id) => Some(id),
                _ => None,
            },
    {
        match self.payload {
            Payload::ID(id) => Some(id),
            _ => None,
        }
    }

    /// The namespace and the subaddress, if the address is a delegated one.
    pub fn delegated(&self) -> (r: Option<(u64, Vec<u8>)>)
        ensures
            match self@ {
                AddressView::Delegated(namespace, subaddress) => r matches Some(parts) && parts.0
                    == namespace && parts.1@ == subaddress,
                _ => r is None,
            },
    {
        proof {
            use_type_invariant(self);
        }
        match self.payload {
            Payload::Delegated(namespace, length, buffer) => {
                let subaddress = slice_to_vec(
                    slice_subrange(buffer.as_slice(), 0, length as usize),
                );
                assert(subaddress@ =~= buffer@.take(length as int));
                Some((namespace, subaddress))
            },
            _ => None,
        }
    }

    /// The encoding.
    pub fn to_bytes(&self) -> (r: Vec<u8>)
        ensures
            r@ == address_bytes(self@),
            self@.valid(),
    {
        proof {
            use_type_invariant(self);
        }
        let mut bytes: Vec<u8> = Vec::new();
        bytes.push(self.protocol().as_u8());
        match self.payload {
            Payload::ID(id) => {
                let mut data = encode_var_vec(id);
                bytes.append(&mut data);
            },
            Payload::Secp256k1(hash) => {
                bytes.extend_from_slice(hash.as_slice());
            },
            Payload::Actor(hash) => {
                bytes.extend_from_slice(hash.as_slice());
            },
            Payload::BLS(key) => {
                bytes.extend_from_slice(key.as_slice());
            },
            Payload::Delegated(namespace, length, buffer) => {
                let mut data = encode_var_vec(namespace);
                bytes.append(&mut data);
                bytes.extend_from_slice(slice_subrange(buffer.as_slice(), 0, length as usize));
            },
        }
        assert(bytes@ =~= address_bytes(self@));
        bytes
    }
}

impl PartialEq for Address {
    fn eq(&self, other: &Self) -> (r: bool) {
        proof {
            use_type_invariant(self);
            use_type_invariant(other);
        }
        match (self.payload, other.payload) {
            (Payload::ID(a), Payload::ID(b)) => a == b,
            (Payload::Secp256k1(a), Payload::Secp256k1(b)) => bytes_eq(a.as_slice(), b.as_slice()),
            (Payload::Actor(a), Payload::Actor(b)) => bytes_eq(a.as_slice(), b.as_slice()),
            (Payload::BLS(a), Payload::BLS(b)) => bytes_eq(a.as_slice(), b.as_slice()),
            (Payload::Delegated(m, a_len, a), Payload::Delegated(n, b_len, b)) => {
                let a = slice_subrange(a.as_slice(), 0, a_len as usize);
                let b = slice_subrange(b.as_slice(), 0, b_len as usize);
                m == n && bytes_eq(a, b)
            },
            _ => false,
        }
    }
}

impl Eq for Address {

}

impl vstd::std_specs::cmp::PartialEqSpecImpl for Address {
    open spec fn obeys_eq_spec() -> bool {
        true
    }

    open spec fn eq_spec(&self, other: &Self) -> bool {
        self@ == other@
    }
}

} // verus!
