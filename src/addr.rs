//! IP addresses as plain values, and the byte keys under which tables index them.
use vstd::prelude::*;

verus! {

/// Tag byte that starts the key of an IPv4 address.
pub const V4_TAG: u8 = 4;

/// Tag byte that starts the key of an IPv6 address.
pub const V6_TAG: u8 = 6;

/// An IP address: IPv4 as one 32-bit word, IPv6 as its high and low 64-bit halves,
/// both in network byte order.
#[derive(Clone, Copy, Debug, PartialEq, Eq, Hash, Structural)]
pub enum IpAddress {
    V4(u32),
    V6(u64, u64),
}

/// The byte of a 32-bit word that starts at bit `shift`.
pub open spec fn byte_of_u32(x: u32, shift: u32) -> u8 {
    ((x >> shift) & 0xff) as u8
}

/// The byte of a 64-bit word that starts at bit `shift`.
pub open spec fn byte_of_u64(x: u64, shift: u64) -> u8 {
    ((x >> shift) & 0xff) as u8
}

pub open spec fn octets_u32(x: u32) -> Seq<u8> {
    seq![byte_of_u32(x, 24), byte_of_u32(x, 16), byte_of_u32(x, 8), byte_of_u32(x, 0)]
}

pub open spec fn octets_u64(x: u64) -> Seq<u8> {
    seq![
        byte_of_u64(x, 56), byte_of_u64(x, 48), byte_of_u64(x, 40), byte_of_u64(x, 32),
        byte_of_u64(x, 24), byte_of_u64(x, 16), byte_of_u64(x, 8), byte_of_u64(x, 0),
    ]
}

/// The address's octets in network order: 4 for IPv4, 16 for IPv6.
pub open spec fn octets_of(a: IpAddress) -> Seq<u8> {
    match a {
        IpAddress::V4(x) => octets_u32(x),
        IpAddress::V6(hi, lo) => octets_u64(hi) + octets_u64(lo),
    }
}

/// The key of an address in a byte-keyed table: a family tag, then the octets.
/// Keys of different families never share a prefix, so one tree holds both.
pub open spec fn key_of(a: IpAddress) -> Seq<u8> {
    match a {
        IpAddress::V4(_) => seq![V4_TAG] + octets_of(a),
        IpAddress::V6(_, _) => seq![V6_TAG] + octets_of(a),
    }
}

pub open spec fn is_prefix(p: Seq<u8>, s: Seq<u8>) -> bool {
    p.len() <= s.len() && s.subrange(0, p.len() as int) == p
}

proof fn lemma_u32_from_bytes(x: u32, y: u32)
    requires
        byte_of_u32(x, 24) == byte_of_u32(y, 24),
        byte_of_u32(x, 16) == byte_of_u32(y, 16),
        byte_of_u32(x, 8) == byte_of_u32(y, 8),
        byte_of_u32(x, 0) == byte_of_u32(y, 0),
    ensures
        x == y,
{
    assert(x == y) by (bit_vector)
        requires
            ((x >> 24u32) & 0xff) as u8 == ((y >> 24u32) & 0xff) as u8,
            ((x >> 16u32) & 0xff) as u8 == ((y >> 16u32) & 0xff) as u8,
            ((x >> 8u32) & 0xff) as u8 == ((y >> 8u32) & 0xff) as u8,
            ((x >> 0u32) & 0xff) as u8 == ((y >> 0u32) & 0xff) as u8,
    ;
}

proof fn lemma_u64_from_bytes(x: u64, y: u64)
    requires
        byte_of_u64(x, 56) == byte_of_u64(y, 56),
        byte_of_u64(x, 48) == byte_of_u64(y, 48),
        byte_of_u64(x, 40) == byte_of_u64(y, 40),
        byte_of_u64(x, 32) == byte_of_u64(y, 32),
        byte_of_u64(x, 24) == byte_of_u64(y, 24),
        byte_of_u64(x, 16) == byte_of_u64(y, 16),
        byte_of_u64(x, 8) == byte_of_u64(y, 8),
        byte_of_u64(x, 0) == byte_of_u64(y, 0),
    ensures
        x == y,
{
    assert(x == y) by (bit_vector)
        requires
            ((x >> 56u64) & 0xff) as u8 == ((y >> 56u64) & 0xff) as u8,
            ((x >> 48u64) & 0xff) as u8 == ((y >> 48u64) & 0xff) as u8,
            ((x >> 40u64) & 0xff) as u8 == ((y >> 40u64) & 0xff) as u8,
            ((x >> 32u64) & 0xff) as u8 == ((y >> 32u64) & 0xff) as u8,
            ((x >> 24u64) & 0xff) as u8 == ((y >> 24u64) & 0xff) as u8,
            ((x >> 16u64) & 0xff) as u8 == ((y >> 16u64) & 0xff) as u8,
            ((x >> 8u64) & 0xff) as u8 == ((y >> 8u64) & 0xff) as u8,
            ((x >> 0u64) & 0xff) as u8 == ((y >> 0u64) & 0xff) as u8,
    ;
}

proof fn lemma_octets_u32_injective(x: u32, y: u32)
    requires
        octets_u32(x) == octets_u32(y),
    ensures
        x == y,
{
    assert(octets_u32(x)[0] == octets_u32(y)[0]);
    assert(octets_u32(x)[1] == octets_u32(y)[1]);
    assert(octets_u32(x)[2] == octets_u32(y)[2]);
    assert(octets_u32(x)[3] == octets_u32(y)[3]);
    lemma_u32_from_bytes(x, y);
}

proof fn lemma_octets_u64_injective(x: u64, y: u64)
    requires
        octets_u64(x) == octets_u64(y),
    ensures
        x == y,
{
    assert(octets_u64(x)[0] == octets_u64(y)[0]);
    assert(octets_u64(x)[1] == octets_u64(y)[1]);
    assert(octets_u64(x)[2] == octets_u64(y)[2]);
    assert(octets_u64(x)[3] == octets_u64(y)[3]);
    assert(octets_u64(x)[4] == octets_u64(y)[4]);
    assert(octets_u64(x)[5] == octets_u64(y)[5]);
    assert(octets_u64(x)[6] == octets_u64(y)[6]);
    assert(octets_u64(x)[7] == octets_u64(y)[7]);
    lemma_u64_from_bytes(x, y);
}

/// Distinct addresses have distinct keys.
pub proof fn lemma_key_injective(a: IpAddress, b: IpAddress)
    requires
        key_of(a) == key_of(b),
    ensures
        a == b,
{
    assert(key_of(a)[0] == key_of(b)[0]);
    match (a, b) {
        (IpAddress::V4(x), IpAddress::V4(y)) => {
            assert(octets_u32(x) =~= key_of(a).subrange(1, 5));
            assert(octets_u32(y) =~= key_of(b).subrange(1, 5));
            lemma_octets_u32_injective(x, y);
        },
        (IpAddress::V6(xh, xl), IpAddress::V6(yh, yl)) => {
            assert(octets_u64(xh) =~= key_of(a).subrange(1, 9));
            assert(octets_u64(yh) =~= key_of(b).subrange(1, 9));
            assert(octets_u64(xl) =~= key_of(a).subrange(9, 17));
            assert(octets_u64(yl) =~= key_of(b).subrange(9, 17));
            lemma_octets_u64_injective(xh, yh);
            lemma_octets_u64_injective(xl, yl);
        },
        (IpAddress::V4(_), IpAddress::V6(_, _)) => {
            assert(key_of(a)[0] == V4_TAG);
            assert(key_of(b)[0] == V6_TAG);
        },
        (IpAddress::V6(_, _), IpAddress::V4(_)) => {
            assert(key_of(a)[0] == V6_TAG);
            assert(key_of(b)[0] == V4_TAG);
        },
    }
}

/// A key that is a prefix of another address's key is that address's key: all keys
/// of one family have the same length, and the tag separates the families.
pub proof fn lemma_key_prefix_is_equal(a: IpAddress, b: IpAddress)
    requires
        is_prefix(key_of(b), key_of(a)),
    ensures
        a == b,
{
    assert(key_of(b)[0] == key_of(a)[0]);
    assert(key_of(b).len() == key_of(a).len());
    assert(key_of(a).subrange(0, key_of(a).len() as int) =~= key_of(a));
    lemma_key_injective(a, b);
}

impl IpAddress {
    /// The IPv4 address `a.b.c.d`.
    pub fn v4(a: u8, b: u8, c: u8, d: u8) -> (r: IpAddress)
        ensures
            r == IpAddress::V4(
                ((a as u32) << 24u32) | ((b as u32) << 16u32) | ((c as u32) << 8u32) | (d as u32),
            ),
    {
        IpAddress::V4(((a as u32) << 24u32) | ((b as u32) << 16u32) | ((c as u32) << 8u32) | (d as u32))
    }

    pub fn is_v4(&self) -> (r: bool)
        ensures
            r == (*self is V4),
    {
        match self {
            IpAddress::V4(_) => true,
            IpAddress::V6(_, _) => false,
        }
    }

    /// The octets of the address in network order.
    pub fn octets(&self) -> (r: Vec<u8>)
        ensures
            r@ == octets_of(*self),
    {
        let mut v: Vec<u8> = Vec::new();
        match *self {
            IpAddress::V4(x) => {
                push_u32(&mut v, x);
            },
            IpAddress::V6(hi, lo) => {
                push_u64(&mut v, hi);
                push_u64(&mut v, lo);
            },
        }
        proof {
            assert(v@ =~= octets_of(*self));
        }
        v
    }

    /// The table key of the address: its family tag, then its octets.
    pub fn key(&self) -> (r: Vec<u8>)
        ensures
            r@ == key_of(*self),
    {
        let mut v: Vec<u8> = Vec::new();
        match *self {
            IpAddress::V4(x) => {
                v.push(V4_TAG);
                push_u32(&mut v, x);
            },
            IpAddress::V6(hi, lo) => {
                v.push(V6_TAG);
                push_u64(&mut v, hi);
                push_u64(&mut v, lo);
            },
        }
        proof {
            assert(v@ =~= key_of(*self));
        }
        v
    }
}

fn push_u32(v: &mut Vec<u8>, x: u32)
    ensures
        final(v)@ == old(v)@ + octets_u32(x),
{
    v.push(((x >> 24u32) & 0xff) as u8);
    v.push(((x >> 16u32) & 0xff) as u8);
    v.push(((x >> 8u32) & 0xff) as u8);
    v.push(((x >> 0u32) & 0xff) as u8);
    proof {
        assert(final(v)@ =~= old(v)@ + octets_u32(x));
    }
}

fn push_u64(v: &mut Vec<u8>, x: u64)
    ensures
        final(v)@ == old(v)@ + octets_u64(x),
{
    v.push(((x >> 56u64) & 0xff) as u8);
    v.push(((x >> 48u64) & 0xff) as u8);
    v.push(((x >> 40u64) & 0xff) as u8);
    v.push(((x >> 32u64) & 0xff) as u8);
    v.push(((x >> 24u64) & 0xff) as u8);
    v.push(((x >> 16u64) & 0xff) as u8);
    v.push(((x >> 8u64) & 0xff) as u8);
    v.push(((x >> 0u64) & 0xff) as u8);
    proof {
        assert(final(v)@ =~= old(v)@ + octets_u64(x));
    }
}

} // verus!
