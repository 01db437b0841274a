//! Requests as the foreign-function boundary hands them over, with addresses as a
//! family tag and raw octets, and their conversion into the core's operations.
use vstd::prelude::*;
use crate::addr::{IpAddress, octets_of};
use crate::mpls::MplsState;

verus! {

/// Family tag of an IPv4 address at the boundary; any other tag means IPv6.
pub const FAMILY_V4: u8 = 1;

/// Family tag this library writes for IPv6 addresses.
pub const FAMILY_V6: u8 = 2;

/// An address as the boundary carries it: a family tag and the octets in network order.
pub struct IpAddrC {
    pub family: u8,
    pub addr: Vec<u8>,
}

pub open spec fn be32(s: Seq<u8>) -> u32 {
    ((s[0] as u32) << 24u32) | ((s[1] as u32) << 16u32) | ((s[2] as u32) << 8u32) | (s[3] as u32)
}

pub open spec fn be64(s: Seq<u8>) -> u64 {
    ((s[0] as u64) << 56u64) | ((s[1] as u64) << 48u64) | ((s[2] as u64) << 40u64) | ((s[3] as u64) << 32u64)
        | ((s[4] as u64) << 24u64) | ((s[5] as u64) << 16u64) | ((s[6] as u64) << 8u64) | (s[7] as u64)
}

/// The address that a family tag and octets stand for: IPv4 from the first 4 octets
/// under tag 1, IPv6 from the first 16 under any other tag; `None` when too few.
pub open spec fn address_of(family: u8, s: Seq<u8>) -> Option<IpAddress> {
    if family == FAMILY_V4 {
        if s.len() >= 4 { Some(IpAddress::V4(be32(s))) } else { None }
    } else {
        if s.len() >= 16 { Some(IpAddress::V6(be64(s), be64(s.subrange(8, 16)))) } else { None }
    }
}

fn read_be32(b: &Vec<u8>) -> (r: u32)
    requires
        b@.len() >= 4,
    ensures
        r == be32(b@),
{
    ((b[0] as u32) << 24u32) | ((b[1] as u32) << 16u32) | ((b[2] as u32) << 8u32) | (b[3] as u32)
}

fn read_be64(b: &Vec<u8>, at: usize) -> (r: u64)
    requires
        at + 8 <= b@.len(),
    ensures
        r == be64(b@.subrange(at as int, at + 8)),
{
    let n = b.len();
    assert(at + 8 <= n);
    let ghost s = b@.subrange(at as int, at + 8);
    assert(s[0] == b@[at as int] && s[1] == b@[at + 1] && s[2] == b@[at + 2] && s[3] == b@[at + 3]);
    assert(s[4] == b@[at + 4] && s[5] == b@[at + 5] && s[6] == b@[at + 6] && s[7] == b@[at + 7]);
    ((b[at] as u64) << 56u64) | ((b[at + 1] as u64) << 48u64) | ((b[at + 2] as u64) << 40u64)
        | ((b[at + 3] as u64) << 32u64) | ((b[at + 4] as u64) << 24u64) | ((b[at + 5] as u64) << 16u64)
        | ((b[at + 6] as u64) << 8u64) | (b[at + 7] as u64)
}

impl IpAddrC {
    /// The address this stands for; `None` when it carries too few octets.
    pub fn to_address(&self) -> (r: Option<IpAddress>)
        ensures
            r == address_of(self.family, self.addr@),
    {
        if self.family == FAMILY_V4 {
            if self.addr.len() >= 4 {
                Some(IpAddress::V4(read_be32(&self.addr)))
            } else {
                None
            }
        } else if self.addr.len() >= 16 {
            let hi = read_be64(&self.addr, 0);
            let lo = read_be64(&self.addr, 8);
            proof {
                assert(self.addr@.subrange(0, 8) =~= self.addr@.subrange(0, 8));
                assert(be64(self.addr@.subrange(0, 8)) == be64(self.addr@));
            }
            Some(IpAddress::V6(hi, lo))
        } else {
            None
        }
    }

    /// `a` as the boundary carries it.
    pub fn from_address(a: &IpAddress) -> (r: IpAddrC)
        ensures
            r.family == (if *a is V4 { FAMILY_V4 } else { FAMILY_V6 }),
            r.addr@ == octets_of(*a),
    {
        IpAddrC { family: if a.is_v4() { FAMILY_V4 } else { FAMILY_V6 }, addr: a.octets() }
    }
}

pub struct FtnAddData {
    pub fec: IpAddrC,
    pub ftn_ix: u32,
    pub next_hop: IpAddrC,
    pub out_ifindex: u32,
    /// The label stack to push; the binding uses its first label.
    pub out_label: Vec<u32>,
}

pub struct FtnDelData {
    pub fec: IpAddrC,
    pub ftn_ix: u32,
}

pub struct IlmAddData {
    pub in_label: u32,
    pub in_iface: u32,
    pub next_hop: IpAddrC,
    pub out_ifindex: u32,
    pub out_label: u32,
    pub ilm_ix: u32,
    pub owner: u32,
}

pub struct IlmDelData {
    pub in_label: u32,
    pub in_iface: u32,
    pub ilm_ix: u32,
    pub owner: u32,
}

pub struct NhAddDel {
    pub addr: IpAddrC,
    pub ifindex: u32,
    pub is_add: bool,
}

impl MplsState {
    /// `ftn_add` on a boundary request: -1 with nothing changed when an address carries
    /// too few octets or there is no label to push.
    pub fn ftn_add_data(&mut self, d: &FtnAddData) -> (r: i32)
        requires
            old(self).wf(),
        ensures
            final(self).wf(),
            match (address_of(d.fec.family, d.fec.addr@), address_of(d.next_hop.family, d.next_hop.addr@)) {
                (Some(fec), Some(nh)) => if d.out_label@.len() > 0 {
                    Self::ftn_add_post(*old(self), *final(self), fec, nh, d.out_ifindex, d.out_label@[0], d.ftn_ix, r)
                } else {
                    r == -1 && *final(self) == *old(self)
                },
                _ => r == -1 && *final(self) == *old(self),
            },
    {
        let fec = match d.fec.to_address() {
            Some(a) => a,
            None => {
                return -1;
            },
        };
        let nh = match d.next_hop.to_address() {
            Some(a) => a,
            None => {
                return -1;
            },
        };
        if d.out_label.len() == 0 {
            return -1;
        }
        self.ftn_add(fec, nh, d.out_ifindex, d.out_label[0], d.ftn_ix)
    }

    /// `ftn_del` on a boundary request: -1 with nothing changed when the FEC carries too
    /// few octets.
    pub fn ftn_del_data(&mut self, d: &FtnDelData) -> (r: i32)
        requires
            old(self).wf(),
        ensures
            final(self).wf(),
            match address_of(d.fec.family, d.fec.addr@) {
                Some(fec) => Self::ftn_del_post(*old(self), *final(self), fec, d.ftn_ix, r),
                None => r == -1 && *final(self) == *old(self),
            },
    {
        match d.fec.to_address() {
            Some(fec) => self.ftn_del(&fec, d.ftn_ix),
            None => -1,
        }
    }

    /// `ilm_add` on a boundary request: -1 with nothing changed when the next hop
    /// carries too few octets.
    pub fn ilm_add_data(&mut self, d: &IlmAddData) -> (r: i32)
        requires
            old(self).wf(),
        ensures
            final(self).wf(),
            match address_of(d.next_hop.family, d.next_hop.addr@) {
                Some(nh) => Self::ilm_add_post(*old(self), *final(self),
                    crate::mpls::IlmKey { in_label: d.in_label, in_iface: d.in_iface }, nh, d.out_ifindex,
                    d.out_label, d.ilm_ix, d.owner, r),
                None => r == -1 && *final(self) == *old(self),
            },
    {
        match d.next_hop.to_address() {
            Some(nh) => self.ilm_add(d.in_label, d.in_iface, nh, d.out_ifindex, d.out_label, d.ilm_ix, d.owner),
            None => -1,
        }
    }

    /// `ilm_del` on a boundary request.
    pub fn ilm_del_data(&mut self, d: &IlmDelData) -> (r: i32)
        requires
            old(self).wf(),
        ensures
            final(self).wf(),
            Self::ilm_del_post(*old(self), *final(self),
                crate::mpls::IlmKey { in_label: d.in_label, in_iface: d.in_iface }, d.ilm_ix, d.owner, r),
    {
        self.ilm_del(d.in_label, d.in_iface, d.ilm_ix, d.owner)
    }

    /// `nh_add_del` on a boundary request: -1 with nothing changed when the address
    /// carries too few octets.
    pub fn nh_add_del_data(&mut self, d: &NhAddDel) -> (r: i32)
        requires
            old(self).wf(),
        ensures
            final(self).wf(),
            match address_of(d.addr.family, d.addr.addr@) {
                Some(a) => r == 0 && final(self).nh_map() == old(self).nh_map().insert(a,
                    crate::mpls::NhEntry { connected: d.is_add, physical: true })
                    && final(self).ftn_seq() == old(self).ftn_seq() && final(self).ilm_seq() == old(self).ilm_seq()
                    && final(self).same_xcs(old(self)),
                None => r == -1 && *final(self) == *old(self),
            },
    {
        match d.addr.to_address() {
            Some(a) => self.nh_add_del(a, d.ifindex, d.is_add),
            None => -1,
        }
    }
}

} // verus!
