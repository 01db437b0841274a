//! Longest-prefix-match forwarding table, independent of the route/peer store.
use vstd::prelude::*;
use crate::addr::IpAddress;
use crate::table::AddrTable;

verus! {

/// Where packets for a prefix go.
#[derive(Clone, Copy, Debug, PartialEq, Eq, Structural)]
pub struct ForwardingEntry {
    pub next_hop: IpAddress,
    pub out_ifindex: u32,
}

/// Forwarding entries by prefix, looked up by longest match over the prefix's key.
pub struct PrefixTree {
    tree: AddrTable<ForwardingEntry>,
}

impl PrefixTree {
    pub closed spec fn view(&self) -> Map<IpAddress, ForwardingEntry> {
        self.tree@
    }

    pub closed spec fn wf(&self) -> bool {
        self.tree.wf()
    }

    pub fn new() -> (r: PrefixTree)
        ensures
            r.wf(),
            r@ == Map::<IpAddress, ForwardingEntry>::empty(),
    {
        PrefixTree { tree: AddrTable::new() }
    }

    /// Stores `entry` under `prefix`, replacing the one there; always 0.
    pub fn longest_match_add(&mut self, prefix: IpAddress, entry: ForwardingEntry) -> (r: i32)
        requires
            old(self).wf(),
        ensures
            final(self).wf(),
            r == 0,
            final(self)@ == old(self)@.insert(prefix, entry),
    {
        self.tree.insert(prefix, entry);
        0
    }

    /// The entry of the longest stored prefix that matches `addr`.
    pub fn longest_match_lookup(&self, addr: &IpAddress) -> (r: Option<ForwardingEntry>)
        requires
            self.wf(),
        ensures
            r == (if self@.contains_key(*addr) { Some(self@[*addr]) } else { None::<ForwardingEntry> }),
    {
        match self.tree.longest_match(addr) {
            Some(slot) => Some(slot.val),
            None => None,
        }
    }

    /// Removes the entry under `prefix`: 0, or -1 when there is none.
    pub fn longest_match_delete(&mut self, prefix: &IpAddress) -> (r: i32)
        requires
            old(self).wf(),
        ensures
            final(self).wf(),
            final(self)@ == old(self)@.remove(*prefix),
            r == (if old(self)@.contains_key(*prefix) { 0i32 } else { -1i32 }),
    {
        match self.tree.remove(prefix) {
            Some(_) => 0,
            None => -1,
        }
    }
}

} // verus!
