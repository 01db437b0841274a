//! A plain route table keyed by 32-bit prefix.
use vstd::prelude::*;
use std::collections::HashMap;

verus! {

broadcast use vstd::std_specs::hash::group_hash_axioms;

#[derive(Clone, Copy, Debug, PartialEq, Eq, Structural)]
pub struct RouteEntry {
    pub prefix: u32,
    pub next_hop: u32,
    pub out_ifindex: u32,
}

impl RouteEntry {
    pub fn new(prefix: u32, next_hop: u32, out_ifindex: u32) -> (r: RouteEntry)
        ensures
            r == (RouteEntry { prefix, next_hop, out_ifindex }),
    {
        RouteEntry { prefix, next_hop, out_ifindex }
    }

    pub fn get_prefix(&self) -> (r: u32)
        ensures
            r == self.prefix,
    {
        self.prefix
    }

    pub fn get_next_hop(&self) -> (r: u32)
        ensures
            r == self.next_hop,
    {
        self.next_hop
    }

    pub fn get_out_ifindex(&self) -> (r: u32)
        ensures
            r == self.out_ifindex,
    {
        self.out_ifindex
    }
}

/// Routes by prefix.
pub struct RouteStore {
    map: HashMap<u32, RouteEntry>,
}

impl RouteStore {
    pub closed spec fn view(&self) -> Map<u32, RouteEntry> {
        self.map@
    }

    pub fn new() -> (r: RouteStore)
        ensures
            r@ == Map::<u32, RouteEntry>::empty(),
    {
        RouteStore { map: HashMap::new() }
    }
}

/// Stores `entry` under `prefix`, replacing any route there.
pub fn route_add(table: &mut RouteStore, prefix: u32, entry: RouteEntry)
    ensures
        final(table)@ == old(table)@.insert(prefix, entry),
{
    table.map.insert(prefix, entry);
}

/// Copies the route under `prefix` into `entry`: `Ok(0)` when there is one, else `Err(-1)`
/// with `entry` untouched.
pub fn route_lookup(table: &RouteStore, prefix: u32, entry: &mut RouteEntry) -> (r: Result<i32, i32>)
    ensures
        table@.contains_key(prefix) ==> r == Ok::<i32, i32>(0) && *final(entry) == table@[prefix],
        !table@.contains_key(prefix) ==> r == Err::<i32, i32>(-1i32) && *final(entry) == *old(entry),
{
    match table.map.get(&prefix) {
        Some(re) => {
            entry.prefix = re.prefix;
            entry.next_hop = re.next_hop;
            entry.out_ifindex = re.out_ifindex;
            Ok(0)
        },
        None => Err(-1),
    }
}

/// Removes the route under `prefix`, if any; always `Ok(0)`.
pub fn route_delete(table: &mut RouteStore, prefix: u32) -> (r: Result<i32, i32>)
    ensures
        final(table)@ == old(table)@.remove(prefix),
        r == Ok::<i32, i32>(0),
{
    table.map.remove(&prefix);
    Ok(0)
}

} // verus!
