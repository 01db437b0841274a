//! Route/peer adjacency store: peers advertise routes, and a route lives in the
//! global route table for as long as at least one peer advertises it.
use vstd::prelude::*;
use crate::addr::IpAddress;
use crate::table::AddrTable;

verus! {

/// A route as callers see it.
#[derive(Clone, Copy, Debug, PartialEq, Eq, Structural)]
pub struct RouteEntry {
    pub prefix: IpAddress,
    pub mask: IpAddress,
    pub next_hop: IpAddress,
    pub out_ifindex: u32,
}

/// A peer as callers see it.
#[derive(Clone, Copy, Debug, PartialEq, Eq, Structural)]
pub struct PeerEntry {
    pub prefix: IpAddress,
    pub out_ifindex: u32,
}

/// A route of the global table, with the peers that advertise it.
pub struct RouteIntEntry {
    pub prefix: IpAddress,
    pub mask: IpAddress,
    pub next_hop: IpAddress,
    pub out_ifindex: u32,
    /// The peer that last wrote the route.
    pub creator: IpAddress,
    pub peers: Vec<IpAddress>,
}

/// A peer, with the prefixes of the routes it advertises.
pub struct PeerIntEntry {
    pub prefix: IpAddress,
    pub out_ifindex: u32,
    pub routes: Vec<IpAddress>,
}

impl RouteIntEntry {
    pub open spec fn has_peer(&self, p: IpAddress) -> bool {
        self.peers@.contains(p)
    }

    pub open spec fn entry(&self) -> RouteEntry {
        RouteEntry {
            prefix: self.prefix,
            mask: self.mask,
            next_hop: self.next_hop,
            out_ifindex: self.out_ifindex,
        }
    }

    pub fn new(prefix: IpAddress, mask: IpAddress, next_hop: IpAddress, out_ifindex: u32, creator: IpAddress) -> (r: RouteIntEntry)
        ensures
            r.prefix == prefix && r.mask == mask && r.next_hop == next_hop,
            r.out_ifindex == out_ifindex && r.creator == creator,
            r.peers@ == Seq::<IpAddress>::empty(),
    {
        RouteIntEntry { prefix, mask, next_hop, out_ifindex, creator, peers: Vec::new() }
    }

    /// Adds `p` to the route's peers: 0, or -1 when it is there already.
    pub fn add_peer(&mut self, p: IpAddress) -> (r: i32)
        requires
            old(self).peers@.no_duplicates(),
        ensures
            final(self).peers@.no_duplicates(),
            r == (if old(self).has_peer(p) { -1i32 } else { 0i32 }),
            forall|x: IpAddress| final(self).has_peer(x) <==> (old(self).has_peer(x) || x == p),
            final(self).entry() == old(self).entry() && final(self).creator == old(self).creator,
    {
        if insert_addr(&mut self.peers, p) {
            -1
        } else {
            0
        }
    }

    /// Removes `p` from the route's peers: 0, or -1 when it was not there.
    pub fn delete_peer(&mut self, p: &IpAddress) -> (r: i32)
        requires
            old(self).peers@.no_duplicates(),
        ensures
            final(self).peers@.no_duplicates(),
            r == (if old(self).has_peer(*p) { 0i32 } else { -1i32 }),
            forall|x: IpAddress| final(self).has_peer(x) <==> (old(self).has_peer(x) && x != *p),
            final(self).entry() == old(self).entry() && final(self).creator == old(self).creator,
    {
        let had = contains_addr(&self.peers, p);
        remove_addr(&mut self.peers, p);
        if had { 0 } else { -1 }
    }

    pub fn peer_exists(&self, p: &IpAddress) -> (r: bool)
        ensures
            r == self.has_peer(*p),
    {
        contains_addr(&self.peers, p)
    }

    pub fn get_number_of_peers(&self) -> (r: usize)
        ensures
            r == self.peers@.len(),
    {
        self.peers.len()
    }
}

impl PeerIntEntry {
    pub open spec fn has_route(&self, r: IpAddress) -> bool {
        self.routes@.contains(r)
    }

    pub fn new(prefix: IpAddress, out_ifindex: u32) -> (r: PeerIntEntry)
        ensures
            r.prefix == prefix && r.out_ifindex == out_ifindex,
            r.routes@ == Seq::<IpAddress>::empty(),
    {
        PeerIntEntry { prefix, out_ifindex, routes: Vec::new() }
    }
}

/// Whether `a` occurs in `v`.
pub fn contains_addr(v: &Vec<IpAddress>, a: &IpAddress) -> (r: bool)
    ensures
        r == v@.contains(*a),
{
    let mut i: usize = 0;
    while i < v.len()
        invariant
            i <= v@.len(),
            forall|j: int| 0 <= j < i ==> v@[j] != *a,
        decreases v@.len() - i,
    {
        if v[i] == *a {
            return true;
        }
        i = i + 1;
    }
    false
}

proof fn lemma_remove_no_dup<A>(s: Seq<A>, i: int)
    requires
        s.no_duplicates(),
        0 <= i < s.len(),
    ensures
        s.remove(i).no_duplicates(),
        forall|x: A| s.remove(i).contains(x) <==> (s.contains(x) && x != s[i]),
{
    let t = s.remove(i);
    assert forall|j: int| 0 <= j < t.len() implies #[trigger] t[j] == s[if j < i { j } else { j + 1 }] by {
    }
    assert forall|j: int, k: int| 0 <= j < t.len() && 0 <= k < t.len() && j != k implies t[j] != t[k] by {
        let jj = if j < i { j } else { j + 1 };
        let kk = if k < i { k } else { k + 1 };
        assert(t[j] == s[jj]);
        assert(t[k] == s[kk]);
    }
    assert forall|x: A| t.contains(x) <==> (s.contains(x) && x != s[i]) by {
        if t.contains(x) {
            let j = choose|j: int| 0 <= j < t.len() && t[j] == x;
            let jj = if j < i { j } else { j + 1 };
            assert(t[j] == s[jj]);
        }
        if s.contains(x) && x != s[i] {
            let j = choose|j: int| 0 <= j < s.len() && s[j] == x;
            if j < i {
                assert(t[j] == x);
            } else {
                assert(t[j - 1] == s[j]);
            }
        }
    }
}

/// Adds `a` to a list without duplicates unless it is there; returns whether it was.
fn insert_addr(v: &mut Vec<IpAddress>, a: IpAddress) -> (r: bool)
    requires
        old(v)@.no_duplicates(),
    ensures
        final(v)@.no_duplicates(),
        r == old(v)@.contains(a),
        forall|x: IpAddress| final(v)@.contains(x) <==> (old(v)@.contains(x) || x == a),
{
    if contains_addr(v, &a) {
        return true;
    }
    let ghost s = v@;
    v.push(a);
    proof {
        assert(v@ =~= s.push(a));
        assert forall|x: IpAddress| v@.contains(x) <==> (s.contains(x) || x == a) by {
            if x == a {
                assert(v@[s.len() as int] == a);
            }
            if s.contains(x) {
                let j = choose|j: int| 0 <= j < s.len() && s[j] == x;
                assert(v@[j] == x);
            }
            if v@.contains(x) {
                let j = choose|j: int| 0 <= j < v@.len() && v@[j] == x;
                if j < s.len() {
                    assert(s[j] == x);
                }
            }
        }
        assert forall|j: int, k: int| 0 <= j < v@.len() && 0 <= k < v@.len() && j != k implies v@[j] != v@[k] by {
            if j < s.len() && k < s.len() {
            } else if j < s.len() {
                assert(s.contains(v@[j]));
            } else {
                assert(s.contains(v@[k]));
            }
        }
    }
    false
}

/// Removes `a` from a list without duplicates.
fn remove_addr(v: &mut Vec<IpAddress>, a: &IpAddress)
    requires
        old(v)@.no_duplicates(),
    ensures
        final(v)@.no_duplicates(),
        forall|x: IpAddress| final(v)@.contains(x) <==> (old(v)@.contains(x) && x != *a),
{
    let mut i: usize = 0;
    while i < v.len()
        invariant
            i <= v@.len(),
            v@ == old(v)@,
            old(v)@.no_duplicates(),
            forall|j: int| 0 <= j < i ==> v@[j] != *a,
        decreases v@.len() - i,
    {
        if v[i] == *a {
            let ghost s = v@;
            v.remove(i);
            proof {
                lemma_remove_no_dup(s, i as int);
            }
            return;
        }
        i = i + 1;
    }
}

/// Whether `a` is among the first `n` items of `s`.
spec fn listed_before(s: Seq<IpAddress>, n: int, a: IpAddress) -> bool {
    exists|j: int| 0 <= j < n && s[j] == a
}

/// The global route table and the peer table, kept as mirror images: a peer lists a
/// route exactly when the route lists the peer.
pub struct AdjacencyStore {
    routes: AddrTable<RouteIntEntry>,
    peers: AddrTable<PeerIntEntry>,
}

impl AdjacencyStore {
    /// The global route table.
    pub closed spec fn route_map(&self) -> Map<IpAddress, RouteIntEntry> {
        self.routes@
    }

    /// The peer table.
    pub closed spec fn peer_map(&self) -> Map<IpAddress, PeerIntEntry> {
        self.peers@
    }

    pub closed spec fn tables_wf(&self) -> bool {
        self.routes.wf() && self.peers.wf()
    }

    pub open spec fn wf(&self) -> bool {
        &&& self.tables_wf()
        &&& forall|r: IpAddress|
            #![trigger self.route_map()[r]]
            self.route_map().contains_key(r) ==> {
                &&& self.route_map()[r].prefix == r
                &&& self.route_map()[r].peers@.no_duplicates()
                &&& self.route_map()[r].peers@.len() > 0
            }
        &&& forall|p: IpAddress|
            #![trigger self.peer_map()[p]]
            self.peer_map().contains_key(p) ==> {
                &&& self.peer_map()[p].prefix == p
                &&& self.peer_map()[p].routes@.no_duplicates()
            }
        &&& forall|r: IpAddress, x: IpAddress|
            #![trigger self.route_map()[r].has_peer(x)]
            self.route_map().contains_key(r) && self.route_map()[r].has_peer(x) ==> {
                &&& self.peer_map().contains_key(x)
                &&& self.peer_map()[x].has_route(r)
            }
        &&& forall|p: IpAddress, x: IpAddress|
            #![trigger self.peer_map()[p].has_route(x)]
            self.peer_map().contains_key(p) && self.peer_map()[p].has_route(x) ==> {
                &&& self.route_map().contains_key(x)
                &&& self.route_map()[x].has_peer(p)
            }
    }

    /// For every peer and every route, the peer is among the route's peers exactly
    /// when the route is in the peer's own route table.
    pub proof fn lemma_route_peer_mirror(&self, p: IpAddress, r: IpAddress)
        requires
            self.wf(),
            self.peer_map().contains_key(p),
            self.route_map().contains_key(r),
        ensures
            self.route_map()[r].has_peer(p) <==> self.peer_map()[p].has_route(r),
    {
    }

    /// What `peer_add_modify` does.
    pub open spec fn peer_add_modify_post(pre: Self, post: Self, addr: IpAddress, out_ifindex: u32, r: i32) -> bool {
        &&& r == (if pre.peer_map().contains_key(addr) { 1i32 } else { 0i32 })
        &&& post.peer_map() == pre.peer_map().insert(addr, post.peer_map()[addr])
        &&& post.peer_map()[addr].prefix == addr
        &&& post.peer_map()[addr].out_ifindex == out_ifindex
        &&& pre.peer_map().contains_key(addr) ==> post.peer_map()[addr].routes@ == pre.peer_map()[addr].routes@
        &&& !pre.peer_map().contains_key(addr) ==> post.peer_map()[addr].routes@.len() == 0
        &&& post.route_map() == pre.route_map()
    }

    /// What `peer_route_add_modify` does once the peer exists.
    pub open spec fn route_written(pre: Self, post: Self, peer: IpAddress, prefix: IpAddress, mask: IpAddress,
        next_hop: IpAddress, out_ifindex: u32) -> bool {
        &&& post.route_map() == pre.route_map().insert(prefix, post.route_map()[prefix])
        &&& post.route_map()[prefix].entry() == (RouteEntry { prefix, mask, next_hop, out_ifindex })
        &&& post.route_map()[prefix].creator == peer
        &&& forall|x: IpAddress| post.route_map()[prefix].has_peer(x) <==> (x == peer
            || (pre.route_map().contains_key(prefix) && pre.route_map()[prefix].has_peer(x)))
        &&& post.peer_map() == pre.peer_map().insert(peer, post.peer_map()[peer])
        &&& post.peer_map()[peer].prefix == pre.peer_map()[peer].prefix
        &&& post.peer_map()[peer].out_ifindex == pre.peer_map()[peer].out_ifindex
        &&& forall|x: IpAddress| post.peer_map()[peer].has_route(x) <==> (x == prefix || pre.peer_map()[peer].has_route(x))
    }

    /// Writing a peer's own fields, with its route list kept (or empty for a new
    /// peer), keeps the store well formed.
    proof fn lemma_peer_rewrite_wf(&self, pre: Self, addr: IpAddress)
        requires
            pre.wf(),
            self.tables_wf(),
            self.route_map() == pre.route_map(),
            self.peer_map() == pre.peer_map().insert(addr, self.peer_map()[addr]),
            self.peer_map()[addr].prefix == addr,
            pre.peer_map().contains_key(addr) ==> self.peer_map()[addr].routes@ == pre.peer_map()[addr].routes@,
            !pre.peer_map().contains_key(addr) ==> self.peer_map()[addr].routes@.len() == 0,
        ensures
            self.wf(),
    {
        assert forall|r: IpAddress, x: IpAddress|
            #![trigger self.route_map()[r].has_peer(x)]
            self.route_map().contains_key(r) && self.route_map()[r].has_peer(x) implies {
                &&& self.peer_map().contains_key(x)
                &&& self.peer_map()[x].has_route(r)
            } by {
            assert(pre.route_map()[r].has_peer(x));
        }
        assert forall|p: IpAddress, x: IpAddress|
            #![trigger self.peer_map()[p].has_route(x)]
            self.peer_map().contains_key(p) && self.peer_map()[p].has_route(x) implies {
                &&& self.route_map().contains_key(x)
                &&& self.route_map()[x].has_peer(p)
            } by {
            if p == addr && !pre.peer_map().contains_key(addr) {
                assert(!self.peer_map()[p].routes@.contains(x));
            } else {
                assert(pre.peer_map()[p].has_route(x));
            }
        }
        assert forall|p: IpAddress| #![trigger self.peer_map()[p]] self.peer_map().contains_key(p) implies {
            &&& self.peer_map()[p].prefix == p
            &&& self.peer_map()[p].routes@.no_duplicates()
        } by {
            if p != addr {
                assert(pre.peer_map()[p] == self.peer_map()[p]);
            }
        }
        assert forall|r: IpAddress| #![trigger self.route_map()[r]] self.route_map().contains_key(r) implies {
            &&& self.route_map()[r].prefix == r
            &&& self.route_map()[r].peers@.no_duplicates()
            &&& self.route_map()[r].peers@.len() > 0
        } by {
            assert(pre.route_map()[r] == self.route_map()[r]);
        }
    }

    pub fn new() -> (r: Self)
        ensures
            r.wf(),
            r.route_map() == Map::<IpAddress, RouteIntEntry>::empty(),
            r.peer_map() == Map::<IpAddress, PeerIntEntry>::empty(),
    {
        AdjacencyStore { routes: AddrTable::new(), peers: AddrTable::new() }
    }

    /// Creates the peer, or sets the interface of the existing one: 0 when created,
    /// 1 when modified.
    pub fn peer_add_modify(&mut self, addr: IpAddress, out_ifindex: u32) -> (r: i32)
        requires
            old(self).wf(),
        ensures
            final(self).wf(),
            Self::peer_add_modify_post(*old(self), *final(self), addr, out_ifindex, r),
    {
        match self.peers.remove(&addr) {
            Some(pe) => {
                let mut pe = pe;
                pe.out_ifindex = out_ifindex;
                self.peers.insert(addr, pe);
                proof {
                    assert(self.peer_map() =~= old(self).peer_map().insert(addr, self.peer_map()[addr]));
                    self.lemma_peer_rewrite_wf(*old(self), addr);
                }
                1
            },
            None => {
                self.peers.insert(addr, PeerIntEntry::new(addr, out_ifindex));
                proof {
                    assert(self.peer_map() =~= old(self).peer_map().insert(addr, self.peer_map()[addr]));
                    self.lemma_peer_rewrite_wf(*old(self), addr);
                }
                0
            },
        }
    }

    /// Creates the peer: 0, or -1 with nothing changed when it exists already.
    pub fn peer_add(&mut self, addr: IpAddress, out_ifindex: u32) -> (r: i32)
        requires
            old(self).wf(),
        ensures
            final(self).wf(),
            old(self).peer_map().contains_key(addr) ==> r == -1 && *final(self) == *old(self),
            !old(self).peer_map().contains_key(addr) ==> r == 0
                && Self::peer_add_modify_post(*old(self), *final(self), addr, out_ifindex, 0),
    {
        if self.peers.contains(&addr) {
            return -1;
        }
        self.peer_add_modify(addr, out_ifindex)
    }

    /// The peer's address and interface, or `None` when there is no such peer.
    pub fn peer_lookup(&self, addr: &IpAddress) -> (r: Option<PeerEntry>)
        requires
            self.wf(),
        ensures
            r == (if self.peer_map().contains_key(*addr) {
                Some(PeerEntry { prefix: *addr, out_ifindex: self.peer_map()[*addr].out_ifindex })
            } else {
                None::<PeerEntry>
            }),
    {
        match self.peers.get(addr) {
            Some(pe) => Some(PeerEntry { prefix: pe.prefix, out_ifindex: pe.out_ifindex }),
            None => None,
        }
    }

    /// The route of the global table under `prefix`, whichever peers advertise it.
    pub fn route_lookup(&self, prefix: &IpAddress) -> (r: Option<RouteEntry>)
        requires
            self.wf(),
        ensures
            r == (if self.route_map().contains_key(*prefix) {
                Some(self.route_map()[*prefix].entry())
            } else {
                None::<RouteEntry>
            }),
    {
        match self.routes.get(prefix) {
            Some(re) => Some(RouteEntry {
                prefix: re.prefix,
                mask: re.mask,
                next_hop: re.next_hop,
                out_ifindex: re.out_ifindex,
            }),
            None => None,
        }
    }

    /// Route `prefix` once `peer` no longer advertises it: gone when `peer` was its
    /// only advertiser, else the same route without `peer`.
    pub open spec fn route_unlinked(pre: Self, post: Self, peer: IpAddress, prefix: IpAddress) -> bool {
        if pre.route_map().contains_key(prefix) && exists|y: IpAddress| pre.route_map()[prefix].has_peer(y) && y != peer {
            &&& post.route_map() == pre.route_map().insert(prefix, post.route_map()[prefix])
            &&& post.route_map()[prefix].entry() == pre.route_map()[prefix].entry()
            &&& post.route_map()[prefix].creator == pre.route_map()[prefix].creator
            &&& forall|x: IpAddress| post.route_map()[prefix].has_peer(x) <==> (pre.route_map()[prefix].has_peer(x) && x != peer)
        } else {
            post.route_map() == pre.route_map().remove(prefix)
        }
    }

    /// Every route once `peer` is gone: a route that only `peer` advertised is gone
    /// too, every other route loses `peer` from its peers and keeps the rest.
    pub open spec fn routes_without_peer(pre: Self, post: Self, peer: IpAddress) -> bool {
        &&& forall|r: IpAddress| #![trigger post.route_map().contains_key(r)]
            post.route_map().contains_key(r) <==> (pre.route_map().contains_key(r)
                && exists|y: IpAddress| pre.route_map()[r].has_peer(y) && y != peer)
        &&& forall|r: IpAddress| #![trigger post.route_map()[r]]
            post.route_map().contains_key(r) ==> {
                &&& post.route_map()[r].entry() == pre.route_map()[r].entry()
                &&& post.route_map()[r].creator == pre.route_map()[r].creator
                &&& forall|x: IpAddress| post.route_map()[r].has_peer(x) <==> (pre.route_map()[r].has_peer(x) && x != peer)
            }
    }

    /// Drops `peer` from the peers of route `prefix`, and the route itself when no
    /// peer is left. The peer table is not touched.
    fn unlink_route(&mut self, prefix: &IpAddress, peer: &IpAddress)
        requires
            old(self).tables_wf(),
            forall|r: IpAddress| #![trigger old(self).route_map()[r]] old(self).route_map().contains_key(r)
                ==> old(self).route_map()[r].peers@.no_duplicates(),
        ensures
            final(self).tables_wf(),
            final(self).peer_map() == old(self).peer_map(),
            Self::route_unlinked(*old(self), *final(self), *peer, *prefix),
            forall|r: IpAddress| #![trigger final(self).route_map()[r]] final(self).route_map().contains_key(r)
                ==> final(self).route_map()[r].peers@.no_duplicates(),
    {
        match self.routes.remove(prefix) {
            None => {
                proof {
                    assert(self.route_map() =~= old(self).route_map().remove(*prefix));
                }
            },
            Some(re) => {
                let mut re = re;
                assert(old(self).route_map()[*prefix] == re);
                assert(re.peers@.no_duplicates());
                re.delete_peer(peer);
                if re.get_number_of_peers() > 0 {
                    let ghost y = re.peers@[0];
                    assert(re.has_peer(y));
                    self.routes.insert(*prefix, re);
                    proof {
                        assert(self.route_map() =~= old(self).route_map().insert(*prefix, self.route_map()[*prefix]));
                    }
                } else {
                    proof {
                        assert forall|y: IpAddress| old(self).route_map()[*prefix].has_peer(y) implies y == *peer by {
                            if y != *peer {
                                assert(re.has_peer(y));
                            }
                        }
                    }
                }
            },
        }
    }

    /// Adds or rewrites route `prefix` on behalf of `peer`: -1 with nothing changed when
    /// there is no such peer; else 0 when the prefix is new to the peer, 1 when the peer
    /// had it already. The route's fields are global: every peer sees the new values.
    pub fn peer_route_add_modify(&mut self, peer: IpAddress, prefix: IpAddress, mask: IpAddress,
        next_hop: IpAddress, out_ifindex: u32) -> (r: i32)
        requires
            old(self).wf(),
        ensures
            final(self).wf(),
            !old(self).peer_map().contains_key(peer) ==> r == -1 && *final(self) == *old(self),
            old(self).peer_map().contains_key(peer) ==> {
                &&& r == (if old(self).peer_map()[peer].has_route(prefix) { 1i32 } else { 0i32 })
                &&& Self::route_written(*old(self), *final(self), peer, prefix, mask, next_hop, out_ifindex)
            },
    {
        if !self.peers.contains(&peer) {
            return -1;
        }
        let mut re = match self.routes.remove(&prefix) {
            Some(re) => re,
            None => RouteIntEntry::new(prefix, mask, next_hop, out_ifindex, peer),
        };
        assert(re.peers@.no_duplicates());
        re.mask = mask;
        re.next_hop = next_hop;
        re.out_ifindex = out_ifindex;
        re.creator = peer;
        re.add_peer(peer);
        self.routes.insert(prefix, re);
        let pe = self.peers.remove(&peer);
        let mut pe = pe.unwrap();
        assert(pe.routes@.no_duplicates());
        let had = insert_addr(&mut pe.routes, prefix);
        self.peers.insert(peer, pe);
        proof {
            assert(self.route_map() =~= old(self).route_map().insert(prefix, self.route_map()[prefix]));
            assert(self.peer_map() =~= old(self).peer_map().insert(peer, self.peer_map()[peer]));
            self.lemma_route_written_wf(*old(self), peer, prefix, mask, next_hop, out_ifindex);
        }
        if had { 1 } else { 0 }
    }

    proof fn lemma_route_written_wf(&self, pre: Self, peer: IpAddress, prefix: IpAddress, mask: IpAddress,
        next_hop: IpAddress, out_ifindex: u32)
        requires
            pre.wf(),
            self.tables_wf(),
            pre.peer_map().contains_key(peer),
            Self::route_written(pre, *self, peer, prefix, mask, next_hop, out_ifindex),
            self.route_map()[prefix].peers@.no_duplicates(),
            self.peer_map()[peer].routes@.no_duplicates(),
        ensures
            self.wf(),
    {
        assert(self.route_map()[prefix].has_peer(peer));
        assert forall|r: IpAddress, x: IpAddress|
            #![trigger self.route_map()[r].has_peer(x)]
            self.route_map().contains_key(r) && self.route_map()[r].has_peer(x) implies {
                &&& self.peer_map().contains_key(x)
                &&& self.peer_map()[x].has_route(r)
            } by {
            if r == prefix {
                if x != peer {
                    assert(pre.route_map()[prefix].has_peer(x));
                }
            } else {
                assert(pre.route_map()[r].has_peer(x));
            }
        }
        assert forall|p: IpAddress, x: IpAddress|
            #![trigger self.peer_map()[p].has_route(x)]
            self.peer_map().contains_key(p) && self.peer_map()[p].has_route(x) implies {
                &&& self.route_map().contains_key(x)
                &&& self.route_map()[x].has_peer(p)
            } by {
            if p == peer {
                if x != prefix {
                    assert(pre.peer_map()[p].has_route(x));
                }
            } else {
                assert(pre.peer_map()[p].has_route(x));
            }
        }
        assert forall|p: IpAddress| #![trigger self.peer_map()[p]] self.peer_map().contains_key(p) implies {
            &&& self.peer_map()[p].prefix == p
            &&& self.peer_map()[p].routes@.no_duplicates()
        } by {
            if p != peer {
                assert(pre.peer_map()[p] == self.peer_map()[p]);
            } else {
                assert(pre.peer_map()[p].prefix == p);
            }
        }
        assert forall|r: IpAddress| #![trigger self.route_map()[r]] self.route_map().contains_key(r) implies {
            &&& self.route_map()[r].prefix == r
            &&& self.route_map()[r].peers@.no_duplicates()
            &&& self.route_map()[r].peers@.len() > 0
        } by {
            if r != prefix {
                assert(pre.route_map()[r] == self.route_map()[r]);
            } else {
                assert(self.route_map()[r].peers@.contains(peer));
            }
        }
    }

    /// Adds route `prefix` for `peer` where the peer does not have it yet: -1 when there
    /// is no such peer, -2 when the peer has the prefix already; nothing changes then.
    pub fn peer_route_add(&mut self, peer: IpAddress, prefix: IpAddress, mask: IpAddress,
        next_hop: IpAddress, out_ifindex: u32) -> (r: i32)
        requires
            old(self).wf(),
        ensures
            final(self).wf(),
            !old(self).peer_map().contains_key(peer) ==> r == -1 && *final(self) == *old(self),
            old(self).peer_map().contains_key(peer) && old(self).peer_map()[peer].has_route(prefix) ==> r == -2
                && *final(self) == *old(self),
            old(self).peer_map().contains_key(peer) && !old(self).peer_map()[peer].has_route(prefix) ==> {
                &&& r == 0
                &&& Self::route_written(*old(self), *final(self), peer, prefix, mask, next_hop, out_ifindex)
            },
    {
        match self.peers.get(&peer) {
            None => -1,
            Some(pe) => {
                if contains_addr(&pe.routes, &prefix) {
                    -2
                } else {
                    self.peer_route_add_modify(peer, prefix, mask, next_hop, out_ifindex)
                }
            },
        }
    }

    /// The route `prefix` as seen through `peer`: `Err(-1)` when there is no such peer,
    /// `Err(-2)` when the peer does not advertise the prefix.
    pub fn peer_route_lookup(&self, peer: &IpAddress, prefix: &IpAddress) -> (r: Result<RouteEntry, i32>)
        requires
            self.wf(),
        ensures
            !self.peer_map().contains_key(*peer) ==> r == Err::<RouteEntry, i32>(-1i32),
            self.peer_map().contains_key(*peer) && !self.peer_map()[*peer].has_route(*prefix)
                ==> r == Err::<RouteEntry, i32>(-2i32),
            self.peer_map().contains_key(*peer) && self.peer_map()[*peer].has_route(*prefix)
                ==> r == Ok::<RouteEntry, i32>(self.route_map()[*prefix].entry()),
    {
        match self.peers.get(peer) {
            None => Err(-1),
            Some(pe) => {
                if !contains_addr(&pe.routes, prefix) {
                    return Err(-2);
                }
                proof {
                    assert(self.peer_map()[*peer].has_route(*prefix));
                }
                match self.routes.get(prefix) {
                    Some(re) => Ok(RouteEntry {
                        prefix: re.prefix,
                        mask: re.mask,
                        next_hop: re.next_hop,
                        out_ifindex: re.out_ifindex,
                    }),
                    None => Err(-2),
                }
            },
        }
    }

    /// Withdraws route `prefix` from `peer`: -1 when there is no such peer, -2 when the
    /// peer does not advertise it (nothing changes then); else 0, and the route leaves
    /// the global table when `peer` was the last to advertise it.
    pub fn peer_route_delete(&mut self, peer: &IpAddress, prefix: &IpAddress) -> (r: i32)
        requires
            old(self).wf(),
        ensures
            final(self).wf(),
            !old(self).peer_map().contains_key(*peer) ==> r == -1 && *final(self) == *old(self),
            old(self).peer_map().contains_key(*peer) && !old(self).peer_map()[*peer].has_route(*prefix)
                ==> r == -2 && *final(self) == *old(self),
            old(self).peer_map().contains_key(*peer) && old(self).peer_map()[*peer].has_route(*prefix) ==> {
                &&& r == 0
                &&& Self::route_unlinked(*old(self), *final(self), *peer, *prefix)
                &&& final(self).peer_map() == old(self).peer_map().insert(*peer, final(self).peer_map()[*peer])
                &&& final(self).peer_map()[*peer].prefix == *peer
                &&& final(self).peer_map()[*peer].out_ifindex == old(self).peer_map()[*peer].out_ifindex
                &&& forall|x: IpAddress| final(self).peer_map()[*peer].has_route(x)
                    <==> (old(self).peer_map()[*peer].has_route(x) && x != *prefix)
            },
    {
        match self.peers.get(peer) {
            None => {
                return -1;
            },
            Some(pe) => {
                if !contains_addr(&pe.routes, prefix) {
                    return -2;
                }
            },
        }
        let ghost pre = *self;
        let mut pe = self.peers.remove(peer).unwrap();
        assert(pe.routes@.no_duplicates());
        remove_addr(&mut pe.routes, prefix);
        self.peers.insert(*peer, pe);
        let ghost mid = *self;
        proof {
            assert(mid.peer_map() =~= pre.peer_map().insert(*peer, mid.peer_map()[*peer]));
        }
        self.unlink_route(prefix, peer);
        proof {
            assert(pre.peer_map()[*peer].has_route(*prefix));
            assert(pre.route_map()[*prefix].has_peer(*peer));
            self.lemma_unlink_wf(pre, *peer, *prefix);
        }
        0
    }

    proof fn lemma_unlink_wf(&self, pre: Self, peer: IpAddress, prefix: IpAddress)
        requires
            pre.wf(),
            self.tables_wf(),
            pre.peer_map().contains_key(peer),
            pre.route_map().contains_key(prefix),
            Self::route_unlinked(pre, *self, peer, prefix),
            forall|r: IpAddress| #![trigger self.route_map()[r]] self.route_map().contains_key(r)
                ==> self.route_map()[r].peers@.no_duplicates(),
            self.peer_map() == pre.peer_map().insert(peer, self.peer_map()[peer]),
            self.peer_map()[peer].prefix == peer,
            self.peer_map()[peer].routes@.no_duplicates(),
            forall|x: IpAddress| self.peer_map()[peer].has_route(x) <==> (pre.peer_map()[peer].has_route(x) && x != prefix),
        ensures
            self.wf(),
    {
        assert forall|r: IpAddress, x: IpAddress|
            #![trigger self.route_map()[r].has_peer(x)]
            self.route_map().contains_key(r) && self.route_map()[r].has_peer(x) implies {
                &&& self.peer_map().contains_key(x)
                &&& self.peer_map()[x].has_route(r)
            } by {
            assert(pre.route_map()[r].has_peer(x));
        }
        assert forall|p: IpAddress, x: IpAddress|
            #![trigger self.peer_map()[p].has_route(x)]
            self.peer_map().contains_key(p) && self.peer_map()[p].has_route(x) implies {
                &&& self.route_map().contains_key(x)
                &&& self.route_map()[x].has_peer(p)
            } by {
            assert(pre.peer_map()[p].has_route(x));
            assert(pre.route_map()[x].has_peer(p));
            if x == prefix {
                assert(p != peer);
            }
        }
        assert forall|p: IpAddress| #![trigger self.peer_map()[p]] self.peer_map().contains_key(p) implies {
            &&& self.peer_map()[p].prefix == p
            &&& self.peer_map()[p].routes@.no_duplicates()
        } by {
            if p != peer {
                assert(pre.peer_map()[p] == self.peer_map()[p]);
            }
        }
        assert forall|r: IpAddress| #![trigger self.route_map()[r]] self.route_map().contains_key(r) implies {
            &&& self.route_map()[r].prefix == r
            &&& self.route_map()[r].peers@.no_duplicates()
            &&& self.route_map()[r].peers@.len() > 0
        } by {
            if r != prefix {
                assert(pre.route_map()[r] == self.route_map()[r]);
            } else {
                let y = choose|y: IpAddress| pre.route_map()[prefix].has_peer(y) && y != peer;
                assert(self.route_map()[r].has_peer(y));
            }
        }
    }

    /// Deletes the peer: -1 with nothing changed when there is no such peer; else 0.
    /// The peer leaves the peers of every route it advertised, and each route that it
    /// alone advertised leaves the global table.
    pub fn peer_delete(&mut self, addr: &IpAddress) -> (r: i32)
        requires
            old(self).wf(),
        ensures
            final(self).wf(),
            !old(self).peer_map().contains_key(*addr) ==> r == -1 && *final(self) == *old(self),
            old(self).peer_map().contains_key(*addr) ==> {
                &&& r == 0
                &&& final(self).peer_map() == old(self).peer_map().remove(*addr)
                &&& Self::routes_without_peer(*old(self), *final(self), *addr)
            },
    {
        let ghost pre = *self;
        if !self.peers.contains(addr) {
            return -1;
        }
        let pe = self.peers.remove(addr).unwrap();
        let routes = pe.routes;
        assert(routes@.no_duplicates());
        let mut i: usize = 0;
        while i < routes.len()
            invariant
                pre.wf(),
                pre.peer_map().contains_key(*addr),
                routes@ == pre.peer_map()[*addr].routes@,
                i <= routes@.len(),
                self.tables_wf(),
                self.peer_map() == pre.peer_map().remove(*addr),
                forall|r: IpAddress| #![trigger self.route_map()[r]] self.route_map().contains_key(r)
                    ==> self.route_map()[r].peers@.no_duplicates(),
                forall|r: IpAddress| #![trigger self.route_map().contains_key(r)]
                    self.route_map().contains_key(r) <==> (pre.route_map().contains_key(r)
                        && (listed_before(routes@, i as int, r)
                            ==> exists|y: IpAddress| pre.route_map()[r].has_peer(y) && y != *addr)),
                forall|r: IpAddress| #![trigger self.route_map()[r]]
                    self.route_map().contains_key(r) ==> {
                        &&& self.route_map()[r].entry() == pre.route_map()[r].entry()
                        &&& self.route_map()[r].creator == pre.route_map()[r].creator
                        &&& forall|x: IpAddress| self.route_map()[r].has_peer(x) <==> (pre.route_map()[r].has_peer(x)
                            && (listed_before(routes@, i as int, r) ==> x != *addr))
                    },
            decreases routes@.len() - i,
        {
            let r = routes[i];
            let ghost before = *self;
            proof {
                assert forall|j: int| 0 <= j < i implies routes@[j] != r by {
                    assert(routes@[i as int] == r);
                }
                if before.route_map().contains_key(r) {
                    assert(before.route_map()[r].has_peer(*addr) == pre.route_map()[r].has_peer(*addr));
                }
            }
            self.unlink_route(&r, addr);
            let ghost k = i as int;
            i = i + 1;
            proof {
                assert(routes@[k] == r);
                assert forall|q: IpAddress| #![trigger self.route_map().contains_key(q)]
                    self.route_map().contains_key(q) <==> (pre.route_map().contains_key(q)
                        && (listed_before(routes@, i as int, q)
                            ==> exists|y: IpAddress| pre.route_map()[q].has_peer(y) && y != *addr)) by {
                    if q == r {
                        assert(0 <= k < i && routes@[k] == q);
                        if pre.route_map().contains_key(q) && (exists|y: IpAddress| pre.route_map()[q].has_peer(y) && y != *addr) {
                            let y = choose|y: IpAddress| pre.route_map()[q].has_peer(y) && y != *addr;
                            assert(before.route_map()[q].has_peer(y));
                        }
                        if before.route_map().contains_key(q) && (exists|y: IpAddress| before.route_map()[q].has_peer(y) && y != *addr) {
                            let y = choose|y: IpAddress| before.route_map()[q].has_peer(y) && y != *addr;
                            assert(pre.route_map()[q].has_peer(y));
                        }
                    } else {
                        if listed_before(routes@, i as int, q) {
                            let j = choose|j: int| 0 <= j < i && routes@[j] == q;
                            assert(j < k);
                        }
                        if listed_before(routes@, k, q) {
                            let j = choose|j: int| 0 <= j < k && routes@[j] == q;
                            assert(0 <= j < i && routes@[j] == q);
                        }
                    }
                }
                assert forall|q: IpAddress| #![trigger self.route_map()[q]]
                    self.route_map().contains_key(q) implies {
                        &&& self.route_map()[q].entry() == pre.route_map()[q].entry()
                        &&& self.route_map()[q].creator == pre.route_map()[q].creator
                        &&& forall|x: IpAddress| self.route_map()[q].has_peer(x) <==> (pre.route_map()[q].has_peer(x)
                            && (listed_before(routes@, i as int, q) ==> x != *addr))
                    } by {
                    if q == r {
                        assert(0 <= k < i && routes@[k] == q);
                        assert(before.route_map().contains_key(q));
                        assert(!listed_before(routes@, k, q));
                        let bq = before.route_map()[q];
                        assert(bq.entry() == pre.route_map()[q].entry());
                        assert forall|x: IpAddress| self.route_map()[q].has_peer(x) <==> (pre.route_map()[q].has_peer(x)
                            && (listed_before(routes@, i as int, q) ==> x != *addr)) by {
                            assert(bq.has_peer(x) <==> pre.route_map()[q].has_peer(x));
                        }
                    } else {
                        if listed_before(routes@, i as int, q) {
                            let j = choose|j: int| 0 <= j < i && routes@[j] == q;
                            assert(j < k);
                        }
                        if listed_before(routes@, k, q) {
                            let j = choose|j: int| 0 <= j < k && routes@[j] == q;
                            assert(0 <= j < i && routes@[j] == q);
                        }
                        assert(listed_before(routes@, i as int, q)
                            == listed_before(routes@, k, q));
                        let bq = before.route_map()[q];
                        assert(bq == self.route_map()[q]);
                        assert(bq.entry() == pre.route_map()[q].entry());
                        assert forall|x: IpAddress| self.route_map()[q].has_peer(x) <==> (pre.route_map()[q].has_peer(x)
                            && (listed_before(routes@, i as int, q) ==> x != *addr)) by {
                            assert(bq.has_peer(x) <==> (pre.route_map()[q].has_peer(x)
                                && (listed_before(routes@, k, q) ==> x != *addr)));
                        }
                    }
                }
            }
        }
        proof {
            assert forall|q: IpAddress| pre.route_map().contains_key(q) && !(exists|j: int| 0 <= j < routes@.len() && routes@[j] == q)
                implies !pre.route_map()[q].has_peer(*addr) && pre.route_map()[q].has_peer(pre.route_map()[q].peers@[0]) by {
                if pre.route_map()[q].has_peer(*addr) {
                    assert(pre.peer_map()[*addr].has_route(q));
                    let j = choose|j: int| 0 <= j < routes@.len() && routes@[j] == q;
                }
                assert(pre.route_map()[q].peers@.len() > 0);
            }
            self.lemma_peer_removed_wf(pre, *addr);
        }
        0
    }

    proof fn lemma_peer_removed_wf(&self, pre: Self, addr: IpAddress)
        requires
            pre.wf(),
            self.tables_wf(),
            self.peer_map() == pre.peer_map().remove(addr),
            Self::routes_without_peer(pre, *self, addr),
            forall|r: IpAddress| #![trigger self.route_map()[r]] self.route_map().contains_key(r)
                ==> self.route_map()[r].peers@.no_duplicates(),
        ensures
            self.wf(),
    {
        assert forall|r: IpAddress, x: IpAddress|
            #![trigger self.route_map()[r].has_peer(x)]
            self.route_map().contains_key(r) && self.route_map()[r].has_peer(x) implies {
                &&& self.peer_map().contains_key(x)
                &&& self.peer_map()[x].has_route(r)
            } by {
            assert(pre.route_map()[r].has_peer(x));
        }
        assert forall|p: IpAddress, x: IpAddress|
            #![trigger self.peer_map()[p].has_route(x)]
            self.peer_map().contains_key(p) && self.peer_map()[p].has_route(x) implies {
                &&& self.route_map().contains_key(x)
                &&& self.route_map()[x].has_peer(p)
            } by {
            assert(pre.peer_map()[p].has_route(x));
            assert(pre.route_map()[x].has_peer(p));
            assert(self.route_map().contains_key(x));
        }
        assert forall|p: IpAddress| #![trigger self.peer_map()[p]] self.peer_map().contains_key(p) implies {
            &&& self.peer_map()[p].prefix == p
            &&& self.peer_map()[p].routes@.no_duplicates()
        } by {
            assert(pre.peer_map()[p] == self.peer_map()[p]);
        }
        assert forall|r: IpAddress| #![trigger self.route_map()[r]] self.route_map().contains_key(r) implies {
            &&& self.route_map()[r].prefix == r
            &&& self.route_map()[r].peers@.no_duplicates()
            &&& self.route_map()[r].peers@.len() > 0
        } by {
            assert(self.route_map().contains_key(r));
            let y = choose|y: IpAddress| pre.route_map()[r].has_peer(y) && y != addr;
            assert(self.route_map()[r].has_peer(y));
            assert(pre.route_map()[r].prefix == r);
        }
    }

    /// The peers of one address family (IPv4 when `v4`), each once, in table order.
    pub fn peer_iterate(&self, v4: bool) -> (r: Vec<PeerEntry>)
        requires
            self.wf(),
        ensures
            forall|i: int| #![trigger r@[i]] 0 <= i < r@.len() ==> {
                &&& self.peer_map().contains_key(r@[i].prefix)
                &&& r@[i].out_ifindex == self.peer_map()[r@[i].prefix].out_ifindex
                &&& (r@[i].prefix is V4) == v4
            },
            forall|p: IpAddress| #![trigger self.peer_map().contains_key(p)]
                self.peer_map().contains_key(p) && (p is V4) == v4 ==> exists|i: int| 0 <= i < r@.len() && #[trigger] r@[i].prefix == p,
            forall|i: int, j: int| 0 <= i < r@.len() && 0 <= j < r@.len() && i != j ==> r@[i].prefix != r@[j].prefix,
    {
        proof {
            self.peers.lemma_entries();
        }
        let mut out: Vec<PeerEntry> = Vec::new();
        let mut k: usize = 0;
        let n = self.peers.len();
        while k < n
            invariant
                n == self.peers.entries().len(),
                k <= n,
                self.wf(),
                forall|i: int| #![trigger out@[i]] 0 <= i < out@.len() ==> {
                    &&& self.peer_map().contains_key(out@[i].prefix)
                    &&& out@[i].out_ifindex == self.peer_map()[out@[i].prefix].out_ifindex
                    &&& (out@[i].prefix is V4) == v4
                    &&& exists|j: int| 0 <= j < k && self.peers.entries()[j].addr == out@[i].prefix
                },
                forall|j: int| 0 <= j < k && (self.peers.entries()[j].addr is V4) == v4
                    ==> exists|i: int| 0 <= i < out@.len() && #[trigger] out@[i].prefix == self.peers.entries()[j].addr,
                forall|i: int, j: int| 0 <= i < out@.len() && 0 <= j < out@.len() && i != j ==> out@[i].prefix != out@[j].prefix,
            decreases n - k,
        {
            let slot = self.peers.slot(k);
            proof {
                self.peers.lemma_entries();
            }
            if slot.addr.is_v4() == v4 {
                let ghost before = out@;
                proof {
                    assert(self.peer_map()[slot.addr] == slot.val);
                    assert(slot.val.prefix == slot.addr);
                    assert forall|i: int| 0 <= i < before.len() implies before[i].prefix != slot.addr by {
                        let j = choose|j: int| 0 <= j < k && self.peers.entries()[j].addr == before[i].prefix;
                        if before[i].prefix == slot.addr {
                            assert(self.peers.entries()[j].addr == self.peers.entries()[k as int].addr);
                        }
                    }
                }
                out.push(PeerEntry { prefix: slot.addr, out_ifindex: slot.val.out_ifindex });
                proof {
                    assert(out@[before.len() as int].prefix == self.peers.entries()[k as int].addr);
                    assert forall|i: int| #![trigger out@[i]] 0 <= i < out@.len() implies
                        exists|j: int| 0 <= j < k + 1 && self.peers.entries()[j].addr == out@[i].prefix by {
                        if i < before.len() {
                            assert(out@[i] == before[i]);
                        } else {
                            assert(self.peers.entries()[k as int].addr == out@[i].prefix);
                        }
                    }
                    assert forall|j: int| 0 <= j < k + 1 && (self.peers.entries()[j].addr is V4) == v4
                        implies exists|i: int| 0 <= i < out@.len() && #[trigger] out@[i].prefix == self.peers.entries()[j].addr by {
                        if j < k {
                            let i = choose|i: int| 0 <= i < before.len() && #[trigger] before[i].prefix == self.peers.entries()[j].addr;
                            assert(out@[i] == before[i]);
                        }
                    }
                }
            }
            k = k + 1;
        }
        proof {
            assert forall|p: IpAddress| #![trigger self.peer_map().contains_key(p)]
                self.peer_map().contains_key(p) && (p is V4) == v4 implies exists|i: int| 0 <= i < out@.len() && #[trigger] out@[i].prefix == p by {
                let j = choose|j: int| 0 <= j < self.peers.entries().len() && #[trigger] self.peers.entries()[j].addr == p;
                assert((self.peers.entries()[j].addr is V4) == v4);
            }
        }
        out
    }

    /// Deleting the only peer that advertises route `r` removes `r` from the global
    /// table; deleting one of two peers that advertise it leaves `r` with the other alone.
    pub proof fn lemma_last_peer_cleanup(pre: Self, post: Self, p: IpAddress, q: IpAddress, r: IpAddress)
        requires
            pre.wf(),
            post.peer_map() == pre.peer_map().remove(p),
            Self::routes_without_peer(pre, post, p),
            pre.route_map().contains_key(r),
        ensures
            (forall|y: IpAddress| pre.route_map()[r].has_peer(y) ==> y == p) ==> !post.route_map().contains_key(r),
            q != p && pre.route_map()[r].has_peer(q) && (forall|y: IpAddress| pre.route_map()[r].has_peer(y) ==> y == p || y == q)
                ==> post.route_map().contains_key(r) && (forall|y: IpAddress| post.route_map()[r].has_peer(y) <==> y == q),
    {
        if q != p && pre.route_map()[r].has_peer(q) {
            assert(post.route_map().contains_key(r));
        }
    }

    /// Calling `peer_add_modify` twice on one address leaves exactly one peer there,
    /// with the later interface, and the second call reports a modification.
    pub proof fn lemma_add_modify_twice(s0: Self, s1: Self, s2: Self, addr: IpAddress, if1: u32, if2: u32, r1: i32, r2: i32)
        requires
            Self::peer_add_modify_post(s0, s1, addr, if1, r1),
            Self::peer_add_modify_post(s1, s2, addr, if2, r2),
        ensures
            r2 == 1,
            s2.peer_map().contains_key(addr),
            s2.peer_map()[addr].out_ifindex == if2,
            s2.peer_map().dom() == s0.peer_map().dom().insert(addr),
            s2.route_map() == s0.route_map(),
    {
        assert(s1.peer_map().contains_key(addr));
        assert(s2.peer_map().dom() =~= s0.peer_map().dom().insert(addr));
    }

    /// The peers that advertise route `prefix`, each once; empty when there is no such route.
    pub fn route_peers(&self, prefix: &IpAddress) -> (r: Vec<IpAddress>)
        requires
            self.wf(),
        ensures
            r@.no_duplicates(),
            forall|x: IpAddress| r@.contains(x) <==> (self.route_map().contains_key(*prefix)
                && self.route_map()[*prefix].has_peer(x)),
    {
        let mut out: Vec<IpAddress> = Vec::new();
        match self.routes.get(prefix) {
            Some(re) => {
                let mut i: usize = 0;
                while i < re.peers.len()
                    invariant
                        i <= re.peers@.len(),
                        re.peers@.no_duplicates(),
                        out@ == re.peers@.subrange(0, i as int),
                    decreases re.peers@.len() - i,
                {
                    out.push(re.peers[i]);
                    proof {
                        assert(out@ =~= re.peers@.subrange(0, i + 1));
                    }
                    i = i + 1;
                }
                proof {
                    assert(out@ =~= re.peers@);
                }
            },
            None => {},
        }
        out
    }
}

} // verus!
