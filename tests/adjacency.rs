use mpls_sim::addr::IpAddress;
use mpls_sim::adjacency::{AdjacencyStore, PeerEntry, RouteEntry};
use mpls_sim::forwarding::{ForwardingEntry, PrefixTree};
use mpls_sim::storage;

fn v4(a: u8, b: u8, c: u8, d: u8) -> IpAddress {
    IpAddress::v4(a, b, c, d)
}

fn mask24() -> IpAddress {
    v4(255, 255, 255, 0)
}

#[test]
fn peer_entry_test() {
    let mut s = AdjacencyStore::new();
    let p = v4(10, 0, 0, 1);
    assert_eq!(s.peer_add_modify(p, 5), 0);
    assert_eq!(s.peer_lookup(&p), Some(PeerEntry { prefix: p, out_ifindex: 5 }));
    assert_eq!(s.peer_add_modify(p, 7), 1);
    assert_eq!(s.peer_lookup(&p), Some(PeerEntry { prefix: p, out_ifindex: 7 }));
    assert_eq!(s.peer_delete(&p), 0);
    assert_eq!(s.peer_lookup(&p), None);
    assert_eq!(s.peer_delete(&p), -1);
}

#[test]
fn peer_entry_test2() {
    let mut s = AdjacencyStore::new();
    let p4 = v4(192, 168, 0, 1);
    let p6 = IpAddress::V6(0x2001_0db8_0000_0000, 1);
    assert_eq!(s.peer_add(p4, 1), 0);
    assert_eq!(s.peer_add(p6, 2), 0);
    assert_eq!(s.peer_add(p4, 3), -1);
    assert_eq!(s.peer_lookup(&p4).unwrap().out_ifindex, 1);
    assert_eq!(s.peer_lookup(&p6).unwrap().out_ifindex, 2);
    let v4_peers = s.peer_iterate(true);
    assert_eq!(v4_peers, vec![PeerEntry { prefix: p4, out_ifindex: 1 }]);
    let v6_peers = s.peer_iterate(false);
    assert_eq!(v6_peers, vec![PeerEntry { prefix: p6, out_ifindex: 2 }]);
}

#[test]
fn peer_route_entry_test1() {
    let mut s = AdjacencyStore::new();
    let p = v4(10, 0, 0, 1);
    let r = v4(192, 168, 1, 0);
    assert_eq!(s.peer_route_add_modify(p, r, mask24(), p, 5), -1);
    assert_eq!(s.peer_add(p, 5), 0);
    assert_eq!(s.peer_route_add_modify(p, r, mask24(), p, 5), 0);
    assert_eq!(s.peer_route_add_modify(p, r, mask24(), v4(10, 0, 0, 9), 6), 1);
    let e = s.peer_route_lookup(&p, &r).unwrap();
    assert_eq!(e, RouteEntry { prefix: r, mask: mask24(), next_hop: v4(10, 0, 0, 9), out_ifindex: 6 });
    assert_eq!(s.route_lookup(&r), Some(e));
}

#[test]
fn peer_route_entry_test2() {
    let mut s = AdjacencyStore::new();
    let p = v4(10, 0, 0, 1);
    let r = v4(192, 168, 1, 0);
    let other = v4(192, 168, 2, 0);
    assert_eq!(s.peer_route_lookup(&p, &r), Err(-1));
    assert_eq!(s.peer_add(p, 5), 0);
    assert_eq!(s.peer_route_lookup(&p, &r), Err(-2));
    assert_eq!(s.peer_route_add(p, r, mask24(), p, 5), 0);
    assert_eq!(s.peer_route_add(p, r, mask24(), p, 5), -2);
    assert_eq!(s.peer_route_delete(&p, &other), -2);
    assert_eq!(s.peer_route_delete(&v4(1, 1, 1, 1), &r), -1);
    assert_eq!(s.peer_route_delete(&p, &r), 0);
    assert_eq!(s.peer_route_lookup(&p, &r), Err(-2));
    assert_eq!(s.route_lookup(&r), None);
}

#[test]
fn peer_route_entry_test3() {
    let mut s = AdjacencyStore::new();
    let p1 = v4(10, 0, 0, 1);
    let p2 = v4(10, 0, 0, 2);
    let r = v4(192, 168, 1, 0);
    assert_eq!(s.peer_add(p1, 1), 0);
    assert_eq!(s.peer_add(p2, 2), 0);
    assert_eq!(s.peer_route_add(p1, r, mask24(), p1, 1), 0);
    assert_eq!(s.peer_route_add(p2, r, mask24(), p2, 2), 0);
    // the route's fields are global: the last writer's values show through both peers
    assert_eq!(s.peer_route_lookup(&p1, &r).unwrap().next_hop, p2);
    assert_eq!(s.peer_delete(&p1), 0);
    assert_eq!(s.route_lookup(&r).unwrap().out_ifindex, 2);
    assert_eq!(s.peer_route_lookup(&p2, &r).unwrap().prefix, r);
    assert_eq!(s.peer_delete(&p2), 0);
    assert_eq!(s.route_lookup(&r), None);
}

#[test]
fn prefix_entry_test1() {
    let mut t = PrefixTree::new();
    let a = v4(10, 1, 0, 0);
    let b = IpAddress::V6(7, 9);
    let fa = ForwardingEntry { next_hop: v4(10, 0, 0, 254), out_ifindex: 3 };
    let fb = ForwardingEntry { next_hop: IpAddress::V6(1, 1), out_ifindex: 4 };
    assert_eq!(t.longest_match_lookup(&a), None);
    assert_eq!(t.longest_match_add(a, fa), 0);
    assert_eq!(t.longest_match_add(b, fb), 0);
    assert_eq!(t.longest_match_lookup(&a), Some(fa));
    assert_eq!(t.longest_match_lookup(&b), Some(fb));
    assert_eq!(t.longest_match_lookup(&v4(10, 1, 0, 1)), None);
    assert_eq!(t.longest_match_delete(&a), 0);
    assert_eq!(t.longest_match_delete(&a), -1);
    assert_eq!(t.longest_match_lookup(&a), None);
    assert_eq!(t.longest_match_lookup(&b), Some(fb));
}

#[test]
fn concrete_peer_route_scenario() {
    let mut s = AdjacencyStore::new();
    let p = v4(10, 0, 0, 1);
    let r = v4(192, 168, 1, 0);
    assert_eq!(s.peer_add(p, 5), 0);
    assert_eq!(s.peer_route_add(p, r, mask24(), p, 5), 0);
    let e = s.peer_route_lookup(&p, &r).unwrap();
    assert_eq!(e.next_hop, p);
    assert_eq!(e.out_ifindex, 5);
    assert_eq!(s.peer_delete(&p), 0);
    assert_eq!(s.route_lookup(&r), None);
}

#[test]
fn last_peer_cleanup_keeps_shared_route() {
    let mut s = AdjacencyStore::new();
    let p1 = v4(10, 0, 0, 1);
    let p2 = v4(10, 0, 0, 2);
    let r = v4(172, 16, 0, 0);
    s.peer_add(p1, 1);
    s.peer_add(p2, 2);
    s.peer_route_add_modify(p1, r, mask24(), p1, 1);
    s.peer_route_add_modify(p2, r, mask24(), p2, 2);
    assert_eq!(s.peer_delete(&p2), 0);
    assert!(s.route_lookup(&r).is_some());
    assert_eq!(s.peer_route_lookup(&p1, &r).unwrap().prefix, r);
    assert_eq!(s.peer_route_delete(&p1, &r), 0);
    assert_eq!(s.route_lookup(&r), None);
}

#[test]
fn add_modify_twice_keeps_one_peer() {
    let mut s = AdjacencyStore::new();
    let p = v4(10, 0, 0, 3);
    assert_eq!(s.peer_add_modify(p, 1), 0);
    assert_eq!(s.peer_add_modify(p, 9), 1);
    assert_eq!(s.peer_iterate(true), vec![PeerEntry { prefix: p, out_ifindex: 9 }]);
}

#[test]
fn mirror_holds_after_mixed_operations() {
    let mut s = AdjacencyStore::new();
    let peers = [v4(1, 0, 0, 1), v4(1, 0, 0, 2), v4(1, 0, 0, 3)];
    let routes = [v4(9, 0, 0, 0), v4(9, 0, 1, 0), v4(9, 0, 2, 0)];
    for (i, p) in peers.iter().enumerate() {
        s.peer_add(*p, i as u32);
        for r in routes.iter().skip(i) {
            s.peer_route_add_modify(*p, *r, mask24(), *p, i as u32);
        }
    }
    s.peer_route_delete(&peers[0], &routes[2]);
    s.peer_delete(&peers[1]);
    // peer 0 advertises routes 0 and 1; peer 2 advertises route 2
    assert!(s.peer_route_lookup(&peers[0], &routes[0]).is_ok());
    assert!(s.peer_route_lookup(&peers[0], &routes[1]).is_ok());
    assert_eq!(s.peer_route_lookup(&peers[0], &routes[2]), Err(-2));
    assert_eq!(s.peer_route_lookup(&peers[2], &routes[2]).unwrap().prefix, routes[2]);
    assert!(s.route_lookup(&routes[1]).is_some());
    s.peer_delete(&peers[0]);
    assert_eq!(s.route_lookup(&routes[0]), None);
    assert_eq!(s.route_lookup(&routes[1]), None);
    assert!(s.route_lookup(&routes[2]).is_some());
}

#[test]
fn simple_route_store() {
    let mut t = storage::RouteStore::new();
    let mut e = storage::RouteEntry::new(0, 0, 0);
    assert_eq!(storage::route_lookup(&t, 42, &mut e), Err(-1));
    storage::route_add(&mut t, 42, storage::RouteEntry::new(42, 7, 3));
    assert_eq!(storage::route_lookup(&t, 42, &mut e), Ok(0));
    assert_eq!(e.get_prefix(), 42);
    assert_eq!(e.get_next_hop(), 7);
    assert_eq!(e.get_out_ifindex(), 3);
    assert_eq!(storage::route_delete(&mut t, 42), Ok(0));
    assert_eq!(storage::route_lookup(&t, 42, &mut e), Err(-1));
}

#[test]
fn address_keys_and_octets() {
    let a = v4(10, 0, 0, 1);
    assert_eq!(a, IpAddress::V4(0x0a00_0001));
    assert_eq!(a.octets(), vec![10, 0, 0, 1]);
    assert_eq!(a.key(), vec![4, 10, 0, 0, 1]);
    let b = IpAddress::V6(0x2001_0db8_0000_0000, 0x0000_0000_0000_0001);
    let o = b.octets();
    assert_eq!(o.len(), 16);
    assert_eq!(&o[0..4], &[0x20, 0x01, 0x0d, 0xb8]);
    assert_eq!(o[15], 1);
    assert_eq!(b.key()[0], 6);
}

/// Checks in both directions that a peer lists a route exactly when the route lists the peer.
fn assert_mirror(s: &AdjacencyStore, peers: &[IpAddress], routes: &[IpAddress]) {
    for p in peers {
        for r in routes {
            let peer_has = s.peer_route_lookup(p, r).is_ok();
            let route_has = s.route_peers(r).contains(p);
            assert_eq!(peer_has, route_has);
            if route_has {
                assert!(s.peer_lookup(p).is_some());
            }
        }
    }
    for r in routes {
        assert_eq!(s.route_lookup(r).is_some(), !s.route_peers(r).is_empty());
    }
}

#[test]
fn mirror_survives_random_operation_sequences() {
    let peers: Vec<IpAddress> = (1..=4).map(|i| v4(10, 0, 0, i)).collect();
    let routes: Vec<IpAddress> = (0..5).map(|i| v4(172, 16, i, 0)).collect();
    let mut seed: u64 = 0x2545_f491_4f6c_dd1d;
    let mut s = AdjacencyStore::new();
    for _ in 0..2000 {
        seed = seed.wrapping_mul(6364136223846793005).wrapping_add(1442695040888963407);
        let op = (seed >> 33) % 6;
        let p = peers[((seed >> 40) % 4) as usize];
        let r = routes[((seed >> 48) % 5) as usize];
        match op {
            0 => {
                s.peer_add_modify(p, (seed % 7) as u32);
            }
            1 => {
                s.peer_delete(&p);
            }
            2 | 3 => {
                s.peer_route_add_modify(p, r, mask24(), p, 1);
            }
            4 => {
                s.peer_route_delete(&p, &r);
            }
            _ => {
                s.peer_route_add(p, r, mask24(), p, 2);
            }
        }
        assert_mirror(&s, &peers, &routes);
    }
}
