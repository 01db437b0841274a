use mpls_sim::addr::IpAddress;
use mpls_sim::id_map::{IdMap, ID_SPACE};
use mpls_sim::mpls::{MplsState, NhEntry};
use mpls_sim::request::{FtnAddData, FtnDelData, IlmAddData, IlmDelData, IpAddrC, NhAddDel};

fn v4(a: u8, b: u8, c: u8, d: u8) -> IpAddress {
    IpAddress::v4(a, b, c, d)
}

#[test]
fn id_map_hands_out_lowest_free() {
    let mut m = IdMap::new();
    assert_eq!(m.get_free(), 1);
    assert_eq!(m.get_free(), 2);
    assert_eq!(m.get_free(), 3);
    m.put_free(2);
    assert!(!m.is_taken(2));
    assert_eq!(m.get_free(), 2);
    m.put_free(0);
    m.put_free(ID_SPACE + 1);
    assert!(m.is_taken(1));
    for _ in 3..ID_SPACE {
        assert_ne!(m.get_free(), 0);
    }
    assert!(m.is_taken(ID_SPACE as u32));
    assert_eq!(m.get_free(), 0);
}

#[test]
fn ftn_comes_up_with_next_hop() {
    let mut s = MplsState::new();
    let fec = v4(10, 0, 0, 0);
    let nh = v4(20, 0, 0, 1);
    assert_eq!(s.ftn_add(fec, nh, 3, 100, 1), 0);
    assert_eq!(s.ftn_state(&fec, 1), Some(false));
    assert_eq!(s.nh_lookup(&nh), Some(NhEntry { connected: false, physical: false }));
    assert_eq!(s.nh_add_del(nh, 3, true), 0);
    assert_eq!(s.ftn_state(&fec, 1), Some(true));
    assert_eq!(s.nh_lookup(&nh), Some(NhEntry { connected: true, physical: true }));
}

#[test]
fn stacked_ftn_follows_its_parent() {
    let mut s = MplsState::new();
    let n = v4(20, 0, 0, 1);
    let a_fec = v4(10, 0, 0, 0);
    let b_fec = v4(30, 0, 0, 0);
    assert_eq!(s.ftn_add(a_fec, n, 3, 100, 1), 0);
    assert_eq!(s.nh_add_del(n, 3, true), 0);
    assert_eq!(s.ftn_state(&a_fec, 1), Some(true));
    // B's next hop is A's FEC: it is up as soon as it is created
    assert_eq!(s.ftn_add(b_fec, a_fec, 4, 200, 2), 0);
    assert_eq!(s.ftn_state(&b_fec, 2), Some(true));
    // an ILM stacked on A's FEC follows it as well
    assert_eq!(s.ilm_add(500, 1, a_fec, 4, 201, 7, 1), 0);
    assert_eq!(s.ilm_state(500, 1, 7, 0), Some(true));
    assert_eq!(s.nh_add_del(n, 3, false), 0);
    assert_eq!(s.ftn_state(&a_fec, 1), Some(false));
    assert_eq!(s.ftn_state(&b_fec, 2), Some(false));
    assert_eq!(s.ilm_state(500, 1, 7, 0), Some(false));
    // deleting the parent keeps the stacked entry down
    assert_eq!(s.nh_add_del(n, 3, true), 0);
    assert_eq!(s.ftn_state(&b_fec, 2), Some(true));
    assert_eq!(s.ftn_del(&a_fec, 1), 0);
    assert_eq!(s.ftn_state(&b_fec, 2), Some(false));
}

#[test]
fn ftn_ids_recycle_over_many_cycles() {
    let mut s = MplsState::new();
    let fec = v4(10, 0, 0, 0);
    for i in 0..1100u32 {
        assert_eq!(s.ftn_add(fec, v4(20, 0, 0, 1), 3, 1000 + i, 1), 0);
        assert_eq!(s.ftn_del(&fec, 1), 0);
    }
    assert_eq!(s.xc_count(), 0);
    assert!(!s.xc_id_in_use(1));
    assert!(!s.nhlfe_id_in_use(1));
}

#[test]
fn ftn_ids_exhaust_on_1025th_distinct_entry() {
    let mut s = MplsState::new();
    let nh = v4(20, 0, 0, 1);
    for i in 0..1024u32 {
        assert_eq!(s.ftn_add(v4(10, 0, 0, 0), nh, 3, i, i + 1), 0);
    }
    assert_eq!(s.xc_count(), 1024);
    assert!(s.xc_id_in_use(1024));
    assert_eq!(s.ftn_add(v4(10, 0, 0, 0), nh, 3, 5000, 5000), -1);
    assert_eq!(s.ftn_count(), 1024);
    // a key that is already known still resolves: it shares its cross-connect
    assert_eq!(s.ftn_add(v4(10, 0, 0, 1), nh, 3, 7, 6000), 0);
    assert_eq!(s.xc_count(), 1024);
}

#[test]
fn identical_nhlfe_keys_share_xc() {
    let mut s = MplsState::new();
    let nh = v4(20, 0, 0, 1);
    let f1 = v4(10, 0, 0, 0);
    let f2 = v4(11, 0, 0, 0);
    assert_eq!(s.ftn_add(f1, nh, 3, 100, 1), 0);
    assert_eq!(s.ftn_add(f2, nh, 3, 100, 2), 0);
    let x1 = s.ftn_xc(&f1, 1).unwrap();
    let x2 = s.ftn_xc(&f2, 2).unwrap();
    assert_eq!(x1, x2);
    assert_eq!(x1.xc_ix, 1);
    assert_eq!(x1.nhlfe_ix, 1);
    assert_eq!(s.xc_count(), 1);
    assert_eq!(s.ftn_del(&f1, 1), 0);
    assert_eq!(s.xc_count(), 1);
    assert!(s.xc_id_in_use(1));
    assert!(s.nhlfe_id_in_use(1));
    assert_eq!(s.ftn_del(&f2, 2), 0);
    assert_eq!(s.xc_count(), 0);
    assert!(!s.xc_id_in_use(1));
    assert!(!s.nhlfe_id_in_use(1));
    // a different label makes a different NHLFE
    assert_eq!(s.ftn_add(f1, nh, 3, 100, 1), 0);
    assert_eq!(s.ftn_add(f2, nh, 3, 101, 2), 0);
    assert_eq!(s.xc_count(), 2);
    assert_eq!(s.ftn_xc(&f2, 2).unwrap().xc_ix, 2);
}

#[test]
fn concrete_ftn_scenario() {
    let mut s = MplsState::new();
    let fec = v4(10, 0, 0, 0);
    let nh = v4(20, 0, 0, 1);
    assert_eq!(s.ftn_add(fec, nh, 3, 100, 1), 0);
    assert_eq!(s.ftn_state(&fec, 1), Some(false));
    assert_eq!(s.nh_add_del(nh, 3, true), 0);
    assert_eq!(s.ftn_state(&fec, 1), Some(true));
}

#[test]
fn ftn_del_unknown_is_not_found() {
    let mut s = MplsState::new();
    assert_eq!(s.ftn_del(&v4(1, 2, 3, 4), 1), -1);
    assert_eq!(s.ftn_add(v4(1, 2, 3, 4), v4(5, 5, 5, 5), 1, 1, 1), 0);
    assert_eq!(s.ftn_del(&v4(1, 2, 3, 4), 2), -1);
    assert_eq!(s.ftn_state(&v4(1, 2, 3, 4), 2), None);
    assert_eq!(s.ftn_count(), 1);
}

#[test]
fn ilm_add_and_delete() {
    let mut s = MplsState::new();
    let nh = v4(20, 0, 0, 1);
    // explicit handle
    assert_eq!(s.ilm_add(100, 1, nh, 3, 200, 5, 9), 0);
    assert_eq!(s.ilm_state(100, 1, 5, 0), Some(false));
    // the same owner on the same key is refused
    assert_eq!(s.ilm_add(100, 1, nh, 3, 201, 0, 9), -1);
    // allocated handle
    assert_eq!(s.ilm_add(100, 1, nh, 3, 201, 0, 10), 0);
    assert!(s.ilm_id_in_use(1));
    assert_eq!(s.ilm_state(100, 1, 1, 0), Some(false));
    assert_eq!(s.nh_add_del(nh, 3, true), 0);
    assert_eq!(s.ilm_state(100, 1, 5, 0), Some(true));
    assert_eq!(s.ilm_state(0, 0, 0, 10), None);
    assert_eq!(s.ilm_state(100, 1, 0, 10), Some(true));
    assert_eq!(s.ilm_count(), 2);
    assert_eq!(s.ilm_del(100, 1, 5, 0), 0);
    assert_eq!(s.ilm_del(100, 1, 5, 0), -1);
    assert_eq!(s.ilm_del(100, 1, 0, 10), 0);
    assert_eq!(s.ilm_count(), 0);
    assert_eq!(s.xc_count(), 0);
    assert_eq!(s.ilm_del(7, 7, 0, 1), -1);
}

#[test]
fn ilm_readd_moves_to_new_next_hop() {
    let mut s = MplsState::new();
    let nh1 = v4(20, 0, 0, 1);
    let nh2 = v4(20, 0, 0, 2);
    assert_eq!(s.nh_add_del(nh2, 4, true), 0);
    assert_eq!(s.ilm_add(100, 1, nh1, 3, 200, 5, 9), 0);
    assert_eq!(s.ilm_state(100, 1, 5, 0), Some(false));
    // same handle, same next hop: nothing changes
    assert_eq!(s.ilm_add(100, 1, nh1, 3, 999, 5, 9), 0);
    assert_eq!(s.xc_count(), 1);
    // same handle, new next hop: the entry moves and its old cross-connect goes
    assert_eq!(s.ilm_add(100, 1, nh2, 4, 200, 5, 9), 0);
    assert_eq!(s.ilm_count(), 1);
    assert_eq!(s.xc_count(), 1);
    assert_eq!(s.ilm_state(100, 1, 5, 0), Some(true));
    assert!(s.xc_id_in_use(2));
    assert!(!s.xc_id_in_use(1));
}

#[test]
fn boundary_requests() {
    let mut s = MplsState::new();
    let fec = IpAddrC { family: 1, addr: vec![10, 0, 0, 0] };
    let nh = IpAddrC { family: 1, addr: vec![20, 0, 0, 1] };
    assert_eq!(nh.to_address(), Some(v4(20, 0, 0, 1)));
    let v6 = IpAddrC { family: 2, addr: vec![0x20, 0x01, 0x0d, 0xb8, 0, 0, 0, 0, 0, 0, 0, 0, 0, 0, 0, 1] };
    assert_eq!(v6.to_address(), Some(IpAddress::V6(0x2001_0db8_0000_0000, 1)));
    assert_eq!(IpAddrC { family: 1, addr: vec![1, 2] }.to_address(), None);
    let back = IpAddrC::from_address(&v4(20, 0, 0, 1));
    assert_eq!(back.family, 1);
    assert_eq!(back.addr, vec![20, 0, 0, 1]);
    let add = FtnAddData {
        fec: IpAddrC { family: 1, addr: fec.addr.clone() },
        ftn_ix: 1,
        next_hop: IpAddrC { family: 1, addr: nh.addr.clone() },
        out_ifindex: 3,
        out_label: vec![100],
    };
    assert_eq!(s.ftn_add_data(&add), 0);
    let no_label = FtnAddData {
        fec: IpAddrC { family: 1, addr: fec.addr.clone() },
        ftn_ix: 2,
        next_hop: IpAddrC { family: 1, addr: nh.addr.clone() },
        out_ifindex: 3,
        out_label: vec![],
    };
    assert_eq!(s.ftn_add_data(&no_label), -1);
    let up = NhAddDel { addr: IpAddrC { family: 1, addr: nh.addr.clone() }, ifindex: 3, is_add: true };
    assert_eq!(s.nh_add_del_data(&up), 0);
    assert_eq!(s.ftn_state(&v4(10, 0, 0, 0), 1), Some(true));
    let ilm = IlmAddData { in_label: 16, in_iface: 2, next_hop: nh, out_ifindex: 3, out_label: 17, ilm_ix: 0, owner: 1 };
    assert_eq!(s.ilm_add_data(&ilm), 0);
    assert_eq!(s.ilm_del_data(&IlmDelData { in_label: 16, in_iface: 2, ilm_ix: 0, owner: 1 }), 0);
    assert_eq!(s.ftn_del_data(&FtnDelData { fec, ftn_ix: 1 }), 0);
    assert_eq!(s.ftn_count(), 0);
}

#[test]
fn ilm_handles_exhaust_and_failed_adds_leak_nothing() {
    let mut s = MplsState::new();
    let nh = v4(20, 0, 0, 1);
    for owner in 0..ID_SPACE as u32 {
        assert_eq!(s.ilm_add(100, 1, nh, 3, 200, 0, owner), 0);
    }
    assert!(s.ilm_id_in_use(ID_SPACE as u32));
    assert_eq!(s.ilm_add(100, 1, nh, 3, 200, 0, 5000), -1);
    assert_eq!(s.ilm_count(), ID_SPACE);
    // all of them share one cross-connect
    assert_eq!(s.xc_count(), 1);
    // an explicit handle needs no allocation
    assert_eq!(s.ilm_add(100, 1, nh, 3, 200, 7, 5000), 0);
}

#[test]
fn ipv6_ftn_on_ipv6_next_hop() {
    let mut s = MplsState::new();
    let fec = IpAddress::V6(0x2001_0db8_0000_0001, 0);
    let nh = IpAddress::V6(0xfe80_0000_0000_0000, 1);
    assert_eq!(s.ftn_add(fec, nh, 2, 300, 4), 0);
    assert_eq!(s.ftn_state(&fec, 4), Some(false));
    assert_eq!(s.nh_add_del(nh, 2, true), 0);
    assert_eq!(s.ftn_state(&fec, 4), Some(true));
    // an IPv4 next hop with equal low bits is a different next hop
    assert_eq!(s.nh_add_del(IpAddress::V4(1), 2, false), 0);
    assert_eq!(s.ftn_state(&fec, 4), Some(true));
    assert_eq!(s.ftn_del(&fec, 4), 0);
    assert_eq!(s.ftn_state(&fec, 4), None);
}
