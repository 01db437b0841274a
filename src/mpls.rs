//! MPLS forwarding core: FEC-to-NHLFE bindings (FTN), incoming label maps (ILM),
//! next-hop label forwarding entries (NHLFE) with their cross-connects (XC), and
//! next-hop reachability driving each binding up or down.
use vstd::prelude::*;
use crate::addr::IpAddress;
use crate::id_map::{IdMap, ID_SPACE, first_free};
use crate::table::AddrTable;

verus! {

/// What identifies an NHLFE: the switching action it stands for.
#[derive(Clone, Copy, Debug, PartialEq, Eq, Structural)]
pub struct NhlfeKey {
    pub next_hop: IpAddress,
    pub out_label: u32,
    pub out_iface: u32,
    pub trunk_id: u16,
    pub lsp_id: u16,
    pub ingress: IpAddress,
    pub egress: IpAddress,
}

#[derive(Clone, Copy, Debug, PartialEq, Eq, Structural)]
pub struct NhlfeEntry {
    pub key: NhlfeKey,
    pub nhlfe_ix: u32,
    pub xc_ix: u32,
}

#[derive(Clone, Copy, Debug, PartialEq, Eq, Structural)]
pub struct GenLabel {
    pub label: u32,
}

#[derive(Clone, Copy, Debug, PartialEq, Eq, Structural)]
pub struct XcKey {
    pub in_iface: u32,
    pub gen_label: GenLabel,
    pub xc_ix: u32,
    pub nhlfe_ix: u32,
}

/// A cross-connect and the NHLFE it switches to. FTN and ILM entries that resolve
/// to the same NHLFE share one cross-connect.
#[derive(Clone, Copy, Debug, PartialEq, Eq, Structural)]
pub struct XcEntry {
    pub key: XcKey,
    pub nhlfe: NhlfeEntry,
}

/// An FEC-to-NHLFE binding: packets to `fec` get the label push of cross-connect `xc_ix`.
#[derive(Clone, Copy, Debug, PartialEq, Eq, Structural)]
pub struct FtnEntry {
    pub fec: IpAddress,
    pub ix: u32,
    pub xc_ix: u32,
    /// The next hop of the cross-connect's NHLFE.
    pub next_hop: IpAddress,
}

/// The incoming label and interface an ILM entry matches.
#[derive(Clone, Copy, Debug, PartialEq, Eq, Structural)]
pub struct IlmKey {
    pub in_label: u32,
    pub in_iface: u32,
}

/// An incoming label map entry: label swap through cross-connect `xc_ix`.
#[derive(Clone, Copy, Debug, PartialEq, Eq, Structural)]
pub struct IlmEntry {
    pub key: IlmKey,
    pub ix: u32,
    pub owner: u32,
    pub xc_ix: u32,
    /// The next hop of the cross-connect's NHLFE.
    pub next_hop: IpAddress,
}

/// Reachability of a next hop. `physical` marks a next hop set administratively;
/// one that an entry merely resolved to is created unconnected and not physical.
#[derive(Clone, Copy, Debug, PartialEq, Eq, Structural)]
pub struct NhEntry {
    pub connected: bool,
    pub physical: bool,
}

/// A pending change of a next hop's administrative state.
#[derive(Clone, Copy, Debug, PartialEq, Eq, Structural)]
pub struct NhEvent {
    pub nh_addr: IpAddress,
    pub state: bool,
}

/// The key of the NHLFE that an FTN or ILM entry with these parameters resolves to.
pub open spec fn nhlfe_key_of(next_hop: IpAddress, out_label: u32, out_iface: u32) -> NhlfeKey {
    NhlfeKey {
        next_hop,
        out_label,
        out_iface,
        trunk_id: 0,
        lsp_id: 0,
        ingress: IpAddress::V4(0),
        egress: IpAddress::V4(0),
    }
}

/// The cross-connect created for a new NHLFE with the given handles.
pub open spec fn new_xc(key: NhlfeKey, xc_ix: u32, nhlfe_ix: u32) -> XcEntry {
    XcEntry {
        key: XcKey { in_iface: 0, gen_label: GenLabel { label: 0 }, xc_ix, nhlfe_ix },
        nhlfe: NhlfeEntry { key, nhlfe_ix, xc_ix },
    }
}

/// Position of the cross-connect whose NHLFE has key `k`, if any.
pub open spec fn xc_with_key(xcs: Seq<XcEntry>, k: NhlfeKey) -> bool {
    exists|p: int| 0 <= p < xcs.len() && xcs[p].nhlfe.key == k
}

/// Whether some FTN or ILM entry still uses cross-connect `x`.
pub open spec fn xc_in_use(ftns: Seq<FtnEntry>, ilms: Seq<IlmEntry>, x: u32) -> bool {
    (exists|i: int| 0 <= i < ftns.len() && ftns[i].xc_ix == x)
        || (exists|i: int| 0 <= i < ilms.len() && ilms[i].xc_ix == x)
}

/// The whole MPLS state: entries, cross-connects, handle allocators, next hops.
pub struct MplsState {
    xc_ids: IdMap,
    nhlfe_ids: IdMap,
    ilm_ids: IdMap,
    xcs: Vec<XcEntry>,
    ftns: Vec<FtnEntry>,
    ftn_up: Vec<bool>,
    ilms: Vec<IlmEntry>,
    ilm_up: Vec<bool>,
    nhs: AddrTable<NhEntry>,
    events: Vec<NhEvent>,
}

impl MplsState {
    pub closed spec fn xc_seq(&self) -> Seq<XcEntry> {
        self.xcs@
    }

    pub closed spec fn ftn_seq(&self) -> Seq<FtnEntry> {
        self.ftns@
    }

    /// Up (true) or down of each FTN entry, by position.
    pub closed spec fn ftn_states(&self) -> Seq<bool> {
        self.ftn_up@
    }

    pub closed spec fn ilm_seq(&self) -> Seq<IlmEntry> {
        self.ilms@
    }

    /// Up (true) or down of each ILM entry, by position.
    pub closed spec fn ilm_states(&self) -> Seq<bool> {
        self.ilm_up@
    }

    pub closed spec fn nh_map(&self) -> Map<IpAddress, NhEntry> {
        self.nhs@
    }

    pub closed spec fn xc_id_map(&self) -> Seq<bool> {
        self.xc_ids@
    }

    pub closed spec fn nhlfe_id_map(&self) -> Seq<bool> {
        self.nhlfe_ids@
    }

    pub closed spec fn ilm_id_map(&self) -> Seq<bool> {
        self.ilm_ids@
    }

    pub closed spec fn pending_events(&self) -> Seq<NhEvent> {
        self.events@
    }

    pub closed spec fn parts_wf(&self) -> bool {
        &&& self.xc_ids.wf()
        &&& self.nhlfe_ids.wf()
        &&& self.ilm_ids.wf()
        &&& self.nhs.wf()
        &&& self.ftn_up@.len() == self.ftns@.len()
        &&& self.ilm_up@.len() == self.ilms@.len()
    }

    /// Whether next hop `a` is administratively connected.
    pub open spec fn nh_admin_up(&self, a: IpAddress) -> bool {
        self.nh_map().contains_key(a) && self.nh_map()[a].connected
    }

    /// A next hop is reachable when it is administratively connected, or when it is
    /// the FEC of an FTN entry that is up (an FTN's FEC can carry entries stacked on it).
    pub open spec fn nh_live(&self, a: IpAddress) -> bool {
        self.nh_admin_up(a) || exists|j: int|
            0 <= j < self.ftn_seq().len() && #[trigger] self.ftn_states()[j] && self.ftn_seq()[j].fec == a
    }

    /// Every entry is up exactly when the next hop it resolves to is reachable.
    pub open spec fn settled(&self) -> bool {
        &&& forall|i: int| #![trigger self.ftn_seq()[i]]
            0 <= i < self.ftn_seq().len() ==> (self.ftn_states()[i] <==> self.nh_live(self.ftn_seq()[i].next_hop))
        &&& forall|i: int| #![trigger self.ilm_seq()[i]]
            0 <= i < self.ilm_seq().len() ==> (self.ilm_states()[i] <==> self.nh_live(self.ilm_seq()[i].next_hop))
    }

    /// Cross-connects, their NHLFEs and the two handle allocators agree: each handle
    /// in use belongs to exactly one cross-connect, and each NHLFE key occurs once.
    pub open spec fn xcs_wf(&self) -> bool {
        let xcs = self.xc_seq();
        &&& forall|p: int| #![trigger xcs[p]] 0 <= p < xcs.len() ==> {
            &&& 1 <= xcs[p].key.xc_ix <= ID_SPACE
            &&& 1 <= xcs[p].key.nhlfe_ix <= ID_SPACE
            &&& xcs[p].nhlfe.xc_ix == xcs[p].key.xc_ix
            &&& xcs[p].nhlfe.nhlfe_ix == xcs[p].key.nhlfe_ix
            &&& xcs[p].key.in_iface == 0 && xcs[p].key.gen_label.label == 0
        }
        &&& forall|p: int, q: int| #![trigger xcs[p], xcs[q]] 0 <= p < xcs.len() && 0 <= q < xcs.len() && p != q ==> {
            &&& xcs[p].key.xc_ix != xcs[q].key.xc_ix
            &&& xcs[p].key.nhlfe_ix != xcs[q].key.nhlfe_ix
            &&& xcs[p].nhlfe.key != xcs[q].nhlfe.key
        }
        &&& forall|i: int| #![trigger self.xc_id_map()[i]] 0 <= i < ID_SPACE ==>
            (self.xc_id_map()[i] <==> exists|p: int| 0 <= p < xcs.len() && xcs[p].key.xc_ix == i + 1)
        &&& forall|i: int| #![trigger self.nhlfe_id_map()[i]] 0 <= i < ID_SPACE ==>
            (self.nhlfe_id_map()[i] <==> exists|p: int| 0 <= p < xcs.len() && xcs[p].key.nhlfe_ix == i + 1)
    }

    /// Every FTN and ILM entry uses an existing cross-connect and carries its next hop.
    pub open spec fn refs_wf(&self) -> bool {
        &&& forall|i: int| #![trigger self.ftn_seq()[i]] 0 <= i < self.ftn_seq().len() ==> exists|p: int|
            0 <= p < self.xc_seq().len() && self.xc_seq()[p].key.xc_ix == self.ftn_seq()[i].xc_ix
                && self.xc_seq()[p].nhlfe.key.next_hop == self.ftn_seq()[i].next_hop
        &&& forall|i: int| #![trigger self.ilm_seq()[i]] 0 <= i < self.ilm_seq().len() ==> exists|p: int|
            0 <= p < self.xc_seq().len() && self.xc_seq()[p].key.xc_ix == self.ilm_seq()[i].xc_ix
                && self.xc_seq()[p].nhlfe.key.next_hop == self.ilm_seq()[i].next_hop
    }

    pub open spec fn wf(&self) -> bool {
        &&& self.parts_wf()
        &&& self.xcs_wf()
        &&& self.refs_wf()
        &&& self.settled()
        &&& self.pending_events().len() == 0
    }

    pub fn new() -> (r: MplsState)
        ensures
            r.wf(),
            r.xc_seq().len() == 0 && r.ftn_seq().len() == 0 && r.ilm_seq().len() == 0,
            r.nh_map() == Map::<IpAddress, NhEntry>::empty(),
            forall|i: int| 0 <= i < ID_SPACE ==> !r.xc_id_map()[i] && !r.nhlfe_id_map()[i] && !r.ilm_id_map()[i],
    {
        MplsState {
            xc_ids: IdMap::new(),
            nhlfe_ids: IdMap::new(),
            ilm_ids: IdMap::new(),
            xcs: Vec::new(),
            ftns: Vec::new(),
            ftn_up: Vec::new(),
            ilms: Vec::new(),
            ilm_up: Vec::new(),
            nhs: AddrTable::new(),
            events: Vec::new(),
        }
    }

    /// Position of the cross-connect whose NHLFE has key `k`.
    fn find_xc_by_key(&self, k: &NhlfeKey) -> (r: Option<usize>)
        ensures
            r matches Some(p) ==> p < self.xc_seq().len() && self.xc_seq()[p as int].nhlfe.key == *k,
            r is None ==> !xc_with_key(self.xc_seq(), *k),
    {
        let mut p: usize = 0;
        while p < self.xcs.len()
            invariant
                p <= self.xcs@.len(),
                forall|q: int| 0 <= q < p ==> self.xcs@[q].nhlfe.key != *k,
            decreases self.xcs@.len() - p,
        {
            if self.xcs[p].nhlfe.key == *k {
                return Some(p);
            }
            p = p + 1;
        }
        None
    }

    /// Position of the cross-connect with handle `x`.
    fn find_xc_by_ix(&self, x: u32) -> (r: Option<usize>)
        ensures
            r matches Some(p) ==> p < self.xc_seq().len() && self.xc_seq()[p as int].key.xc_ix == x,
            r is None ==> forall|q: int| 0 <= q < self.xc_seq().len() ==> self.xc_seq()[q].key.xc_ix != x,
    {
        let mut p: usize = 0;
        while p < self.xcs.len()
            invariant
                p <= self.xcs@.len(),
                forall|q: int| 0 <= q < p ==> self.xcs@[q].key.xc_ix != x,
            decreases self.xcs@.len() - p,
        {
            if self.xcs[p].key.xc_ix == x {
                return Some(p);
            }
            p = p + 1;
        }
        None
    }

    /// The entries, their states, the next hops and the ILM handles are those of `other`.
    pub open spec fn same_entries(&self, other: &Self) -> bool {
        &&& self.ftn_seq() == other.ftn_seq()
        &&& self.ftn_states() == other.ftn_states()
        &&& self.ilm_seq() == other.ilm_seq()
        &&& self.ilm_states() == other.ilm_states()
        &&& self.nh_map() == other.nh_map()
        &&& self.pending_events() == other.pending_events()
        &&& self.ilm_id_map() == other.ilm_id_map()
    }

    /// The cross-connects and the handles of their two allocators are those of `other`.
    pub open spec fn same_xcs(&self, other: &Self) -> bool {
        &&& self.xc_seq() == other.xc_seq()
        &&& self.xc_id_map() == other.xc_id_map()
        &&& self.nhlfe_id_map() == other.nhlfe_id_map()
    }

    /// What resolving NHLFE key `k` to cross-connect `x` does to the cross-connects: the
    /// cross-connect of an existing NHLFE with that key is shared; else a new pair is
    /// made with the lowest free handle of each allocator.
    pub open spec fn xcs_resolved(pre: Self, post: Self, k: NhlfeKey, x: u32) -> bool {
        &&& xc_with_key(pre.xc_seq(), k) ==> {
            &&& post.same_xcs(&pre)
            &&& exists|p: int| 0 <= p < pre.xc_seq().len() && pre.xc_seq()[p].nhlfe.key == k
                && x == pre.xc_seq()[p].key.xc_ix
        }
        &&& !xc_with_key(pre.xc_seq(), k) ==> {
            &&& x as int == pre.next_xc_ix()
            &&& post.xc_seq() == pre.xc_seq().push(new_xc(k, x, pre.next_nhlfe_ix() as u32))
            &&& post.xc_id_map() == pre.xc_id_map().update(x - 1, true)
            &&& post.nhlfe_id_map() == pre.nhlfe_id_map().update(pre.next_nhlfe_ix() - 1, true)
        }
    }

    /// Whether NHLFE key `k` can be resolved: it is known, or both allocators have room.
    pub open spec fn can_resolve(&self, k: NhlfeKey) -> bool {
        xc_with_key(self.xc_seq(), k) || self.xc_ids_free()
    }

    /// What resolving NHLFE key `k` to a cross-connect does; when it cannot be
    /// resolved, nothing changes.
    pub open spec fn resolve_post(pre: Self, post: Self, k: NhlfeKey, r: Option<u32>) -> bool {
        &&& post.same_entries(&pre)
        &&& r is Some <==> pre.can_resolve(k)
        &&& r matches Some(x) ==> Self::xcs_resolved(pre, post, k, x)
        &&& r is None ==> post.same_xcs(&pre)
    }

    /// Both the cross-connect and the NHLFE allocator have a free handle.
    pub open spec fn xc_ids_free(&self) -> bool {
        &&& first_free(self.xc_id_map()) < self.xc_id_map().len()
        &&& first_free(self.nhlfe_id_map()) < self.nhlfe_id_map().len()
    }

    /// The cross-connect handle that the next new cross-connect gets.
    pub open spec fn next_xc_ix(&self) -> int {
        first_free(self.xc_id_map()) as int + 1
    }

    /// The NHLFE handle that the next new NHLFE gets.
    pub open spec fn next_nhlfe_ix(&self) -> int {
        first_free(self.nhlfe_id_map()) as int + 1
    }

    /// Resolves the NHLFE with key `k` to a cross-connect and returns its handle.
    fn create_nhlfe_and_xc(&mut self, k: &NhlfeKey) -> (r: Option<u32>)
        requires
            old(self).parts_wf(),
            old(self).xcs_wf(),
        ensures
            final(self).parts_wf(),
            final(self).xcs_wf(),
            Self::resolve_post(*old(self), *final(self), *k, r),
    {
        if let Some(p) = self.find_xc_by_key(k) {
            return Some(self.xcs[p].key.xc_ix);
        }
        proof {
            crate::id_map::lemma_first_free(self.xc_ids@);
            crate::id_map::lemma_first_free(self.nhlfe_ids@);
        }
        let xc_ix = self.xc_ids.get_free();
        let nhlfe_ix = self.nhlfe_ids.get_free();
        if xc_ix == 0 {
            self.nhlfe_ids.put_free(nhlfe_ix as usize);
            proof {
                assert(self.nhlfe_ids@ =~= old(self).nhlfe_ids@);
                assert(self.xc_id_map() == old(self).xc_id_map());
                assert(self.nhlfe_id_map() == old(self).nhlfe_id_map());
            }
            return None;
        }
        if nhlfe_ix == 0 {
            self.xc_ids.put_free(xc_ix as usize);
            proof {
                assert(self.xc_ids@ =~= old(self).xc_ids@);
                assert(self.xc_id_map() == old(self).xc_id_map());
                assert(self.nhlfe_id_map() == old(self).nhlfe_id_map());
            }
            return None;
        }
        let ghost pre_xcs = self.xcs@;
        self.xcs.push(XcEntry {
            key: XcKey { in_iface: 0, gen_label: GenLabel { label: 0 }, xc_ix, nhlfe_ix },
            nhlfe: NhlfeEntry { key: *k, nhlfe_ix, xc_ix },
        });
        proof {
            let xcs = self.xcs@;
            let f = xc_ix as int - 1;
            let g = nhlfe_ix as int - 1;
            assert(!old(self).xc_ids@[f]);
            assert(!old(self).nhlfe_ids@[g]);
            assert forall|p: int| 0 <= p < pre_xcs.len() implies xcs[p].key.xc_ix != xc_ix && xcs[p].key.nhlfe_ix != nhlfe_ix by {
                assert(xcs[p] == pre_xcs[p]);
                if xcs[p].key.xc_ix == xc_ix {
                    assert(old(self).xc_id_map()[f]);
                }
                if xcs[p].key.nhlfe_ix == nhlfe_ix {
                    assert(old(self).nhlfe_id_map()[g]);
                }
            }
            assert forall|p: int, q: int| #![trigger xcs[p], xcs[q]] 0 <= p < xcs.len() && 0 <= q < xcs.len() && p != q implies {
                &&& xcs[p].key.xc_ix != xcs[q].key.xc_ix
                &&& xcs[p].key.nhlfe_ix != xcs[q].key.nhlfe_ix
                &&& xcs[p].nhlfe.key != xcs[q].nhlfe.key
            } by {
                if p < pre_xcs.len() && q < pre_xcs.len() {
                    assert(xcs[p] == pre_xcs[p] && xcs[q] == pre_xcs[q]);
                } else if p < pre_xcs.len() {
                    assert(xcs[p] == pre_xcs[p]);
                } else {
                    assert(xcs[q] == pre_xcs[q]);
                }
            }
            assert forall|i: int| #![trigger self.xc_id_map()[i]] 0 <= i < ID_SPACE implies
                (self.xc_id_map()[i] <==> exists|p: int| 0 <= p < xcs.len() && xcs[p].key.xc_ix == i + 1) by {
                if i == f {
                    assert(xcs[pre_xcs.len() as int].key.xc_ix == i + 1);
                } else {
                    if old(self).xc_id_map()[i] {
                        let p = choose|p: int| 0 <= p < pre_xcs.len() && pre_xcs[p].key.xc_ix == i + 1;
                        assert(xcs[p] == pre_xcs[p]);
                    }
                    if exists|p: int| 0 <= p < xcs.len() && xcs[p].key.xc_ix == i + 1 {
                        let p = choose|p: int| 0 <= p < xcs.len() && xcs[p].key.xc_ix == i + 1;
                        assert(p < pre_xcs.len());
                        assert(xcs[p] == pre_xcs[p]);
                    }
                }
            }
            assert forall|i: int| #![trigger self.nhlfe_id_map()[i]] 0 <= i < ID_SPACE implies
                (self.nhlfe_id_map()[i] <==> exists|p: int| 0 <= p < xcs.len() && xcs[p].key.nhlfe_ix == i + 1) by {
                if i == g {
                    assert(xcs[pre_xcs.len() as int].key.nhlfe_ix == i + 1);
                } else {
                    if old(self).nhlfe_id_map()[i] {
                        let p = choose|p: int| 0 <= p < pre_xcs.len() && pre_xcs[p].key.nhlfe_ix == i + 1;
                        assert(xcs[p] == pre_xcs[p]);
                    }
                    if exists|p: int| 0 <= p < xcs.len() && xcs[p].key.nhlfe_ix == i + 1 {
                        let p = choose|p: int| 0 <= p < xcs.len() && xcs[p].key.nhlfe_ix == i + 1;
                        assert(p < pre_xcs.len());
                        assert(xcs[p] == pre_xcs[p]);
                    }
                }
            }
        }
        Some(xc_ix)
    }

    /// Whether some entry still uses cross-connect `x`.
    fn xc_used(&self, x: u32) -> (r: bool)
        ensures
            r == xc_in_use(self.ftn_seq(), self.ilm_seq(), x),
    {
        let mut i: usize = 0;
        while i < self.ftns.len()
            invariant
                i <= self.ftns@.len(),
                forall|j: int| 0 <= j < i ==> self.ftns@[j].xc_ix != x,
            decreases self.ftns@.len() - i,
        {
            if self.ftns[i].xc_ix == x {
                return true;
            }
            i = i + 1;
        }
        let mut i: usize = 0;
        while i < self.ilms.len()
            invariant
                i <= self.ilms@.len(),
                forall|j: int| 0 <= j < self.ftns@.len() ==> self.ftns@[j].xc_ix != x,
                forall|j: int| 0 <= j < i ==> self.ilms@[j].xc_ix != x,
            decreases self.ilms@.len() - i,
        {
            if self.ilms[i].xc_ix == x {
                return true;
            }
            i = i + 1;
        }
        false
    }

    /// What releasing cross-connect `x` does to the cross-connects: while an entry
    /// uses it (`in_use`), nothing; else it goes, and both its handles return to
    /// their allocators.
    pub open spec fn xcs_released(pre: Self, post: Self, x: u32, in_use: bool) -> bool {
        &&& in_use ==> post.same_xcs(&pre)
        &&& !in_use ==> exists|p: int|
            0 <= p < pre.xc_seq().len() && pre.xc_seq()[p].key.xc_ix == x && {
                &&& post.xc_seq() == pre.xc_seq().remove(p)
                &&& post.xc_id_map() == pre.xc_id_map().update(x - 1, false)
                &&& post.nhlfe_id_map() == pre.nhlfe_id_map().update(pre.xc_seq()[p].key.nhlfe_ix - 1, false)
            }
    }

    pub open spec fn release_post(pre: Self, post: Self, x: u32) -> bool {
        &&& post.same_entries(&pre)
        &&& Self::xcs_released(pre, post, x, xc_in_use(pre.ftn_seq(), pre.ilm_seq(), x))
    }

    /// Drops cross-connect `x`, and its NHLFE, once no entry uses it.
    fn release_xc(&mut self, x: u32)
        requires
            old(self).parts_wf(),
            old(self).xcs_wf(),
            old(self).refs_wf(),
            exists|p: int| 0 <= p < old(self).xc_seq().len() && old(self).xc_seq()[p].key.xc_ix == x,
        ensures
            final(self).parts_wf(),
            final(self).xcs_wf(),
            final(self).refs_wf(),
            Self::release_post(*old(self), *final(self), x),
    {
        if self.xc_used(x) {
            return;
        }
        let p = self.find_xc_by_ix(x).unwrap();
        let ghost pre_xcs = self.xcs@;
        let gone = self.xcs.remove(p);
        self.xc_ids.put_free(gone.key.xc_ix as usize);
        self.nhlfe_ids.put_free(gone.key.nhlfe_ix as usize);
        proof {
            let xcs = self.xcs@;
            assert(xcs =~= pre_xcs.remove(p as int));
            assert forall|q: int| 0 <= q < xcs.len() implies #[trigger] xcs[q] == pre_xcs[if q < p { q } else { q + 1 }] by {
            }
            assert forall|q: int| #![trigger xcs[q]] 0 <= q < xcs.len() implies xcs[q].key.xc_ix != x
                && xcs[q].key.nhlfe_ix != gone.key.nhlfe_ix by {
                let qq = if q < p { q } else { q + 1 };
                assert(xcs[q] == pre_xcs[qq]);
                assert(pre_xcs[qq] != pre_xcs[p as int] || qq == p);
            }
            assert forall|p1: int, q1: int| #![trigger xcs[p1], xcs[q1]] 0 <= p1 < xcs.len() && 0 <= q1 < xcs.len() && p1 != q1 implies {
                &&& xcs[p1].key.xc_ix != xcs[q1].key.xc_ix
                &&& xcs[p1].key.nhlfe_ix != xcs[q1].key.nhlfe_ix
                &&& xcs[p1].nhlfe.key != xcs[q1].nhlfe.key
            } by {
                let pp = if p1 < p { p1 } else { p1 + 1 };
                let qq = if q1 < p { q1 } else { q1 + 1 };
                assert(xcs[p1] == pre_xcs[pp] && xcs[q1] == pre_xcs[qq]);
            }
            assert forall|i: int| #![trigger self.xc_id_map()[i]] 0 <= i < ID_SPACE implies
                (self.xc_id_map()[i] <==> exists|q: int| 0 <= q < xcs.len() && xcs[q].key.xc_ix == i + 1) by {
                if i != x - 1 {
                    if old(self).xc_id_map()[i] {
                        let q = choose|q: int| 0 <= q < pre_xcs.len() && pre_xcs[q].key.xc_ix == i + 1;
                        assert(q != p);
                        let qq = if q < p { q } else { q - 1 };
                        assert(xcs[qq] == pre_xcs[q]);
                    }
                    if exists|q: int| 0 <= q < xcs.len() && xcs[q].key.xc_ix == i + 1 {
                        let q = choose|q: int| 0 <= q < xcs.len() && xcs[q].key.xc_ix == i + 1;
                        let qq = if q < p { q } else { q + 1 };
                        assert(xcs[q] == pre_xcs[qq]);
                    }
                }
            }
            assert forall|i: int| #![trigger self.nhlfe_id_map()[i]] 0 <= i < ID_SPACE implies
                (self.nhlfe_id_map()[i] <==> exists|q: int| 0 <= q < xcs.len() && xcs[q].key.nhlfe_ix == i + 1) by {
                if i != gone.key.nhlfe_ix - 1 {
                    if old(self).nhlfe_id_map()[i] {
                        let q = choose|q: int| 0 <= q < pre_xcs.len() && pre_xcs[q].key.nhlfe_ix == i + 1;
                        assert(q != p);
                        let qq = if q < p { q } else { q - 1 };
                        assert(xcs[qq] == pre_xcs[q]);
                    }
                    if exists|q: int| 0 <= q < xcs.len() && xcs[q].key.nhlfe_ix == i + 1 {
                        let q = choose|q: int| 0 <= q < xcs.len() && xcs[q].key.nhlfe_ix == i + 1;
                        let qq = if q < p { q } else { q + 1 };
                        assert(xcs[q] == pre_xcs[qq]);
                    }
                }
            }
            assert forall|i: int| #![trigger self.ftn_seq()[i]] 0 <= i < self.ftn_seq().len() implies exists|q: int|
                0 <= q < xcs.len() && xcs[q].key.xc_ix == self.ftn_seq()[i].xc_ix
                    && xcs[q].nhlfe.key.next_hop == self.ftn_seq()[i].next_hop by {
                let q = choose|q: int| 0 <= q < pre_xcs.len() && pre_xcs[q].key.xc_ix == self.ftn_seq()[i].xc_ix
                    && pre_xcs[q].nhlfe.key.next_hop == self.ftn_seq()[i].next_hop;
                assert(q != p);
                let qq = if q < p { q } else { q - 1 };
                assert(xcs[qq] == pre_xcs[q]);
            }
            assert forall|i: int| #![trigger self.ilm_seq()[i]] 0 <= i < self.ilm_seq().len() implies exists|q: int|
                0 <= q < xcs.len() && xcs[q].key.xc_ix == self.ilm_seq()[i].xc_ix
                    && xcs[q].nhlfe.key.next_hop == self.ilm_seq()[i].next_hop by {
                let q = choose|q: int| 0 <= q < pre_xcs.len() && pre_xcs[q].key.xc_ix == self.ilm_seq()[i].xc_ix
                    && pre_xcs[q].nhlfe.key.next_hop == self.ilm_seq()[i].next_hop;
                assert(q != p);
                let qq = if q < p { q } else { q - 1 };
                assert(xcs[qq] == pre_xcs[q]);
            }
        }
    }

    /// Whether `a` is administratively connected, or the FEC of an FTN entry marked up in `up`.
    spec fn live_with(&self, up: Seq<bool>, a: IpAddress) -> bool {
        self.nh_admin_up(a) || exists|j: int| 0 <= j < self.ftns@.len() && #[trigger] up[j] && self.ftns@[j].fec == a
    }

    /// The administratively connected next hops, each listed at least once.
    fn admin_up_hops(&self) -> (r: Vec<IpAddress>)
        requires
            self.nhs.wf(),
        ensures
            forall|q: int| 0 <= q < r@.len() ==> #[trigger] self.nh_admin_up(r@[q]),
            forall|a: IpAddress| #[trigger] self.nh_admin_up(a) ==> exists|q: int| 0 <= q < r@.len() && r@[q] == a,
    {
        let mut work: Vec<IpAddress> = Vec::new();
        let cnt = self.nhs.len();
        let mut k: usize = 0;
        while k < cnt
            invariant
                self.nhs.wf(),
                cnt == self.nhs.entries().len(),
                k <= cnt,
                forall|q: int| 0 <= q < work@.len() ==> #[trigger] self.nh_admin_up(work@[q]),
                forall|j: int| 0 <= j < k && (#[trigger] self.nhs.entries()[j]).val.connected
                    ==> exists|q: int| 0 <= q < work@.len() && work@[q] == self.nhs.entries()[j].addr,
            decreases cnt - k,
        {
            proof {
                self.nhs.lemma_entries();
            }
            let slot = self.nhs.slot(k);
            if slot.val.connected {
                let ghost before = work@;
                work.push(slot.addr);
                proof {
                    assert(self.nh_admin_up(slot.addr));
                    assert forall|j: int| 0 <= j < k + 1 && (#[trigger] self.nhs.entries()[j]).val.connected
                        implies exists|q: int| 0 <= q < work@.len() && work@[q] == self.nhs.entries()[j].addr by {
                        if j < k {
                            let q = choose|q: int| 0 <= q < before.len() && before[q] == self.nhs.entries()[j].addr;
                            assert(work@[q] == before[q]);
                        } else {
                            assert(work@[before.len() as int] == slot.addr);
                        }
                    }
                    assert forall|q: int| 0 <= q < work@.len() implies #[trigger] self.nh_admin_up(work@[q]) by {
                        if q < before.len() {
                            assert(work@[q] == before[q]);
                        }
                    }
                }
            }
            k = k + 1;
        }
        proof {
            self.nhs.lemma_entries();
            assert forall|a: IpAddress| #[trigger] self.nh_admin_up(a) implies exists|q: int| 0 <= q < work@.len() && work@[q] == a by {
                assert(self.nhs@.contains_key(a));
                let j = choose|j: int| 0 <= j < self.nhs.entries().len() && #[trigger] self.nhs.entries()[j].addr == a;
                assert(self.nhs.entries()[j].val.connected);
            }
        }
        work
    }

    /// Recomputes the state of every entry from the next hops, breadth first over an
    /// explicit work list of reachable next hops: the administratively connected ones
    /// first, then the FEC of each FTN entry as it comes up.
    fn propagate(&mut self)
        requires
            old(self).parts_wf(),
        ensures
            final(self).parts_wf(),
            final(self).settled(),
            final(self).ftn_seq() == old(self).ftn_seq(),
            final(self).ilm_seq() == old(self).ilm_seq(),
            final(self).nh_map() == old(self).nh_map(),
            final(self).same_xcs(old(self)),
            final(self).ilm_id_map() == old(self).ilm_id_map(),
            final(self).pending_events() == old(self).pending_events(),
    {
        let n = self.ftns.len();
        let m = self.ilms.len();
        let mut up: Vec<bool> = Vec::new();
        let mut i: usize = 0;
        while i < n
            invariant
                i <= n,
                up@.len() == i,
                forall|j: int| 0 <= j < i ==> !up@[j],
            decreases n - i,
        {
            up.push(false);
            i = i + 1;
        }
        let mut iup: Vec<bool> = Vec::new();
        let mut i: usize = 0;
        while i < m
            invariant
                i <= m,
                iup@.len() == i,
                forall|j: int| 0 <= j < i ==> !iup@[j],
            decreases m - i,
        {
            iup.push(false);
            i = i + 1;
        }
        let mut work = self.admin_up_hops();
        let seeds = work.len();
        let ghost mut upset: Set<int> = Set::empty();
        let mut head: usize = 0;
        while head < work.len()
            invariant
                self.parts_wf(),
                n == self.ftns@.len(),
                m == self.ilms@.len(),
                up@.len() == n,
                iup@.len() == m,
                head <= work@.len(),
                upset.finite(),
                forall|j: int| #![trigger upset.contains(j)] #![trigger up@[j]] upset.contains(j) <==> (0 <= j < n && up@[j]),
                work@.len() == seeds + upset.len(),
                forall|q: int| 0 <= q < work@.len() ==> self.live_with(up@, #[trigger] work@[q]),
                forall|j: int| 0 <= j < n && #[trigger] up@[j] ==> exists|q: int| 0 <= q < head && work@[q] == self.ftns@[j].next_hop,
                forall|j: int| 0 <= j < m && #[trigger] iup@[j] ==> exists|q: int| 0 <= q < head && work@[q] == self.ilms@[j].next_hop,
                forall|j: int| 0 <= j < n && #[trigger] up@[j] ==> exists|q: int| 0 <= q < work@.len() && work@[q] == self.ftns@[j].fec,
                forall|a: IpAddress| #[trigger] self.nh_admin_up(a) ==> exists|q: int| 0 <= q < work@.len() && work@[q] == a,
                forall|q: int, j: int| 0 <= q < head && 0 <= j < n && self.ftns@[j].next_hop == #[trigger] work@[q] ==> #[trigger] up@[j],
                forall|q: int, j: int| 0 <= q < head && 0 <= j < m && self.ilms@[j].next_hop == #[trigger] work@[q] ==> #[trigger] iup@[j],
            decreases seeds + n - head,
        {
            proof {
                vstd::set_lib::lemma_int_range(0, n as int);
                assert forall|j: int| upset.contains(j) implies vstd::set_lib::set_int_range(0, n as int).contains(j) by {
                }
                assert(upset.subset_of(vstd::set_lib::set_int_range(0, n as int)));
                vstd::set_lib::lemma_len_subset(upset, vstd::set_lib::set_int_range(0, n as int));
            }
            let a = work[head];
            let mut i: usize = 0;
            while i < n
                invariant
                    self.parts_wf(),
                    n == self.ftns@.len(),
                    m == self.ilms@.len(),
                    up@.len() == n,
                    iup@.len() == m,
                    i <= n,
                    head < work@.len(),
                    work@[head as int] == a,
                    upset.finite(),
                    forall|j: int| #![trigger upset.contains(j)] #![trigger up@[j]] upset.contains(j) <==> (0 <= j < n && up@[j]),
                    work@.len() == seeds + upset.len(),
                    forall|q: int| 0 <= q < work@.len() ==> self.live_with(up@, #[trigger] work@[q]),
                    forall|j: int| 0 <= j < n && #[trigger] up@[j] ==> exists|q: int| 0 <= q <= head && work@[q] == self.ftns@[j].next_hop,
                    forall|j: int| 0 <= j < m && #[trigger] iup@[j] ==> exists|q: int| 0 <= q < head && work@[q] == self.ilms@[j].next_hop,
                    forall|j: int| 0 <= j < n && #[trigger] up@[j] ==> exists|q: int| 0 <= q < work@.len() && work@[q] == self.ftns@[j].fec,
                    forall|a: IpAddress| #[trigger] self.nh_admin_up(a) ==> exists|q: int| 0 <= q < work@.len() && work@[q] == a,
                    forall|q: int, j: int| 0 <= q < head && 0 <= j < n && self.ftns@[j].next_hop == #[trigger] work@[q] ==> #[trigger] up@[j],
                    forall|q: int, j: int| 0 <= q < head && 0 <= j < m && self.ilms@[j].next_hop == #[trigger] work@[q] ==> #[trigger] iup@[j],
                    forall|j: int| 0 <= j < i && self.ftns@[j].next_hop == a ==> #[trigger] up@[j],
                decreases n - i,
            {
                if !up[i] && self.ftns[i].next_hop == a {
                    let ghost before_up = up@;
                    let ghost before_work = work@;
                    up.set(i, true);
                    work.push(self.ftns[i].fec);
                    proof {
                        assert(!upset.contains(i as int));
                        upset = upset.insert(i as int);
                        assert(up@ =~= before_up.update(i as int, true));
                        assert forall|j: int| #![trigger upset.contains(j)] #![trigger up@[j]]
                            upset.contains(j) <==> (0 <= j < n && up@[j]) by {
                            if 0 <= j < n && j != i {
                                assert(up@[j] == before_up[j]);
                            }
                        }
                        assert forall|q: int| 0 <= q < work@.len() implies self.live_with(up@, #[trigger] work@[q]) by {
                            if q < before_work.len() {
                                assert(work@[q] == before_work[q]);
                                assert(self.live_with(before_up, before_work[q]));
                                if !self.nh_admin_up(work@[q]) {
                                    let j = choose|j: int| 0 <= j < self.ftns@.len() && #[trigger] before_up[j] && self.ftns@[j].fec == work@[q];
                                    assert(up@[j]);
                                }
                            } else {
                                assert(up@[i as int]);
                            }
                        }
                        assert forall|j: int| 0 <= j < n && #[trigger] up@[j] implies exists|q: int| 0 <= q <= head && work@[q] == self.ftns@[j].next_hop by {
                            if j != i {
                                assert(before_up[j]);
                                let q = choose|q: int| 0 <= q <= head && before_work[q] == self.ftns@[j].next_hop;
                                assert(work@[q] == before_work[q]);
                            } else {
                                assert(work@[head as int] == before_work[head as int]);
                            }
                        }
                        assert forall|j: int| 0 <= j < m && #[trigger] iup@[j] implies exists|q: int| 0 <= q < head && work@[q] == self.ilms@[j].next_hop by {
                            let q = choose|q: int| 0 <= q < head && before_work[q] == self.ilms@[j].next_hop;
                            assert(work@[q] == before_work[q]);
                        }
                        assert forall|j: int| 0 <= j < n && #[trigger] up@[j] implies exists|q: int| 0 <= q < work@.len() && work@[q] == self.ftns@[j].fec by {
                            if j != i {
                                assert(before_up[j]);
                                let q = choose|q: int| 0 <= q < before_work.len() && before_work[q] == self.ftns@[j].fec;
                                assert(work@[q] == before_work[q]);
                            } else {
                                assert(work@[before_work.len() as int] == self.ftns@[j].fec);
                            }
                        }
                        assert forall|a2: IpAddress| #[trigger] self.nh_admin_up(a2) implies exists|q: int| 0 <= q < work@.len() && work@[q] == a2 by {
                            let q = choose|q: int| 0 <= q < before_work.len() && before_work[q] == a2;
                            assert(work@[q] == before_work[q]);
                        }
                        assert forall|q: int, j: int| 0 <= q < head && 0 <= j < n && self.ftns@[j].next_hop == #[trigger] work@[q] implies #[trigger] up@[j] by {
                            assert(work@[q] == before_work[q]);
                            if j != i {
                                assert(before_up[j]);
                            }
                        }
                        assert forall|q: int, j: int| 0 <= q < head && 0 <= j < m && self.ilms@[j].next_hop == #[trigger] work@[q] implies #[trigger] iup@[j] by {
                            assert(work@[q] == before_work[q]);
                        }
                    }
                }
                i = i + 1;
            }
            let mut i: usize = 0;
            while i < m
                invariant
                    self.parts_wf(),
                    n == self.ftns@.len(),
                    m == self.ilms@.len(),
                    up@.len() == n,
                    iup@.len() == m,
                    i <= m,
                    head < work@.len(),
                    work@[head as int] == a,
                    upset.finite(),
                    forall|j: int| #![trigger upset.contains(j)] #![trigger up@[j]] upset.contains(j) <==> (0 <= j < n && up@[j]),
                    work@.len() == seeds + upset.len(),
                    forall|q: int| 0 <= q < work@.len() ==> self.live_with(up@, #[trigger] work@[q]),
                    forall|j: int| 0 <= j < n && #[trigger] up@[j] ==> exists|q: int| 0 <= q <= head && work@[q] == self.ftns@[j].next_hop,
                    forall|j: int| 0 <= j < m && #[trigger] iup@[j] ==> exists|q: int| 0 <= q <= head && work@[q] == self.ilms@[j].next_hop,
                    forall|j: int| 0 <= j < n && #[trigger] up@[j] ==> exists|q: int| 0 <= q < work@.len() && work@[q] == self.ftns@[j].fec,
                    forall|a: IpAddress| #[trigger] self.nh_admin_up(a) ==> exists|q: int| 0 <= q < work@.len() && work@[q] == a,
                    forall|q: int, j: int| 0 <= q < head && 0 <= j < n && self.ftns@[j].next_hop == #[trigger] work@[q] ==> #[trigger] up@[j],
                    forall|q: int, j: int| 0 <= q < head && 0 <= j < m && self.ilms@[j].next_hop == #[trigger] work@[q] ==> #[trigger] iup@[j],
                    forall|j: int| 0 <= j < n && self.ftns@[j].next_hop == a ==> #[trigger] up@[j],
                    forall|j: int| 0 <= j < i && self.ilms@[j].next_hop == a ==> #[trigger] iup@[j],
                decreases m - i,
            {
                if self.ilms[i].next_hop == a {
                    let ghost before_iup = iup@;
                    iup.set(i, true);
                    proof {
                        assert forall|j: int| 0 <= j < m && #[trigger] iup@[j] implies exists|q: int| 0 <= q <= head && work@[q] == self.ilms@[j].next_hop by {
                            if j != i {
                                assert(before_iup[j]);
                            }
                        }
                        assert forall|q: int, j: int| 0 <= q < head && 0 <= j < m && self.ilms@[j].next_hop == #[trigger] work@[q] implies #[trigger] iup@[j] by {
                            if j != i {
                                assert(before_iup[j]);
                            }
                        }
                    }
                }
                i = i + 1;
            }
            proof {
                assert forall|q: int, j: int| 0 <= q < head + 1 && 0 <= j < n && self.ftns@[j].next_hop == #[trigger] work@[q] implies #[trigger] up@[j] by {
                }
                assert forall|q: int, j: int| 0 <= q < head + 1 && 0 <= j < m && self.ilms@[j].next_hop == #[trigger] work@[q] implies #[trigger] iup@[j] by {
                }
            }
            head = head + 1;
        }
        let ghost s0 = *self;
        self.ftn_up = up;
        self.ilm_up = iup;
        proof {
            assert forall|a2: IpAddress| self.nh_admin_up(a2) implies exists|q: int| 0 <= q < work@.len() && work@[q] == a2 by {
                assert(s0.nh_admin_up(a2));
            }
            assert forall|q: int| 0 <= q < work@.len() implies #[trigger] self.nh_live(work@[q]) by {
                assert(s0.live_with(up@, work@[q]));
                if !s0.nh_admin_up(work@[q]) {
                    let j = choose|j: int| 0 <= j < s0.ftns@.len() && #[trigger] up@[j] && s0.ftns@[j].fec == work@[q];
                    assert(self.ftn_states()[j]);
                }
            }
            assert forall|i: int| #![trigger self.ftn_seq()[i]] 0 <= i < self.ftn_seq().len() implies
                (self.ftn_states()[i] <==> self.nh_live(self.ftn_seq()[i].next_hop)) by {
                let a = self.ftns@[i].next_hop;
                if self.ftn_up@[i] {
                    let q = choose|q: int| 0 <= q < head && work@[q] == a;
                    assert(self.nh_live(work@[q]));
                }
                if self.nh_live(a) {
                    if self.nh_admin_up(a) {
                        let q = choose|q: int| 0 <= q < work@.len() && work@[q] == a;
                        assert(self.ftn_up@[i]);
                    } else {
                        let j = choose|j: int| 0 <= j < self.ftn_seq().len() && #[trigger] self.ftn_states()[j] && self.ftn_seq()[j].fec == a;
                        assert(self.ftn_up@[j]);
                        let q = choose|q: int| 0 <= q < work@.len() && work@[q] == self.ftns@[j].fec;
                        assert(self.ftn_up@[i]);
                    }
                }
            }
            assert forall|i: int| #![trigger self.ilm_seq()[i]] 0 <= i < self.ilm_seq().len() implies
                (self.ilm_states()[i] <==> self.nh_live(self.ilm_seq()[i].next_hop)) by {
                let a = self.ilms@[i].next_hop;
                if self.ilm_up@[i] {
                    let q = choose|q: int| 0 <= q < head && work@[q] == a;
                    assert(self.nh_live(work@[q]));
                }
                if self.nh_live(a) {
                    if self.nh_admin_up(a) {
                        let q = choose|q: int| 0 <= q < work@.len() && work@[q] == a;
                        assert(self.ilm_up@[i]);
                    } else {
                        let j = choose|j: int| 0 <= j < self.ftn_seq().len() && #[trigger] self.ftn_states()[j] && self.ftn_seq()[j].fec == a;
                        assert(self.ftn_up@[j]);
                        let q = choose|q: int| 0 <= q < work@.len() && work@[q] == self.ftns@[j].fec;
                        assert(self.ilm_up@[i]);
                    }
                }
            }
        }
    }

    /// The next-hop table once an entry resolved to `a`: an unknown next hop is added,
    /// unconnected and not physical.
    pub open spec fn nh_linked(pre: Map<IpAddress, NhEntry>, a: IpAddress) -> Map<IpAddress, NhEntry> {
        if pre.contains_key(a) {
            pre
        } else {
            pre.insert(a, NhEntry { connected: false, physical: false })
        }
    }

    fn link_next_hop(&mut self, a: IpAddress)
        requires
            old(self).nhs.wf(),
        ensures
            final(self).nhs.wf(),
            final(self).nh_map() == Self::nh_linked(old(self).nh_map(), a),
            final(self).xcs == old(self).xcs && final(self).ftns == old(self).ftns,
            final(self).ftn_up == old(self).ftn_up && final(self).ilms == old(self).ilms,
            final(self).ilm_up == old(self).ilm_up && final(self).events == old(self).events,
            final(self).xc_ids == old(self).xc_ids && final(self).nhlfe_ids == old(self).nhlfe_ids,
            final(self).ilm_ids == old(self).ilm_ids,
    {
        if !self.nhs.contains(&a) {
            self.nhs.insert(a, NhEntry { connected: false, physical: false });
        }
    }

    /// Whether entry `i` of `s` is the first with this FEC and handle.
    pub open spec fn first_ftn(s: Seq<FtnEntry>, fec: IpAddress, ix: u32, i: int) -> bool {
        &&& 0 <= i < s.len()
        &&& s[i].fec == fec && s[i].ix == ix
        &&& forall|j: int| 0 <= j < i ==> !(s[j].fec == fec && s[j].ix == ix)
    }

    /// What `ftn_add` does: 0 and a new FTN entry bound to the cross-connect that its
    /// NHLFE key resolves to; -1 with nothing changed when the key cannot be resolved.
    pub open spec fn ftn_add_post(pre: Self, post: Self, fec: IpAddress, next_hop: IpAddress,
        out_ifindex: u32, out_label: u32, ftn_ix: u32, r: i32) -> bool {
        let k = nhlfe_key_of(next_hop, out_label, out_ifindex);
        &&& r == 0 <==> pre.can_resolve(k)
        &&& r != 0 ==> r == -1 && post.same_entries(&pre) && post.same_xcs(&pre)
        &&& r == 0 ==> exists|x: u32| {
            &&& post.ftn_seq() == pre.ftn_seq().push(FtnEntry { fec, ix: ftn_ix, xc_ix: x, next_hop })
            &&& Self::xcs_resolved(pre, post, k, x)
        }
        &&& r == 0 ==> {
            &&& post.ilm_seq() == pre.ilm_seq()
            &&& post.ilm_id_map() == pre.ilm_id_map()
            &&& post.nh_map() == Self::nh_linked(pre.nh_map(), next_hop)
        }
    }

    /// Binds `fec` to the label push (`next_hop`, `out_label`, `out_ifindex`) as FTN entry
    /// `ftn_ix`. Entries with the same NHLFE key share one NHLFE and cross-connect. The
    /// entry is up when its next hop is reachable, and entries stacked on its FEC follow.
    pub fn ftn_add(&mut self, fec: IpAddress, next_hop: IpAddress, out_ifindex: u32, out_label: u32, ftn_ix: u32) -> (r: i32)
        requires
            old(self).wf(),
        ensures
            final(self).wf(),
            Self::ftn_add_post(*old(self), *final(self), fec, next_hop, out_ifindex, out_label, ftn_ix, r),
    {
        let k = NhlfeKey {
            next_hop,
            out_label,
            out_iface: out_ifindex,
            trunk_id: 0,
            lsp_id: 0,
            ingress: IpAddress::V4(0),
            egress: IpAddress::V4(0),
        };
        let ghost pre = *self;
        let x = match self.create_nhlfe_and_xc(&k) {
            None => {
                return -1;
            },
            Some(x) => x,
        };
        let ghost mid = *self;
        self.ftns.push(FtnEntry { fec, ix: ftn_ix, xc_ix: x, next_hop });
        self.ftn_up.push(false);
        self.link_next_hop(next_hop);
        proof {
            let xcs = self.xc_seq();
            assert forall|i: int| #![trigger self.ftn_seq()[i]] 0 <= i < self.ftn_seq().len() implies exists|p: int|
                0 <= p < xcs.len() && xcs[p].key.xc_ix == self.ftn_seq()[i].xc_ix
                    && xcs[p].nhlfe.key.next_hop == self.ftn_seq()[i].next_hop by {
                if i < pre.ftn_seq().len() {
                    assert(self.ftn_seq()[i] == pre.ftn_seq()[i]);
                    let p = choose|p: int| 0 <= p < pre.xc_seq().len() && pre.xc_seq()[p].key.xc_ix == pre.ftn_seq()[i].xc_ix
                        && pre.xc_seq()[p].nhlfe.key.next_hop == pre.ftn_seq()[i].next_hop;
                    assert(xcs[p] == pre.xc_seq()[p]);
                } else if xc_with_key(pre.xc_seq(), k) {
                    let p = choose|p: int| 0 <= p < pre.xc_seq().len() && pre.xc_seq()[p].nhlfe.key == k
                        && x == pre.xc_seq()[p].key.xc_ix;
                    assert(xcs[p] == pre.xc_seq()[p]);
                } else {
                    assert(xcs[pre.xc_seq().len() as int].key.xc_ix == x);
                }
            }
            assert forall|i: int| #![trigger self.ilm_seq()[i]] 0 <= i < self.ilm_seq().len() implies exists|p: int|
                0 <= p < xcs.len() && xcs[p].key.xc_ix == self.ilm_seq()[i].xc_ix
                    && xcs[p].nhlfe.key.next_hop == self.ilm_seq()[i].next_hop by {
                let p = choose|p: int| 0 <= p < pre.xc_seq().len() && pre.xc_seq()[p].key.xc_ix == pre.ilm_seq()[i].xc_ix
                    && pre.xc_seq()[p].nhlfe.key.next_hop == pre.ilm_seq()[i].next_hop;
                assert(xcs[p] == pre.xc_seq()[p]);
            }
        }
        self.propagate();
        proof {
            assert(k == nhlfe_key_of(next_hop, out_label, out_ifindex));
            assert(self.ftn_seq() =~= pre.ftn_seq().push(FtnEntry { fec, ix: ftn_ix, xc_ix: x, next_hop }));
            assert(self.same_xcs(&mid));
            if xc_with_key(pre.xc_seq(), k) {
                let p = choose|p: int| 0 <= p < pre.xc_seq().len() && pre.xc_seq()[p].nhlfe.key == k
                    && x == pre.xc_seq()[p].key.xc_ix;
                assert(self.same_xcs(&pre));
            }
            assert(Self::xcs_resolved(pre, *self, k, x));
            assert(self.nh_map() == Self::nh_linked(pre.nh_map(), next_hop));
        }
        0
    }

    /// Position of the first FTN entry with this FEC and handle.
    fn find_ftn(&self, fec: &IpAddress, ix: u32) -> (r: Option<usize>)
        ensures
            r matches Some(i) ==> Self::first_ftn(self.ftn_seq(), *fec, ix, i as int),
            r is None ==> forall|j: int| 0 <= j < self.ftn_seq().len()
                ==> !(self.ftn_seq()[j].fec == *fec && self.ftn_seq()[j].ix == ix),
    {
        let mut i: usize = 0;
        while i < self.ftns.len()
            invariant
                i <= self.ftns@.len(),
                forall|j: int| 0 <= j < i ==> !(self.ftns@[j].fec == *fec && self.ftns@[j].ix == ix),
            decreases self.ftns@.len() - i,
        {
            if self.ftns[i].fec == *fec && self.ftns[i].ix == ix {
                return Some(i);
            }
            i = i + 1;
        }
        None
    }

    /// What `ftn_del` does: -1 with nothing changed when no FTN entry has this FEC and
    /// handle; else 0, the first such entry goes, and its cross-connect with it when no
    /// other entry uses it.
    pub open spec fn ftn_del_post(pre: Self, post: Self, fec: IpAddress, ftn_ix: u32, r: i32) -> bool {
        &&& r == 0 <==> exists|i: int| 0 <= i < pre.ftn_seq().len() && pre.ftn_seq()[i].fec == fec && pre.ftn_seq()[i].ix == ftn_ix
        &&& r != 0 ==> r == -1 && post.same_entries(&pre) && post.same_xcs(&pre)
        &&& r == 0 ==> exists|i: int| {
            &&& Self::first_ftn(pre.ftn_seq(), fec, ftn_ix, i)
            &&& post.ftn_seq() == pre.ftn_seq().remove(i)
            &&& Self::xcs_released(pre, post, pre.ftn_seq()[i].xc_ix,
                    xc_in_use(post.ftn_seq(), post.ilm_seq(), pre.ftn_seq()[i].xc_ix))
        }
        &&& r == 0 ==> {
            &&& post.ilm_seq() == pre.ilm_seq()
            &&& post.ilm_id_map() == pre.ilm_id_map()
            &&& post.nh_map() == pre.nh_map()
        }
    }

    /// Deletes the first FTN entry with this FEC and handle; entries stacked on its FEC
    /// go down unless something else keeps their next hop reachable.
    pub fn ftn_del(&mut self, fec: &IpAddress, ftn_ix: u32) -> (r: i32)
        requires
            old(self).wf(),
        ensures
            final(self).wf(),
            Self::ftn_del_post(*old(self), *final(self), *fec, ftn_ix, r),
    {
        let ghost pre = *self;
        let i = match self.find_ftn(fec, ftn_ix) {
            None => {
                return -1;
            },
            Some(i) => i,
        };
        let gone = self.ftns.remove(i);
        self.ftn_up.remove(i);
        proof {
            let fs = self.ftn_seq();
            assert(fs =~= pre.ftn_seq().remove(i as int));
            assert forall|j: int| #![trigger fs[j]] 0 <= j < fs.len() implies exists|p: int|
                0 <= p < self.xc_seq().len() && self.xc_seq()[p].key.xc_ix == fs[j].xc_ix
                    && self.xc_seq()[p].nhlfe.key.next_hop == fs[j].next_hop by {
                let jj = if j < i { j } else { j + 1 };
                assert(fs[j] == pre.ftn_seq()[jj]);
                let p = choose|p: int| 0 <= p < pre.xc_seq().len() && pre.xc_seq()[p].key.xc_ix == pre.ftn_seq()[jj].xc_ix
                    && pre.xc_seq()[p].nhlfe.key.next_hop == pre.ftn_seq()[jj].next_hop;
                assert(self.xc_seq()[p] == pre.xc_seq()[p]);
            }
            assert(pre.ftn_seq()[i as int] == gone);
            assert(self.xc_seq() == pre.xc_seq());
            assert(self.xc_id_map() == pre.xc_id_map());
            assert(self.nhlfe_id_map() == pre.nhlfe_id_map());
            assert(self.xcs_wf());
            let p = choose|p: int| 0 <= p < pre.xc_seq().len() && pre.xc_seq()[p].key.xc_ix == pre.ftn_seq()[i as int].xc_ix
                && pre.xc_seq()[p].nhlfe.key.next_hop == pre.ftn_seq()[i as int].next_hop;
            assert(self.xc_seq()[p].key.xc_ix == gone.xc_ix);
        }
        self.release_xc(gone.xc_ix);
        self.propagate();
        0
    }

    /// Whether ILM entry `e` is the one a caller names: by key and handle when the
    /// handle is nonzero, else by key and owner.
    pub open spec fn ilm_named(e: IlmEntry, key: IlmKey, ix: u32, owner: u32) -> bool {
        e.key == key && (if ix > 0 { e.ix == ix } else { e.owner == owner })
    }

    /// Whether entry `i` of `s` is the first that the caller names.
    pub open spec fn first_ilm(s: Seq<IlmEntry>, key: IlmKey, ix: u32, owner: u32, i: int) -> bool {
        &&& 0 <= i < s.len()
        &&& Self::ilm_named(s[i], key, ix, owner)
        &&& forall|j: int| 0 <= j < i ==> !Self::ilm_named(s[j], key, ix, owner)
    }

    pub open spec fn some_ilm_named(s: Seq<IlmEntry>, key: IlmKey, ix: u32, owner: u32) -> bool {
        exists|i: int| 0 <= i < s.len() && Self::ilm_named(s[i], key, ix, owner)
    }

    /// Position of the first ILM entry that the caller names.
    fn find_ilm(&self, key: &IlmKey, ix: u32, owner: u32) -> (r: Option<usize>)
        ensures
            r matches Some(i) ==> Self::first_ilm(self.ilm_seq(), *key, ix, owner, i as int),
            r is None ==> !Self::some_ilm_named(self.ilm_seq(), *key, ix, owner),
    {
        let mut i: usize = 0;
        while i < self.ilms.len()
            invariant
                i <= self.ilms@.len(),
                forall|j: int| 0 <= j < i ==> !Self::ilm_named(self.ilms@[j], *key, ix, owner),
            decreases self.ilms@.len() - i,
        {
            let e = &self.ilms[i];
            let hit = if ix > 0 { e.ix == ix } else { e.owner == owner };
            if e.key == *key && hit {
                return Some(i);
            }
            i = i + 1;
        }
        None
    }

    /// What re-adding existing ILM entry `i` with next hop `next_hop` does: nothing when
    /// the next hop is the same; else the entry moves to the cross-connect that NHLFE
    /// key `k` resolves to, and its old cross-connect is released. -1 with nothing
    /// changed when `k` cannot be resolved.
    pub open spec fn ilm_update_post(pre: Self, post: Self, i: int, next_hop: IpAddress, k: NhlfeKey, r: i32) -> bool {
        let e = pre.ilm_seq()[i];
        if e.next_hop == next_hop {
            r == 0 && post.same_entries(&pre) && post.same_xcs(&pre)
        } else if !pre.can_resolve(k) {
            r == -1 && post.same_entries(&pre) && post.same_xcs(&pre)
        } else {
            &&& r == 0
            &&& exists|x: u32, mid: Self| {
                &&& Self::xcs_resolved(pre, mid, k, x)
                &&& post.ilm_seq() == pre.ilm_seq().update(i, IlmEntry { xc_ix: x, next_hop, ..e })
                &&& Self::xcs_released(mid, post, e.xc_ix, xc_in_use(post.ftn_seq(), post.ilm_seq(), e.xc_ix))
            }
            &&& post.ftn_seq() == pre.ftn_seq()
            &&& post.ilm_id_map() == pre.ilm_id_map()
            &&& post.nh_map() == Self::nh_linked(pre.nh_map(), next_hop)
        }
    }

    fn ilm_update(&mut self, i: usize, next_hop: IpAddress, k: &NhlfeKey) -> (r: i32)
        requires
            old(self).wf(),
            i < old(self).ilm_seq().len(),
            k.next_hop == next_hop,
        ensures
            final(self).wf(),
            Self::ilm_update_post(*old(self), *final(self), i as int, next_hop, *k, r),
    {
        let e = self.ilms[i];
        if e.next_hop == next_hop {
            return 0;
        }
        let ghost pre = *self;
        let x = match self.create_nhlfe_and_xc(k) {
            None => {
                return -1;
            },
            Some(x) => x,
        };
        let ghost mid = *self;
        self.ilms.set(i, IlmEntry { xc_ix: x, next_hop, ..e });
        proof {
            let xcs = self.xc_seq();
            assert forall|j: int| #![trigger self.ftn_seq()[j]] 0 <= j < self.ftn_seq().len() implies exists|p: int|
                0 <= p < xcs.len() && xcs[p].key.xc_ix == self.ftn_seq()[j].xc_ix
                    && xcs[p].nhlfe.key.next_hop == self.ftn_seq()[j].next_hop by {
                let p = choose|p: int| 0 <= p < pre.xc_seq().len() && pre.xc_seq()[p].key.xc_ix == pre.ftn_seq()[j].xc_ix
                    && pre.xc_seq()[p].nhlfe.key.next_hop == pre.ftn_seq()[j].next_hop;
                assert(xcs[p] == pre.xc_seq()[p]);
            }
            assert forall|j: int| #![trigger self.ilm_seq()[j]] 0 <= j < self.ilm_seq().len() implies exists|p: int|
                0 <= p < xcs.len() && xcs[p].key.xc_ix == self.ilm_seq()[j].xc_ix
                    && xcs[p].nhlfe.key.next_hop == self.ilm_seq()[j].next_hop by {
                if j != i {
                    assert(self.ilm_seq()[j] == pre.ilm_seq()[j]);
                    let p = choose|p: int| 0 <= p < pre.xc_seq().len() && pre.xc_seq()[p].key.xc_ix == pre.ilm_seq()[j].xc_ix
                        && pre.xc_seq()[p].nhlfe.key.next_hop == pre.ilm_seq()[j].next_hop;
                    assert(xcs[p] == pre.xc_seq()[p]);
                } else if xc_with_key(pre.xc_seq(), *k) {
                    let p = choose|p: int| 0 <= p < pre.xc_seq().len() && pre.xc_seq()[p].nhlfe.key == *k
                        && x == pre.xc_seq()[p].key.xc_ix;
                    assert(xcs[p] == pre.xc_seq()[p]);
                } else {
                    assert(xcs[pre.xc_seq().len() as int].key.xc_ix == x);
                }
            }
            let p = choose|p: int| 0 <= p < pre.xc_seq().len() && pre.xc_seq()[p].key.xc_ix == e.xc_ix
                && pre.xc_seq()[p].nhlfe.key.next_hop == e.next_hop;
            assert(xcs[p] == pre.xc_seq()[p]);
        }
        let ghost mid2 = *self;
        self.release_xc(e.xc_ix);
        self.link_next_hop(next_hop);
        self.propagate();
        proof {
            assert(Self::xcs_resolved(pre, mid, *k, x));
            assert(Self::xcs_released(mid2, *self, e.xc_ix, xc_in_use(self.ftn_seq(), self.ilm_seq(), e.xc_ix)));
            assert(mid2.same_xcs(&mid));
        }
        0
    }

    /// What adding a new ILM entry does: -1 with nothing changed when `ilm_ix` is 0 and
    /// no ILM handle is free, or when NHLFE key `k` cannot be resolved; otherwise 0 and
    /// a new entry, its handle `ilm_ix` or, for 0, the lowest free ILM handle.
    pub open spec fn ilm_new_post(pre: Self, post: Self, key: IlmKey, k: NhlfeKey, next_hop: IpAddress,
        ilm_ix: u32, owner: u32, r: i32) -> bool {
        let ilm_free = first_free(pre.ilm_id_map()) < pre.ilm_id_map().len();
        let new_ix: u32 = if ilm_ix == 0 { (first_free(pre.ilm_id_map()) + 1) as u32 } else { ilm_ix };
        if (ilm_ix == 0 && !ilm_free) || !pre.can_resolve(k) {
            r == -1 && post.same_entries(&pre) && post.same_xcs(&pre)
        } else {
            &&& r == 0
            &&& exists|x: u32| {
                &&& post.ilm_seq() == pre.ilm_seq().push(IlmEntry { key, ix: new_ix, owner, xc_ix: x, next_hop })
                &&& Self::xcs_resolved(pre, post, k, x)
            }
            &&& ilm_ix == 0 ==> post.ilm_id_map() == pre.ilm_id_map().update(new_ix - 1, true)
            &&& ilm_ix != 0 ==> post.ilm_id_map() == pre.ilm_id_map()
            &&& post.ftn_seq() == pre.ftn_seq()
            &&& post.nh_map() == Self::nh_linked(pre.nh_map(), next_hop)
        }
    }

    /// What `ilm_add` does. An entry named by nonzero `ilm_ix` that exists already is
    /// re-added (see `ilm_update_post`). Else -1 with nothing changed when an entry with
    /// this key has this owner; otherwise a new entry (see `ilm_new_post`).
    pub open spec fn ilm_add_post(pre: Self, post: Self, key: IlmKey, next_hop: IpAddress, out_ifindex: u32,
        out_label: u32, ilm_ix: u32, owner: u32, r: i32) -> bool {
        let k = nhlfe_key_of(next_hop, out_label, out_ifindex);
        if ilm_ix > 0 && Self::some_ilm_named(pre.ilm_seq(), key, ilm_ix, owner) {
            exists|i: int| Self::first_ilm(pre.ilm_seq(), key, ilm_ix, owner, i)
                && Self::ilm_update_post(pre, post, i, next_hop, k, r)
        } else if Self::some_ilm_named(pre.ilm_seq(), key, 0, owner) {
            r == -1 && post.same_entries(&pre) && post.same_xcs(&pre)
        } else {
            Self::ilm_new_post(pre, post, key, k, next_hop, ilm_ix, owner, r)
        }
    }

    /// Adds (or re-adds) an incoming label map entry for (`in_label`, `in_iface`) that
    /// swaps to `out_label` towards `next_hop` on `out_ifindex`.
    pub fn ilm_add(&mut self, in_label: u32, in_iface: u32, next_hop: IpAddress, out_ifindex: u32, out_label: u32,
        ilm_ix: u32, owner: u32) -> (r: i32)
        requires
            old(self).wf(),
        ensures
            final(self).wf(),
            Self::ilm_add_post(*old(self), *final(self), IlmKey { in_label, in_iface }, next_hop, out_ifindex,
                out_label, ilm_ix, owner, r),
    {
        let key = IlmKey { in_label, in_iface };
        let k = NhlfeKey {
            next_hop,
            out_label,
            out_iface: out_ifindex,
            trunk_id: 0,
            lsp_id: 0,
            ingress: IpAddress::V4(0),
            egress: IpAddress::V4(0),
        };
        proof {
            assert(k == nhlfe_key_of(next_hop, out_label, out_ifindex));
        }
        if ilm_ix > 0 {
            if let Some(i) = self.find_ilm(&key, ilm_ix, owner) {
                return self.ilm_update(i, next_hop, &k);
            }
        }
        if self.find_ilm(&key, 0, owner).is_some() {
            return -1;
        }
        self.ilm_insert(key, &k, next_hop, ilm_ix, owner)
    }

    #[verifier::rlimit(60)]
    fn ilm_insert(&mut self, key: IlmKey, k: &NhlfeKey, next_hop: IpAddress, ilm_ix: u32, owner: u32) -> (r: i32)
        requires
            old(self).wf(),
            k.next_hop == next_hop,
        ensures
            final(self).wf(),
            Self::ilm_new_post(*old(self), *final(self), key, *k, next_hop, ilm_ix, owner, r),
    {
        let ghost pre = *self;
        proof {
            crate::id_map::lemma_first_free(self.ilm_ids@);
        }
        let ix = if ilm_ix == 0 {
            let a = self.ilm_ids.get_free();
            if a == 0 {
                proof {
                    assert(self.ilm_ids@ =~= pre.ilm_ids@);
                    assert(self.xc_seq() == pre.xc_seq());
                    assert(self.xc_id_map() == pre.xc_id_map());
                    assert(self.nhlfe_id_map() == pre.nhlfe_id_map());
                    assert(self.ftn_seq() == pre.ftn_seq() && self.ilm_seq() == pre.ilm_seq());
                    assert(self.ftn_states() == pre.ftn_states() && self.ilm_states() == pre.ilm_states());
                    assert(self.nh_map() == pre.nh_map());
                }
                return -1;
            }
            a
        } else {
            ilm_ix
        };
        proof {
            assert(self.xc_seq() == pre.xc_seq());
            assert(self.xc_id_map() == pre.xc_id_map());
            assert(self.nhlfe_id_map() == pre.nhlfe_id_map());
        }
        let x = match self.create_nhlfe_and_xc(k) {
            None => {
                if ilm_ix == 0 {
                    self.ilm_ids.put_free(ix as usize);
                    proof {
                        assert(self.ilm_ids@ =~= pre.ilm_ids@);
                    }
                }
                proof {
                    assert(self.ilm_id_map() == pre.ilm_id_map());
                    assert(self.xc_seq() == pre.xc_seq());
                    assert(self.xc_id_map() == pre.xc_id_map());
                    assert(self.nhlfe_id_map() == pre.nhlfe_id_map());
                    assert(self.ftn_seq() == pre.ftn_seq() && self.ilm_seq() == pre.ilm_seq());
                    assert(self.ftn_states() == pre.ftn_states() && self.ilm_states() == pre.ilm_states());
                    assert(self.nh_map() == pre.nh_map());
                    assert(self.pending_events() == pre.pending_events());
                }
                return -1;
            },
            Some(x) => x,
        };
        self.ilms.push(IlmEntry { key, ix, owner, xc_ix: x, next_hop });
        self.ilm_up.push(false);
        self.link_next_hop(next_hop);
        proof {
            let xcs = self.xc_seq();
            assert forall|i: int| #![trigger self.ilm_seq()[i]] 0 <= i < self.ilm_seq().len() implies exists|p: int|
                0 <= p < xcs.len() && xcs[p].key.xc_ix == self.ilm_seq()[i].xc_ix
                    && xcs[p].nhlfe.key.next_hop == self.ilm_seq()[i].next_hop by {
                if i < pre.ilm_seq().len() {
                    assert(self.ilm_seq()[i] == pre.ilm_seq()[i]);
                    let p = choose|p: int| 0 <= p < pre.xc_seq().len() && pre.xc_seq()[p].key.xc_ix == pre.ilm_seq()[i].xc_ix
                        && pre.xc_seq()[p].nhlfe.key.next_hop == pre.ilm_seq()[i].next_hop;
                    assert(xcs[p] == pre.xc_seq()[p]);
                } else if xc_with_key(pre.xc_seq(), *k) {
                    let p = choose|p: int| 0 <= p < pre.xc_seq().len() && pre.xc_seq()[p].nhlfe.key == *k
                        && x == pre.xc_seq()[p].key.xc_ix;
                    assert(xcs[p] == pre.xc_seq()[p]);
                } else {
                    assert(xcs[pre.xc_seq().len() as int].key.xc_ix == x);
                }
            }
            assert forall|i: int| #![trigger self.ftn_seq()[i]] 0 <= i < self.ftn_seq().len() implies exists|p: int|
                0 <= p < xcs.len() && xcs[p].key.xc_ix == self.ftn_seq()[i].xc_ix
                    && xcs[p].nhlfe.key.next_hop == self.ftn_seq()[i].next_hop by {
                let p = choose|p: int| 0 <= p < pre.xc_seq().len() && pre.xc_seq()[p].key.xc_ix == pre.ftn_seq()[i].xc_ix
                    && pre.xc_seq()[p].nhlfe.key.next_hop == pre.ftn_seq()[i].next_hop;
                assert(xcs[p] == pre.xc_seq()[p]);
            }
        }
        self.propagate();
        proof {
            assert(self.ilm_seq() =~= pre.ilm_seq().push(IlmEntry { key, ix, owner, xc_ix: x, next_hop }));
            if xc_with_key(pre.xc_seq(), *k) {
                let p = choose|p: int| 0 <= p < pre.xc_seq().len() && pre.xc_seq()[p].nhlfe.key == *k
                    && x == pre.xc_seq()[p].key.xc_ix;
            }
            assert(Self::xcs_resolved(pre, *self, *k, x));
        }
        0
    }

    /// What `ilm_del` does: -1 with nothing changed when no entry is named; else 0, the
    /// first named entry goes, and its cross-connect with it when no other entry uses it.
    pub open spec fn ilm_del_post(pre: Self, post: Self, key: IlmKey, ilm_ix: u32, owner: u32, r: i32) -> bool {
        &&& r == 0 <==> Self::some_ilm_named(pre.ilm_seq(), key, ilm_ix, owner)
        &&& r != 0 ==> r == -1 && post.same_entries(&pre) && post.same_xcs(&pre)
        &&& r == 0 ==> exists|i: int| {
            &&& Self::first_ilm(pre.ilm_seq(), key, ilm_ix, owner, i)
            &&& post.ilm_seq() == pre.ilm_seq().remove(i)
            &&& Self::xcs_released(pre, post, pre.ilm_seq()[i].xc_ix,
                    xc_in_use(post.ftn_seq(), post.ilm_seq(), pre.ilm_seq()[i].xc_ix))
        }
        &&& r == 0 ==> {
            &&& post.ftn_seq() == pre.ftn_seq()
            &&& post.ilm_id_map() == pre.ilm_id_map()
            &&& post.nh_map() == pre.nh_map()
        }
    }

    /// Deletes the ILM entry for (`in_label`, `in_iface`) named by `ilm_ix`, or by
    /// `owner` when `ilm_ix` is 0.
    pub fn ilm_del(&mut self, in_label: u32, in_iface: u32, ilm_ix: u32, owner: u32) -> (r: i32)
        requires
            old(self).wf(),
        ensures
            final(self).wf(),
            Self::ilm_del_post(*old(self), *final(self), IlmKey { in_label, in_iface }, ilm_ix, owner, r),
    {
        let key = IlmKey { in_label, in_iface };
        let ghost pre = *self;
        let i = match self.find_ilm(&key, ilm_ix, owner) {
            None => {
                return -1;
            },
            Some(i) => i,
        };
        let gone = self.ilms.remove(i);
        self.ilm_up.remove(i);
        proof {
            let is = self.ilm_seq();
            assert(is =~= pre.ilm_seq().remove(i as int));
            assert forall|j: int| #![trigger is[j]] 0 <= j < is.len() implies exists|p: int|
                0 <= p < self.xc_seq().len() && self.xc_seq()[p].key.xc_ix == is[j].xc_ix
                    && self.xc_seq()[p].nhlfe.key.next_hop == is[j].next_hop by {
                let jj = if j < i { j } else { j + 1 };
                assert(is[j] == pre.ilm_seq()[jj]);
                let p = choose|p: int| 0 <= p < pre.xc_seq().len() && pre.xc_seq()[p].key.xc_ix == pre.ilm_seq()[jj].xc_ix
                    && pre.xc_seq()[p].nhlfe.key.next_hop == pre.ilm_seq()[jj].next_hop;
                assert(self.xc_seq()[p] == pre.xc_seq()[p]);
            }
            assert(pre.ilm_seq()[i as int] == gone);
            assert(self.xc_seq() == pre.xc_seq());
            assert(self.xc_id_map() == pre.xc_id_map());
            assert(self.nhlfe_id_map() == pre.nhlfe_id_map());
            assert(self.xcs_wf());
            let p = choose|p: int| 0 <= p < pre.xc_seq().len() && pre.xc_seq()[p].key.xc_ix == pre.ilm_seq()[i as int].xc_ix
                && pre.xc_seq()[p].nhlfe.key.next_hop == pre.ilm_seq()[i as int].next_hop;
            assert(self.xc_seq()[p].key.xc_ix == gone.xc_ix);
        }
        self.release_xc(gone.xc_ix);
        self.propagate();
        0
    }

    /// The next-hop table once the administrative events `evs` are applied in order.
    pub open spec fn apply_events(m: Map<IpAddress, NhEntry>, evs: Seq<NhEvent>) -> Map<IpAddress, NhEntry>
        decreases evs.len(),
    {
        if evs.len() == 0 {
            m
        } else {
            Self::apply_events(
                m.insert(evs[0].nh_addr, NhEntry { connected: evs[0].state, physical: true }),
                evs.drop_first(),
            )
        }
    }

    /// Records a change of next hop `nh_addr` for the next `process_events`.
    fn enqueue(&mut self, nh_addr: IpAddress, state: bool)
        ensures
            final(self).events@ == old(self).events@.push(NhEvent { nh_addr, state }),
            final(self).xcs == old(self).xcs && final(self).ftns == old(self).ftns,
            final(self).ftn_up == old(self).ftn_up && final(self).ilms == old(self).ilms,
            final(self).ilm_up == old(self).ilm_up && final(self).nhs == old(self).nhs,
            final(self).xc_ids == old(self).xc_ids && final(self).nhlfe_ids == old(self).nhlfe_ids,
            final(self).ilm_ids == old(self).ilm_ids,
    {
        self.events.push(NhEvent { nh_addr, state });
    }

    /// Creates or rewrites the reachability record of `addr`.
    fn create_modify_entry(&mut self, addr: IpAddress, connected: bool, physical: bool)
        requires
            old(self).nhs.wf(),
        ensures
            final(self).nhs.wf(),
            final(self).nh_map() == old(self).nh_map().insert(addr, NhEntry { connected, physical }),
            final(self).xcs == old(self).xcs && final(self).ftns == old(self).ftns,
            final(self).ftn_up == old(self).ftn_up && final(self).ilms == old(self).ilms,
            final(self).ilm_up == old(self).ilm_up && final(self).events == old(self).events,
            final(self).xc_ids == old(self).xc_ids && final(self).nhlfe_ids == old(self).nhlfe_ids,
            final(self).ilm_ids == old(self).ilm_ids,
    {
        self.nhs.insert(addr, NhEntry { connected, physical });
    }

    /// Drains the event queue in order, then brings every entry up or down to match.
    fn process_events(&mut self)
        requires
            old(self).parts_wf(),
            old(self).xcs_wf(),
            old(self).refs_wf(),
        ensures
            final(self).wf(),
            final(self).nh_map() == Self::apply_events(old(self).nh_map(), old(self).pending_events()),
            final(self).ftn_seq() == old(self).ftn_seq(),
            final(self).ilm_seq() == old(self).ilm_seq(),
            final(self).same_xcs(old(self)),
            final(self).ilm_id_map() == old(self).ilm_id_map(),
    {
        while self.events.len() > 0
            invariant
                self.parts_wf(),
                self.xcs_wf(),
                self.refs_wf(),
                Self::apply_events(self.nh_map(), self.events@) == Self::apply_events(old(self).nh_map(), old(self).events@),
                self.ftn_seq() == old(self).ftn_seq(),
                self.ilm_seq() == old(self).ilm_seq(),
                self.same_xcs(old(self)),
                self.ilm_id_map() == old(self).ilm_id_map(),
            decreases self.events@.len(),
        {
            let ghost evs = self.events@;
            let ev = self.events.remove(0);
            proof {
                assert(self.events@ =~= evs.drop_first());
            }
            self.create_modify_entry(ev.nh_addr, ev.state, true);
        }
        self.propagate();
    }

    /// Sets next hop `addr` administratively connected (`is_add`) or not, and brings
    /// every entry up or down to match. Always 0; `ifindex` is not recorded.
    pub fn nh_add_del(&mut self, addr: IpAddress, ifindex: u32, is_add: bool) -> (r: i32)
        requires
            old(self).wf(),
        ensures
            final(self).wf(),
            r == 0,
            final(self).nh_map() == old(self).nh_map().insert(addr, NhEntry { connected: is_add, physical: true }),
            final(self).ftn_seq() == old(self).ftn_seq(),
            final(self).ilm_seq() == old(self).ilm_seq(),
            final(self).same_xcs(old(self)),
            final(self).ilm_id_map() == old(self).ilm_id_map(),
    {
        self.enqueue(addr, is_add);
        proof {
            assert(self.xc_seq() == old(self).xc_seq());
            assert(self.xc_id_map() == old(self).xc_id_map());
            assert(self.nhlfe_id_map() == old(self).nhlfe_id_map());
            assert(self.ftn_seq() == old(self).ftn_seq() && self.ilm_seq() == old(self).ilm_seq());
            let evs = self.events@;
            assert(evs.drop_first() =~= Seq::<NhEvent>::empty());
            assert(Self::apply_events(self.nh_map(), evs) == Self::apply_events(
                self.nh_map().insert(addr, NhEntry { connected: is_add, physical: true }), evs.drop_first()));
        }
        self.process_events();
        0
    }

    /// The reachability record of next hop `addr`.
    pub fn nh_lookup(&self, addr: &IpAddress) -> (r: Option<NhEntry>)
        requires
            self.wf(),
        ensures
            r == (if self.nh_map().contains_key(*addr) { Some(self.nh_map()[*addr]) } else { None::<NhEntry> }),
    {
        match self.nhs.get(addr) {
            Some(e) => Some(*e),
            None => None,
        }
    }

    /// Whether the first FTN entry with this FEC and handle is up; `None` when there is none.
    pub fn ftn_state(&self, fec: &IpAddress, ftn_ix: u32) -> (r: Option<bool>)
        requires
            self.wf(),
        ensures
            r is None <==> !(exists|i: int| 0 <= i < self.ftn_seq().len() && self.ftn_seq()[i].fec == *fec
                && self.ftn_seq()[i].ix == ftn_ix),
            r matches Some(b) ==> exists|i: int| Self::first_ftn(self.ftn_seq(), *fec, ftn_ix, i) && b == self.ftn_states()[i],
    {
        match self.find_ftn(fec, ftn_ix) {
            Some(i) => Some(self.ftn_up[i]),
            None => None,
        }
    }

    /// The cross-connect of the first FTN entry with this FEC and handle.
    pub fn ftn_xc(&self, fec: &IpAddress, ftn_ix: u32) -> (r: Option<XcKey>)
        requires
            self.wf(),
        ensures
            r is None <==> !(exists|i: int| 0 <= i < self.ftn_seq().len() && self.ftn_seq()[i].fec == *fec
                && self.ftn_seq()[i].ix == ftn_ix),
            r matches Some(k) ==> exists|i: int, p: int| Self::first_ftn(self.ftn_seq(), *fec, ftn_ix, i)
                && 0 <= p < self.xc_seq().len() && self.xc_seq()[p].key == k && k.xc_ix == self.ftn_seq()[i].xc_ix,
    {
        match self.find_ftn(fec, ftn_ix) {
            Some(i) => {
                let x = self.ftns[i].xc_ix;
                match self.find_xc_by_ix(x) {
                    Some(p) => Some(self.xcs[p].key),
                    None => {
                        proof {
                            assert(self.ftn_seq()[i as int].xc_ix == x);
                        }
                        None
                    },
                }
            },
            None => None,
        }
    }

    /// Whether the first ILM entry for (`in_label`, `in_iface`) named by `ilm_ix` (or by
    /// `owner` when `ilm_ix` is 0) is up; `None` when there is none.
    pub fn ilm_state(&self, in_label: u32, in_iface: u32, ilm_ix: u32, owner: u32) -> (r: Option<bool>)
        requires
            self.wf(),
        ensures
            r is None <==> !Self::some_ilm_named(self.ilm_seq(), IlmKey { in_label, in_iface }, ilm_ix, owner),
            r matches Some(b) ==> exists|i: int| Self::first_ilm(self.ilm_seq(), IlmKey { in_label, in_iface }, ilm_ix, owner, i)
                && b == self.ilm_states()[i],
    {
        match self.find_ilm(&IlmKey { in_label, in_iface }, ilm_ix, owner) {
            Some(i) => Some(self.ilm_up[i]),
            None => None,
        }
    }

    /// Number of cross-connects (each with its NHLFE).
    pub fn xc_count(&self) -> (r: usize)
        ensures
            r == self.xc_seq().len(),
    {
        self.xcs.len()
    }

    pub fn ftn_count(&self) -> (r: usize)
        ensures
            r == self.ftn_seq().len(),
    {
        self.ftns.len()
    }

    pub fn ilm_count(&self) -> (r: usize)
        ensures
            r == self.ilm_seq().len(),
    {
        self.ilms.len()
    }

    /// Whether cross-connect handle `ix` is in use.
    pub fn xc_id_in_use(&self, ix: u32) -> (r: bool)
        requires
            self.wf(),
        ensures
            r == (1 <= ix <= ID_SPACE && self.xc_id_map()[ix - 1]),
    {
        self.xc_ids.is_taken(ix)
    }

    /// Whether NHLFE handle `ix` is in use.
    pub fn nhlfe_id_in_use(&self, ix: u32) -> (r: bool)
        requires
            self.wf(),
        ensures
            r == (1 <= ix <= ID_SPACE && self.nhlfe_id_map()[ix - 1]),
    {
        self.nhlfe_ids.is_taken(ix)
    }

    /// Whether ILM handle `ix` is in use.
    pub fn ilm_id_in_use(&self, ix: u32) -> (r: bool)
        requires
            self.wf(),
        ensures
            r == (1 <= ix <= ID_SPACE && self.ilm_id_map()[ix - 1]),
    {
        self.ilm_ids.is_taken(ix)
    }

    /// An FTN entry whose next hop is administratively connected is up; an entry whose
    /// next hop is the FEC of an FTN entry that is up is up too.
    pub proof fn lemma_up_propagation(&self, a: int, b: int)
        requires
            self.wf(),
            0 <= a < self.ftn_seq().len(),
            0 <= b < self.ftn_seq().len(),
        ensures
            self.nh_admin_up(self.ftn_seq()[a].next_hop) ==> self.ftn_states()[a],
            self.ftn_states()[a] && self.ftn_seq()[b].next_hop == self.ftn_seq()[a].fec ==> self.ftn_states()[b],
    {
        assert(self.ftn_states()[a] <==> self.nh_live(self.ftn_seq()[a].next_hop));
        assert(self.ftn_states()[b] <==> self.nh_live(self.ftn_seq()[b].next_hop));
    }

    /// With next hop `n` administratively down and the FEC of no FTN entry, FTN entry
    /// `a` bound to `n` is down; and when `a` alone has its FEC, which is not
    /// administratively up either, FTN entry `b` stacked on that FEC is down too.
    pub proof fn lemma_down_propagation(&self, n: IpAddress, a: int, b: int)
        requires
            self.wf(),
            0 <= a < self.ftn_seq().len(),
            0 <= b < self.ftn_seq().len(),
            self.ftn_seq()[a].next_hop == n,
            !self.nh_admin_up(n),
            forall|j: int| 0 <= j < self.ftn_seq().len() ==> self.ftn_seq()[j].fec != n,
        ensures
            !self.ftn_states()[a],
            self.ftn_seq()[b].next_hop == self.ftn_seq()[a].fec && !self.nh_admin_up(self.ftn_seq()[a].fec)
                && (forall|j: int| 0 <= j < self.ftn_seq().len() && j != a ==> self.ftn_seq()[j].fec != self.ftn_seq()[a].fec)
                ==> !self.ftn_states()[b],
    {
        assert(self.ftn_states()[a] <==> self.nh_live(self.ftn_seq()[a].next_hop));
        assert(self.ftn_states()[b] <==> self.nh_live(self.ftn_seq()[b].next_hop));
    }

    /// Adding an FTN entry with a new NHLFE key and then deleting it leaves the
    /// cross-connects and both handle allocators as they were: handles are recycled.
    pub proof fn lemma_add_del_recycles_ids(s0: Self, s1: Self, s2: Self, fec: IpAddress, next_hop: IpAddress,
        out_ifindex: u32, out_label: u32, ftn_ix: u32, r2: i32)
        requires
            s0.wf(),
            s1.wf(),
            Self::ftn_add_post(s0, s1, fec, next_hop, out_ifindex, out_label, ftn_ix, 0),
            Self::ftn_del_post(s1, s2, fec, ftn_ix, r2),
            !xc_with_key(s0.xc_seq(), nhlfe_key_of(next_hop, out_label, out_ifindex)),
            forall|i: int| 0 <= i < s0.ftn_seq().len() ==> !(s0.ftn_seq()[i].fec == fec && s0.ftn_seq()[i].ix == ftn_ix),
        ensures
            r2 == 0,
            s2.ftn_seq() == s0.ftn_seq(),
            s2.same_xcs(&s0),
    {
        let k = nhlfe_key_of(next_hop, out_label, out_ifindex);
        let x = choose|x: u32| s1.ftn_seq() == s0.ftn_seq().push(FtnEntry { fec, ix: ftn_ix, xc_ix: x, next_hop })
            && Self::xcs_resolved(s0, s1, k, x);
        let last = s0.ftn_seq().len() as int;
        assert(s1.ftn_seq()[last].fec == fec && s1.ftn_seq()[last].ix == ftn_ix);
        let i = choose|i: int| Self::first_ftn(s1.ftn_seq(), fec, ftn_ix, i) && s2.ftn_seq() == s1.ftn_seq().remove(i)
            && Self::xcs_released(s1, s2, s1.ftn_seq()[i].xc_ix, xc_in_use(s2.ftn_seq(), s2.ilm_seq(), s1.ftn_seq()[i].xc_ix));
        if i < last {
            assert(s1.ftn_seq()[i] == s0.ftn_seq()[i]);
        }
        assert(i == last);
        assert(s2.ftn_seq() =~= s0.ftn_seq());
        crate::id_map::lemma_first_free(s0.xc_id_map());
        crate::id_map::lemma_first_free(s0.nhlfe_id_map());
        let f = x as int - 1;
        assert(!s0.xc_id_map()[f]);
        assert forall|p: int| 0 <= p < s0.xc_seq().len() implies s0.xc_seq()[p].key.xc_ix != x by {
            if s0.xc_seq()[p].key.xc_ix == x {
                assert(s0.xc_id_map()[f]);
            }
        }
        if xc_in_use(s2.ftn_seq(), s2.ilm_seq(), x) {
            if exists|j: int| 0 <= j < s2.ftn_seq().len() && s2.ftn_seq()[j].xc_ix == x {
                let j = choose|j: int| 0 <= j < s2.ftn_seq().len() && s2.ftn_seq()[j].xc_ix == x;
                assert(s0.ftn_seq()[j].xc_ix == x);
                let p = choose|p: int| 0 <= p < s0.xc_seq().len() && s0.xc_seq()[p].key.xc_ix == s0.ftn_seq()[j].xc_ix
                    && s0.xc_seq()[p].nhlfe.key.next_hop == s0.ftn_seq()[j].next_hop;
            } else {
                let j = choose|j: int| 0 <= j < s2.ilm_seq().len() && s2.ilm_seq()[j].xc_ix == x;
                assert(s0.ilm_seq()[j].xc_ix == x);
                let p = choose|p: int| 0 <= p < s0.xc_seq().len() && s0.xc_seq()[p].key.xc_ix == s0.ilm_seq()[j].xc_ix
                    && s0.xc_seq()[p].nhlfe.key.next_hop == s0.ilm_seq()[j].next_hop;
            }
        }
        let p = choose|p: int| 0 <= p < s1.xc_seq().len() && s1.xc_seq()[p].key.xc_ix == x && {
            &&& s2.xc_seq() == s1.xc_seq().remove(p)
            &&& s2.xc_id_map() == s1.xc_id_map().update(x - 1, false)
            &&& s2.nhlfe_id_map() == s1.nhlfe_id_map().update(s1.xc_seq()[p].key.nhlfe_ix - 1, false)
        };
        let lx = s0.xc_seq().len() as int;
        if p < lx {
            assert(s1.xc_seq()[p] == s0.xc_seq()[p]);
        }
        assert(p == lx);
        assert(s2.xc_seq() =~= s0.xc_seq());
        assert(s2.xc_id_map() =~= s0.xc_id_map());
        let g = s0.next_nhlfe_ix() - 1;
        assert(!s0.nhlfe_id_map()[g]);
        assert(s2.nhlfe_id_map() =~= s0.nhlfe_id_map());
    }

    /// When every cross-connect handle is taken, an FTN entry with a new NHLFE key
    /// cannot be added.
    pub proof fn lemma_exhaustion(s0: Self, s1: Self, fec: IpAddress, next_hop: IpAddress, out_ifindex: u32,
        out_label: u32, ftn_ix: u32, r: i32)
        requires
            s0.wf(),
            Self::ftn_add_post(s0, s1, fec, next_hop, out_ifindex, out_label, ftn_ix, r),
            !xc_with_key(s0.xc_seq(), nhlfe_key_of(next_hop, out_label, out_ifindex)),
            forall|i: int| 0 <= i < ID_SPACE ==> s0.xc_id_map()[i],
        ensures
            r == -1,
            s1.same_xcs(&s0),
            s1.ftn_seq() == s0.ftn_seq(),
    {
        crate::id_map::lemma_first_free(s0.xc_id_map());
        if first_free(s0.xc_id_map()) < s0.xc_id_map().len() {
            assert(s0.xc_id_map()[first_free(s0.xc_id_map()) as int]);
        }
    }

    /// Two FTN entries added with the same NHLFE key share one cross-connect, and with
    /// it one NHLFE and one pair of handles.
    pub proof fn lemma_shared_xc(s0: Self, s1: Self, s2: Self, fec1: IpAddress, ix1: u32, fec2: IpAddress, ix2: u32,
        next_hop: IpAddress, out_ifindex: u32, out_label: u32)
        requires
            s0.wf(),
            s1.wf(),
            Self::ftn_add_post(s0, s1, fec1, next_hop, out_ifindex, out_label, ix1, 0),
            Self::ftn_add_post(s1, s2, fec2, next_hop, out_ifindex, out_label, ix2, 0),
        ensures
            s2.same_xcs(&s1),
            s2.ftn_seq().len() == s0.ftn_seq().len() + 2,
            s2.ftn_seq()[s0.ftn_seq().len() as int].xc_ix == s2.ftn_seq()[s0.ftn_seq().len() as int + 1].xc_ix,
    {
        let k = nhlfe_key_of(next_hop, out_label, out_ifindex);
        let x1 = choose|x: u32| s1.ftn_seq() == s0.ftn_seq().push(FtnEntry { fec: fec1, ix: ix1, xc_ix: x, next_hop })
            && Self::xcs_resolved(s0, s1, k, x);
        let x2 = choose|x: u32| s2.ftn_seq() == s1.ftn_seq().push(FtnEntry { fec: fec2, ix: ix2, xc_ix: x, next_hop })
            && Self::xcs_resolved(s1, s2, k, x);
        let n = s0.ftn_seq().len() as int;
        assert(s2.ftn_seq()[n] == s1.ftn_seq()[n]);
        if xc_with_key(s0.xc_seq(), k) {
            let p = choose|p: int| 0 <= p < s0.xc_seq().len() && s0.xc_seq()[p].nhlfe.key == k && x1 == s0.xc_seq()[p].key.xc_ix;
            assert(s1.xc_seq()[p] == s0.xc_seq()[p]);
            assert(xc_with_key(s1.xc_seq(), k));
            let q = choose|q: int| 0 <= q < s1.xc_seq().len() && s1.xc_seq()[q].nhlfe.key == k && x2 == s1.xc_seq()[q].key.xc_ix;
            assert(p == q);
        } else {
            let p = s0.xc_seq().len() as int;
            assert(s1.xc_seq()[p].nhlfe.key == k);
            assert(xc_with_key(s1.xc_seq(), k));
            let q = choose|q: int| 0 <= q < s1.xc_seq().len() && s1.xc_seq()[q].nhlfe.key == k && x2 == s1.xc_seq()[q].key.xc_ix;
            assert(p == q);
        }
    }

    /// While another entry still uses the shared cross-connect, deleting an FTN entry
    /// keeps it, its NHLFE and their handles; deleting the last user releases both.
    pub proof fn lemma_shared_xc_release(s0: Self, s1: Self, fec: IpAddress, ftn_ix: u32, x: u32)
        requires
            s0.wf(),
            Self::ftn_del_post(s0, s1, fec, ftn_ix, 0),
            exists|i: int| Self::first_ftn(s0.ftn_seq(), fec, ftn_ix, i) && s0.ftn_seq()[i].xc_ix == x,
        ensures
            xc_in_use(s1.ftn_seq(), s1.ilm_seq(), x) ==> s1.same_xcs(&s0),
            !xc_in_use(s1.ftn_seq(), s1.ilm_seq(), x) ==> !s1.xc_id_map()[x - 1]
                && forall|p: int| 0 <= p < s1.xc_seq().len() ==> s1.xc_seq()[p].key.xc_ix != x,
    {
        let i = choose|i: int| Self::first_ftn(s0.ftn_seq(), fec, ftn_ix, i) && s0.ftn_seq()[i].xc_ix == x;
        let j = choose|j: int| Self::first_ftn(s0.ftn_seq(), fec, ftn_ix, j) && s1.ftn_seq() == s0.ftn_seq().remove(j)
            && Self::xcs_released(s0, s1, s0.ftn_seq()[j].xc_ix, xc_in_use(s1.ftn_seq(), s1.ilm_seq(), s0.ftn_seq()[j].xc_ix));
        if i < j {
        } else if j < i {
        }
        assert(i == j);
        if !xc_in_use(s1.ftn_seq(), s1.ilm_seq(), x) {
            let p = choose|p: int| 0 <= p < s0.xc_seq().len() && s0.xc_seq()[p].key.xc_ix == x && {
                &&& s1.xc_seq() == s0.xc_seq().remove(p)
                &&& s1.xc_id_map() == s0.xc_id_map().update(x - 1, false)
                &&& s1.nhlfe_id_map() == s0.nhlfe_id_map().update(s0.xc_seq()[p].key.nhlfe_ix - 1, false)
            };
            assert forall|q: int| 0 <= q < s1.xc_seq().len() implies s1.xc_seq()[q].key.xc_ix != x by {
                let qq = if q < p { q } else { q + 1 };
                assert(s1.xc_seq()[q] == s0.xc_seq()[qq]);
            }
        }
    }
}

} // verus!
