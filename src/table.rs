//! A table keyed by IP address: a patricia tree maps each address's key to the
//! position of its entry in a dense vector of slots.
use vstd::prelude::*;
use patricia_tree::PatriciaMap;
use crate::addr::{IpAddress, key_of, lemma_key_injective, lemma_key_prefix_is_equal};
use crate::tree::{tree_contents, tree_new, tree_get, tree_insert, tree_remove, tree_longest_prefix};

verus! {

/// One entry of an [`AddrTable`]: the address it is stored under, and its value.
pub struct Slot<T> {
    pub addr: IpAddress,
    pub val: T,
}

pub struct AddrTable<T> {
    index: PatriciaMap<u64>,
    slots: Vec<Slot<T>>,
}

impl<T> AddrTable<T> {
    /// Key bytes to slot position.
    pub closed spec fn positions(&self) -> Map<Seq<u8>, u64> {
        tree_contents(self.index)
    }

    /// The slots in storage order.
    pub closed spec fn entries(&self) -> Seq<Slot<T>> {
        self.slots@
    }

    pub closed spec fn wf(&self) -> bool {
        &&& forall|k: Seq<u8>|
            #![trigger self.positions().contains_key(k)]
            self.positions().contains_key(k) ==> {
                &&& (self.positions()[k] as int) < self.slots@.len()
                &&& key_of(self.slots@[self.positions()[k] as int].addr) == k
            }
        &&& forall|i: int|
            #![trigger self.slots@[i]]
            0 <= i < self.slots@.len() ==> {
                &&& self.positions().contains_key(key_of(self.slots@[i].addr))
                &&& self.positions()[key_of(self.slots@[i].addr)] == i
            }
    }

    /// The table as a map from address to value.
    pub closed spec fn view(&self) -> Map<IpAddress, T> {
        Map::new(
            |a: IpAddress| self.positions().contains_key(key_of(a)),
            |a: IpAddress| self.slots@[self.positions()[key_of(a)] as int].val,
        )
    }

    /// The slots list exactly the table's entries, each address once.
    pub proof fn lemma_entries(&self)
        requires
            self.wf(),
        ensures
            forall|i: int|
                #![trigger self.entries()[i]]
                0 <= i < self.entries().len() ==> self@.contains_key(self.entries()[i].addr)
                    && self@[self.entries()[i].addr] == self.entries()[i].val,
            forall|a: IpAddress|
                #![trigger self@.contains_key(a)]
                self@.contains_key(a) ==> exists|i: int|
                    0 <= i < self.entries().len() && #[trigger] self.entries()[i].addr == a,
            forall|i: int, j: int|
                0 <= i < self.entries().len() && 0 <= j < self.entries().len()
                    && #[trigger] self.entries()[i].addr == #[trigger] self.entries()[j].addr ==> i == j,
    {
        assert forall|a: IpAddress| #[trigger] self@.contains_key(a) implies exists|i: int|
            0 <= i < self.entries().len() && #[trigger] self.entries()[i].addr == a by {
            let i = self.positions()[key_of(a)] as int;
            lemma_key_injective(self.slots@[i].addr, a);
        }
    }

    pub fn new() -> (r: Self)
        ensures
            r.wf(),
            r@ == Map::<IpAddress, T>::empty(),
    {
        let r = AddrTable { index: tree_new(), slots: Vec::new() };
        assert(r@ =~= Map::<IpAddress, T>::empty());
        r
    }

    pub fn len(&self) -> (r: usize)
        ensures
            r == self.entries().len(),
    {
        self.slots.len()
    }

    /// The slot at position `i` of the storage order.
    pub fn slot(&self, i: usize) -> (r: &Slot<T>)
        requires
            i < self.entries().len(),
        ensures
            *r == self.entries()[i as int],
    {
        &self.slots[i]
    }

    fn position(&self, a: &IpAddress) -> (r: Option<usize>)
        requires
            self.wf(),
        ensures
            r == (if self.positions().contains_key(key_of(*a)) {
                Some(self.positions()[key_of(*a)] as usize)
            } else {
                None::<usize>
            }),
            r matches Some(i) ==> i < self.slots@.len() && self.slots@[i as int].addr == *a,
    {
        let k = a.key();
        match tree_get(&self.index, &k) {
            Some(p) => {
                proof {
                    assert(self.positions().contains_key(key_of(*a)));
                    assert((p as int) < self.slots@.len());
                    assert(key_of(self.slots@[p as int].addr) == key_of(*a));
                    lemma_key_injective(self.slots@[p as int].addr, *a);
                }
                let n = self.slots.len();
                assert((p as int) < n as int);
                let i = p as usize;
                assert(i as int == p as int);
                Some(i)
            },
            None => None,
        }
    }

    pub fn contains(&self, a: &IpAddress) -> (r: bool)
        requires
            self.wf(),
        ensures
            r == self@.contains_key(*a),
    {
        self.position(a).is_some()
    }

    pub fn get(&self, a: &IpAddress) -> (r: Option<&T>)
        requires
            self.wf(),
        ensures
            r.is_some() == self@.contains_key(*a),
            r matches Some(v) ==> *v == self@[*a],
    {
        match self.position(a) {
            Some(i) => Some(&self.slots[i].val),
            None => None,
        }
    }

    /// Stores `v` under `a`, replacing the value that was there.
    pub fn insert(&mut self, a: IpAddress, v: T)
        requires
            old(self).wf(),
        ensures
            final(self).wf(),
            final(self)@ == old(self)@.insert(a, v),
    {
        let k = a.key();
        match self.position(&a) {
            Some(i) => {
                self.slots.set(i, Slot { addr: a, val: v });
            },
            None => {
                let n = self.slots.len();
                self.slots.push(Slot { addr: a, val: v });
                tree_insert(&mut self.index, &k, n as u64);
                proof {
                    assert forall|kk: Seq<u8>| #![trigger self.positions().contains_key(kk)]
                        self.positions().contains_key(kk) implies
                        (self.positions()[kk] as int) < self.slots@.len()
                        && key_of(self.slots@[self.positions()[kk] as int].addr) == kk by {
                        if kk != key_of(a) {
                            assert(old(self).positions().contains_key(kk));
                        }
                    }
                    assert forall|j: int| #![trigger self.slots@[j]]
                        0 <= j < self.slots@.len() implies
                        self.positions().contains_key(key_of(self.slots@[j].addr))
                        && self.positions()[key_of(self.slots@[j].addr)] == j by {
                        if j < n {
                            assert(old(self).slots@[j] == self.slots@[j]);
                            assert(key_of(self.slots@[j].addr) != key_of(a));
                        }
                    }
                }
            },
        }
        proof {
            assert forall|b: IpAddress| self@.contains_key(b) == old(self)@.insert(a, v).contains_key(b) by {
                if b != a && key_of(b) == key_of(a) {
                    lemma_key_injective(a, b);
                }
            }
            assert forall|b: IpAddress| #[trigger] self@.contains_key(b) implies self@[b] == old(self)@.insert(a, v)[b] by {
                if b != a {
                    if key_of(b) == key_of(a) {
                        lemma_key_injective(a, b);
                    }
                }
            }
            assert(self@ =~= old(self)@.insert(a, v));
        }
    }

    /// Removes the entry under `a`, handing back its value.
    pub fn remove(&mut self, a: &IpAddress) -> (r: Option<T>)
        requires
            old(self).wf(),
        ensures
            final(self).wf(),
            final(self)@ == old(self)@.remove(*a),
            r.is_some() == old(self)@.contains_key(*a),
            r matches Some(v) ==> v == old(self)@[*a],
    {
        match self.position(a) {
            None => {
                assert(self@ =~= old(self)@.remove(*a));
                None
            },
            Some(i) => {
                let ka = a.key();
                let last = self.slots.len() - 1;
                let s = self.slots.swap_remove(i);
                tree_remove(&mut self.index, &ka);
                if i < last {
                    let km = self.slots[i].addr.key();
                    tree_insert(&mut self.index, &km, i as u64);
                }
                proof {
                    let old_slots = old(self).slots@;
                    assert forall|kk: Seq<u8>| #![trigger self.positions().contains_key(kk)]
                        self.positions().contains_key(kk) implies
                        (self.positions()[kk] as int) < self.slots@.len()
                        && key_of(self.slots@[self.positions()[kk] as int].addr) == kk by {
                        assert(old(self).positions().contains_key(kk));
                        if i < last && kk == key_of(old_slots[last as int].addr) {
                        } else {
                            let p = old(self).positions()[kk] as int;
                            assert(key_of(old_slots[p].addr) == kk);
                            if p == last as int {
                                assert(old(self).positions()[key_of(old_slots[last as int].addr)] == last);
                            }
                        }
                    }
                    assert forall|j: int| #![trigger self.slots@[j]]
                        0 <= j < self.slots@.len() implies
                        self.positions().contains_key(key_of(self.slots@[j].addr))
                        && self.positions()[key_of(self.slots@[j].addr)] == j by {
                        if j == i as int {
                            assert(self.slots@[j] == old_slots[last as int]);
                            assert(old(self).positions()[key_of(old_slots[last as int].addr)] == last);
                        } else {
                            assert(self.slots@[j] == old_slots[j]);
                            assert(old(self).positions()[key_of(old_slots[j].addr)] == j);
                            if i < last {
                                assert(old(self).positions()[key_of(old_slots[last as int].addr)] == last);
                            }
                        }
                    }
                    assert forall|b: IpAddress| self@.contains_key(b) == old(self)@.remove(*a).contains_key(b) by {
                        if b != *a && key_of(b) == key_of(*a) {
                            lemma_key_injective(*a, b);
                        }
                    }
                    assert forall|b: IpAddress| #[trigger] self@.contains_key(b) implies self@[b] == old(self)@.remove(*a)[b] by {
                        let p = old(self).positions()[key_of(b)] as int;
                        assert(key_of(old_slots[p].addr) == key_of(b));
                    }
                    assert(self@ =~= old(self)@.remove(*a));
                }
                Some(s.val)
            },
        }
    }

    /// The entry stored under the longest key that is a prefix of `a`'s key. Keys of
    /// one family all have the same length, so this is the entry under `a` itself.
    pub fn longest_match(&self, a: &IpAddress) -> (r: Option<&Slot<T>>)
        requires
            self.wf(),
        ensures
            r.is_some() == self@.contains_key(*a),
            r matches Some(s) ==> s.addr == *a && s.val == self@[*a],
    {
        let k = a.key();
        match tree_longest_prefix(&self.index, &k) {
            Some((_pk, p)) => {
                let ghost pk = _pk@;
                proof {
                    assert(self.positions().contains_key(pk));
                    let b = self.slots@[p as int].addr;
                    assert(key_of(b) == pk);
                    lemma_key_prefix_is_equal(*a, b);
                    assert(self.positions().contains_key(key_of(*a)));
                }
                let n = self.slots.len();
                assert((p as int) < n as int);
                let i = p as usize;
                assert(i as int == p as int);
                Some(&self.slots[i])
            },
            None => {
                proof {
                    if self@.contains_key(*a) {
                        assert(self.positions().contains_key(key_of(*a)));
                        assert(key_of(*a).subrange(0, key_of(*a).len() as int) =~= key_of(*a));
                    }
                }
                None
            },
        }
    }
}

} // verus!
