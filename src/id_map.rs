//! Fixed-capacity allocator of small positive handles.
use vstd::prelude::*;

verus! {

/// Number of handles an [`IdMap`] can hand out; handles run from 1 to this value.
pub const ID_SPACE: usize = 1024;

/// Occupancy bitmap: slot `i` is taken when handle `i + 1` is in use. Handle 0 is
/// never handed out and stands for "no handle".
pub struct IdMap {
    ids: Vec<bool>,
}

/// Position of the first free slot, or the length when every slot is taken.
pub open spec fn first_free(s: Seq<bool>) -> nat
    decreases s.len(),
{
    if s.len() == 0 {
        0
    } else if !s[0] {
        0
    } else {
        1 + first_free(s.drop_first())
    }
}

pub proof fn lemma_first_free(s: Seq<bool>)
    ensures
        first_free(s) <= s.len(),
        forall|j: int| 0 <= j < first_free(s) ==> #[trigger] s[j],
        first_free(s) < s.len() ==> !s[first_free(s) as int],
    decreases s.len(),
{
    if s.len() > 0 && s[0] {
        lemma_first_free(s.drop_first());
        assert forall|j: int| 0 <= j < first_free(s) implies #[trigger] s[j] by {
            if j > 0 {
                assert(s[j] == s.drop_first()[j - 1]);
            }
        }
    }
}

impl IdMap {
    pub closed spec fn view(&self) -> Seq<bool> {
        self.ids@
    }

    pub open spec fn wf(&self) -> bool {
        self@.len() == ID_SPACE
    }

    /// Whether `ix` is a handle currently in use.
    pub open spec fn taken(&self, ix: int) -> bool {
        1 <= ix <= ID_SPACE && self@[ix - 1]
    }

    /// Whether some handle is free.
    pub open spec fn has_free(&self) -> bool {
        first_free(self@) < self@.len()
    }

    /// The handle that the next allocation hands out when one is free.
    pub open spec fn next_free(&self) -> int {
        first_free(self@) as int + 1
    }

    /// An allocator with every handle free.
    pub fn new() -> (r: IdMap)
        ensures
            r.wf(),
            forall|i: int| 0 <= i < ID_SPACE ==> !r@[i],
    {
        let mut ids: Vec<bool> = Vec::new();
        let mut i: usize = 0;
        while i < ID_SPACE
            invariant
                i <= ID_SPACE,
                ids@.len() == i,
                forall|j: int| 0 <= j < i ==> !ids@[j],
            decreases ID_SPACE - i,
        {
            ids.push(false);
            i = i + 1;
        }
        IdMap { ids }
    }

    /// Takes the lowest free handle and returns it, or returns 0 when all are taken.
    pub fn get_free(&mut self) -> (r: u32)
        requires
            old(self).wf(),
        ensures
            final(self).wf(),
            old(self).has_free() ==> {
                &&& r as int == old(self).next_free()
                &&& final(self)@ == old(self)@.update(r - 1, true)
            },
            !old(self).has_free() ==> r == 0 && final(self)@ == old(self)@,
    {
        proof {
            lemma_first_free(self@);
        }
        let mut i: usize = 0;
        while i < ID_SPACE
            invariant
                i <= ID_SPACE,
                self.ids@.len() == ID_SPACE,
                self.ids@ == old(self).ids@,
                forall|j: int| 0 <= j < i ==> self.ids@[j],
                first_free(self.ids@) >= i,
                forall|j: int| 0 <= j < first_free(self.ids@) ==> #[trigger] self.ids@[j],
                first_free(self.ids@) < self.ids@.len() ==> !self.ids@[first_free(self.ids@) as int],
            decreases ID_SPACE - i,
        {
            if !self.ids[i] {
                assert(first_free(self.ids@) == i);
                self.ids.set(i, true);
                return (i + 1) as u32;
            }
            i = i + 1;
        }
        0
    }

    /// Frees handle `ix`; out-of-range handles, 0 included, change nothing.
    pub fn put_free(&mut self, ix: usize)
        requires
            old(self).wf(),
        ensures
            final(self).wf(),
            1 <= ix <= ID_SPACE ==> final(self)@ == old(self)@.update(ix - 1, false),
            !(1 <= ix <= ID_SPACE) ==> final(self)@ == old(self)@,
    {
        if ix > ID_SPACE || ix == 0 {
            return;
        }
        self.ids.set(ix - 1, false);
    }

    /// Whether handle `ix` is in use.
    pub fn is_taken(&self, ix: u32) -> (r: bool)
        requires
            self.wf(),
        ensures
            r == self.taken(ix as int),
    {
        if ix == 0 || ix as usize > ID_SPACE {
            false
        } else {
            self.ids[(ix - 1) as usize]
        }
    }
}

} // verus!
