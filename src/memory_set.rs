//! A task's address space, kept at page granularity: which virtual pages are
//! mapped, and with which permission bits.

use vstd::prelude::*;

verus! {

/// Permission bit: the page is readable.
pub const PERM_R: u8 = 2;
/// Permission bit: the page is writable.
pub const PERM_W: u8 = 4;
/// Permission bit: the page is executable.
pub const PERM_X: u8 = 8;
/// Permission bit: the page is reachable from user mode.
pub const PERM_U: u8 = 16;

/// One mapped page and its permission bits.
#[derive(Clone, Copy, Debug, PartialEq, Eq, Structural)]
pub struct PageEntry {
    pub vpn: usize,
    pub perm: u8,
}

/// The mapped pages of one address space.
pub struct MemorySet {
    entries: Vec<PageEntry>,
    pages: Ghost<Map<usize, u8>>,
}

impl View for MemorySet {
    type V = Map<usize, u8>;

    /// Page number to permission bits, for every mapped page.
    closed spec fn view(&self) -> Map<usize, u8> {
        self.pages@
    }
}

/// The pages `[start, end)`, each mapped with `perm`.
pub open spec fn range_map(start: usize, end: usize, perm: u8) -> Map<usize, u8> {
    Map::new(|v: usize| start <= v < end, |v: usize| perm)
}

impl MemorySet {
    /// The entry list holds each mapped page once, and exactly the pages of
    /// the view.
    pub closed spec fn wf(&self) -> bool {
        &&& forall|i: int, j: int|
            0 <= i < j < self.entries@.len() ==> self.entries@[i].vpn != self.entries@[j].vpn
        &&& forall|i: int|
            0 <= i < self.entries@.len() ==> #[trigger] self.pages@.contains_key(
                self.entries@[i].vpn,
            ) && self.pages@[self.entries@[i].vpn] == self.entries@[i].perm
        &&& forall|v: usize|
            #[trigger] self.pages@.contains_key(v) ==> exists|i: int|
                0 <= i < self.entries@.len() && self.entries@[i].vpn == v
    }

    /// An address space with nothing mapped.
    pub fn new_bare() -> (r: MemorySet)
        ensures
            r.wf(),
            r@ == Map::<usize, u8>::empty(),
    {
        MemorySet { entries: Vec::new(), pages: Ghost(Map::empty()) }
    }

    /// Whether page `vpn` is mapped.
    pub fn find_vpn(&self, vpn: usize) -> (r: bool)
        requires
            self.wf(),
        ensures
            r == self@.contains_key(vpn),
    {
        let mut i: usize = 0;
        while i < self.entries.len()
            invariant
                self.wf(),
                i <= self.entries@.len(),
                forall|k: int| 0 <= k < i ==> self.entries@[k].vpn != vpn,
            decreases self.entries@.len() - i,
        {
            if self.entries[i].vpn == vpn {
                return true;
            }
            i = i + 1;
        }
        proof { lemma_unlisted_is_unmapped(self, vpn); }
        false
    }

    /// Maps every page of `[start, end)` with `perm`; the range must be free.
    pub fn insert_framed_area(&mut self, start: usize, end: usize, perm: u8)
        requires
            old(self).wf(),
            forall|v: usize| start <= v < end ==> !old(self)@.contains_key(v),
        ensures
            final(self).wf(),
            final(self)@ == old(self)@.union_prefer_right(range_map(start, end, perm)),
    {
        let mut v: usize = start;
        while v < end
            invariant
                self.wf(),
                start <= end ==> start <= v <= end,
                start > end ==> v == start,
                forall|w: usize| v <= w < end ==> !self@.contains_key(w),
                self@ == old(self)@.union_prefer_right(range_map(start, v, perm)),
            decreases end - v,
        {
            self.push_page(v, perm);
            v = v + 1;
        }
        assert(self@ =~= old(self)@.union_prefer_right(range_map(start, end, perm)));
    }

    /// Maps one free page.
    fn push_page(&mut self, vpn: usize, perm: u8)
        requires
            old(self).wf(),
            !old(self)@.contains_key(vpn),
        ensures
            final(self).wf(),
            final(self)@ == old(self)@.insert(vpn, perm),
    {
        let ghost before = self.entries@;
        self.entries.push(PageEntry { vpn, perm });
        self.pages = Ghost(self.pages@.insert(vpn, perm));
        assert forall|v: usize| #[trigger] self.pages@.contains_key(v) implies exists|i: int|
            0 <= i < self.entries@.len() && self.entries@[i].vpn == v by {
            if v != vpn {
                let i = choose|i: int| 0 <= i < before.len() && before[i].vpn == v;
                assert(self.entries@[i].vpn == v);
            } else {
                assert(self.entries@[before.len() as int].vpn == v);
            }
        }
    }

    /// Unmaps page `vpn`, if it is mapped.
    pub fn delete_pte_from(&mut self, vpn: usize)
        requires
            old(self).wf(),
        ensures
            final(self).wf(),
            final(self)@ == old(self)@.remove(vpn),
    {
        let mut i: usize = 0;
        while i < self.entries.len()
            invariant
                self.wf(),
                *self == *old(self),
                i <= self.entries@.len(),
                forall|k: int| 0 <= k < i ==> self.entries@[k].vpn != vpn,
            decreases self.entries@.len() - i,
        {
            if self.entries[i].vpn == vpn {
                let ghost before = self.entries@;
                self.entries.swap_remove(i);
                self.pages = Ghost(self.pages@.remove(vpn));
                assert forall|a: int, b: int|
                    0 <= a < b < self.entries@.len() implies self.entries@[a].vpn
                    != self.entries@[b].vpn by {
                    let last = before.len() - 1;
                    if b == i {
                        assert(self.entries@[b] == before[last]);
                    } else if a == i {
                        assert(self.entries@[a] == before[last]);
                    }
                }
                assert forall|k: int| 0 <= k < self.entries@.len() implies
                    #[trigger] self.pages@.contains_key(self.entries@[k].vpn)
                    && self.pages@[self.entries@[k].vpn] == self.entries@[k].perm by {
                    let last = before.len() - 1;
                    if k == i {
                        assert(self.entries@[k] == before[last]);
                    }
                }
                assert forall|v: usize| #[trigger] self.pages@.contains_key(v) implies exists|
                    k: int,
                |
                    0 <= k < self.entries@.len() && self.entries@[k].vpn == v by {
                    let k = choose|k: int| 0 <= k < before.len() && before[k].vpn == v;
                    let last = before.len() - 1;
                    if k == last {
                        assert(self.entries@[i as int].vpn == v);
                    } else {
                        assert(self.entries@[k].vpn == v);
                    }
                }
                return;
            }
            i = i + 1;
        }
        proof { lemma_unlisted_is_unmapped(self, vpn); }
        assert(self@ =~= old(self)@.remove(vpn));
    }

    /// Unmaps every page.
    pub fn recycle_data_pages(&mut self)
        requires
            old(self).wf(),
        ensures
            final(self).wf(),
            final(self)@ == Map::<usize, u8>::empty(),
    {
        self.entries.clear();
        self.pages = Ghost(Map::empty());
    }
}

/// A page found in no entry is not mapped.
proof fn lemma_unlisted_is_unmapped(m: &MemorySet, vpn: usize)
    requires
        m.wf(),
        forall|k: int| 0 <= k < m.entries@.len() ==> m.entries@[k].vpn != vpn,
    ensures
        !m@.contains_key(vpn),
{
}

} // verus!
