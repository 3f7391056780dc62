//! Arena of price-level records with stable, versioned handles.
//!
//! A slot that loses its record keeps its index on a free list and bumps
//! its version, so a handle to a destroyed record never validates again
//! and handles to other records survive insertions and removals.

use vstd::prelude::*;

use crate::orderbook::Handle;
use crate::orderbook::PriceLevel;

verus! {

struct Slot {
    ver: u64,
    live: bool,
    level: PriceLevel,
}

/// The arena.  Its view is the finite map from live handles to records.
pub struct PriceLevelStore {
    slots: Vec<Slot>,
    free: Vec<usize>,
    count: usize,
}

impl View for PriceLevelStore {
    type V = Map<Handle, PriceLevel>;

    closed spec fn view(&self) -> Map<Handle, PriceLevel> {
        Map::new(
            |h: Handle|
                h.idx < self.slots@.len() && self.slots@[h.idx as int].ver == h.ver
                    && self.slots@[h.idx as int].live,
            |h: Handle| self.slots@[h.idx as int].level,
        )
    }
}

/// There are no more live handles than slots; one more slot is spare for
/// each dead slot singled out.
proof fn lemma_card_bound(s: PriceLevelStore, j: int)
    requires
        s@.dom().finite(),
    ensures
        s@.dom().len() <= s.slots@.len(),
        0 <= j < s.slots@.len() && !s.slots@[j].live ==> s@.dom().len() <= s.slots@.len()
            - 1,
{
    let dom = s@.dom();
    let f = |h: Handle| h.idx as int;
    let y = dom.map(f);
    let n = s.slots@.len() as int;
    assert(vstd::relations::injective_on(f, dom)) by {
        assert forall|g1: Handle, g2: Handle|
            dom.contains(g1) && dom.contains(g2) && #[trigger] f(g1) == #[trigger] f(
                g2,
            ) implies g1 == g2 by {
            assert(g1.ver == s.slots@[g1.idx as int].ver);
            assert(g2.ver == s.slots@[g2.idx as int].ver);
        }
    }
    vstd::set_lib::lemma_map_size(dom, y, f);
    vstd::set_lib::lemma_int_range(0, n);
    let range = vstd::set_lib::set_int_range(0, n);
    assert forall|i: int| y.contains(i) implies range.contains(i) by {
        let g = choose|g: Handle| dom.contains(g) && f(g) == i;
        assert(g.idx < s.slots@.len());
    }
    vstd::set_lib::lemma_len_subset(y, range);
    if 0 <= j < n && !s.slots@[j].live {
        let range2 = range.remove(j);
        assert forall|i: int| y.contains(i) implies range2.contains(i) by {
            let g = choose|g: Handle| dom.contains(g) && f(g) == i;
            assert(s.slots@[g.idx as int].live);
        }
        vstd::set::axiom_set_remove_len(range, j);
        vstd::set_lib::lemma_len_subset(y, range2);
    }
}

impl PriceLevelStore {
    /// The free list holds exactly the dead slots, once each, and the
    /// record count matches the number of live handles.
    pub closed spec fn wf(&self) -> bool {
        &&& forall|k: int|
            0 <= k < self.free@.len() ==> (#[trigger] self.free@[k]) < self.slots@.len()
                && !self.slots@[self.free@[k] as int].live
        &&& forall|k: int, l: int|
            0 <= k < l < self.free@.len() ==> self.free@[k] != self.free@[l]
        &&& forall|j: int|
            0 <= j < self.slots@.len() && !(#[trigger] self.slots@[j]).live
                ==> self.free@.contains(j as usize)
        &&& self@.dom().finite()
        &&& self.count as int == self@.dom().len()
    }

    /// An empty arena with room for `capacity` levels.
    pub fn new(capacity: usize) -> (r: Self)
        ensures
            r.wf(),
            r@ == Map::<Handle, PriceLevel>::empty(),
    {
        let r = PriceLevelStore {
            slots: Vec::with_capacity(capacity),
            free: Vec::new(),
            count: 0,
        };
        proof {
            assert(r@ =~= Map::<Handle, PriceLevel>::empty());
            assert(r@.dom() =~= Set::<Handle>::empty());
        }
        r
    }

    /// The number of live records.
    pub fn len(&self) -> (n: usize)
        requires
            self.wf(),
        ensures
            n as int == self@.dom().len(),
    {
        self.count
    }

    /// Allocates a record and returns a handle that no live record had.
    pub fn insert(&mut self, level: PriceLevel) -> (h: Handle)
        requires
            old(self).wf(),
        ensures
            final(self).wf(),
            !old(self)@.dom().contains(h),
            final(self)@ == old(self)@.insert(h, level),
    {
        let ghost pre = *self;
        let n0 = self.slots.len();
        let h: Handle;
        match self.free.pop() {
            Some(i) => {
                proof {
                    assert(pre.free@[pre.free@.len() - 1] == i);
                    assert(!pre.slots@[i as int].live);
                    lemma_card_bound(pre, i as int);
                    assert(self.count as int + 1 <= n0 as int);
                }
                let ver = self.slots[i].ver;
                self.slots[i] = Slot { ver, live: true, level };
                h = Handle { idx: i, ver };
                proof {
                    assert(!pre@.dom().contains(h));
                    assert forall|g: Handle|
                        self@.dom().contains(g) <==> pre@.insert(h, level).dom().contains(
                            g,
                        ) by {
                        if g.idx == i && g != h {
                            assert(!pre@.dom().contains(g));
                        }
                    }
                    assert(self@ =~= pre@.insert(h, level));
                    // every other dead slot keeps its place on the free list
                    assert forall|j: int|
                        0 <= j < self.slots@.len() && !(#[trigger] self.slots@[j]).live implies self
                        .free@.contains(j as usize) by {
                        assert(self.slots@[i as int].live);
                        assert(j != i as int);
                        assert(pre.slots@[j] == self.slots@[j]);
                        assert(pre.free@.contains(j as usize));
                        let k = choose|k: int|
                            0 <= k < pre.free@.len() && pre.free@[k] == j as usize;
                        assert(pre.free@[pre.free@.len() - 1] == i);
                        assert(pre.free@[k] == j as usize && j as usize != i);
                        assert(k != pre.free@.len() - 1);
                        assert(self.free@[k] == j as usize);
                    }
                }
            },
            None => {
                let i = self.slots.len();
                self.slots.push(Slot { ver: 0, live: true, level });
                let n2 = self.slots.len();
                h = Handle { idx: i, ver: 0 };
                proof {
                    lemma_card_bound(pre, 0);
                    assert(self.count as int + 1 <= n2 as int);
                    assert(!pre@.dom().contains(h));
                    assert forall|g: Handle|
                        self@.dom().contains(g) <==> pre@.insert(h, level).dom().contains(
                            g,
                        ) by {
                        if g.idx == i && g != h {
                            assert(!self@.dom().contains(g));
                        }
                    }
                    assert(self@ =~= pre@.insert(h, level));
                }
            },
        }
        proof {
            assert(self@.dom() =~= pre@.dom().insert(h));
            vstd::set::axiom_set_insert_len(pre@.dom(), h);
        }
        self.count = self.count + 1;
        h
    }

    /// The record a handle refers to, if it is live.
    pub fn get(&self, h: Handle) -> (r: Option<PriceLevel>)
        ensures
            r == if self@.dom().contains(h) {
                Some(self@[h])
            } else {
                None::<PriceLevel>
            },
    {
        if h.idx < self.slots.len() {
            let ver = self.slots[h.idx].ver;
            let live = self.slots[h.idx].live;
            if live && ver == h.ver {
                Some(self.slots[h.idx].level)
            } else {
                None
            }
        } else {
            None
        }
    }

    /// Overwrites the record of a live handle.
    pub fn set(&mut self, h: Handle, level: PriceLevel)
        requires
            old(self).wf(),
            old(self)@.dom().contains(h),
        ensures
            final(self).wf(),
            final(self)@ == old(self)@.insert(h, level),
    {
        let ghost pre = *self;
        self.slots[h.idx] = Slot { ver: h.ver, live: true, level };
        proof {
            assert forall|g: Handle|
                self@.dom().contains(g) <==> pre@.insert(h, level).dom().contains(g) by {
                if g.idx == h.idx && g != h {
                    assert(!pre@.dom().contains(g));
                }
            }
            assert(self@ =~= pre@.insert(h, level));
            assert(self@.dom() =~= pre@.dom());
        }
    }

    /// Destroys the record of a live handle; the handle goes stale and
    /// the slot's next tenant gets a different version.
    pub fn remove(&mut self, h: Handle)
        requires
            old(self).wf(),
            old(self)@.dom().contains(h),
        ensures
            final(self).wf(),
            final(self)@ == old(self)@.remove(h),
    {
        let ghost pre = *self;
        let s = self.slots[h.idx].ver;
        let bumped = if s == u64::MAX {
            0
        } else {
            s + 1
        };
        let lvl = self.slots[h.idx].level;
        self.slots[h.idx] = Slot { ver: bumped, live: false, level: lvl };
        self.free.push(h.idx);
        proof {
            assert forall|g: Handle|
                self@.dom().contains(g) <==> pre@.remove(h).dom().contains(g) by {
                if g.idx == h.idx && g != h {
                    assert(!pre@.dom().contains(g));
                }
            }
            assert(self@ =~= pre@.remove(h));
            assert(self@.dom() =~= pre@.dom().remove(h));
            vstd::set::axiom_set_remove_len(pre@.dom(), h);
            // the freed index was not on the free list: its slot was live
            assert forall|k: int, l: int|
                0 <= k < l < self.free@.len() implies self.free@[k] != self.free@[l] by {
                if l == self.free@.len() - 1 {
                    assert(self.free@[k] == pre.free@[k]);
                    assert(!pre.slots@[pre.free@[k] as int].live);
                }
            }
            assert forall|j: int|
                0 <= j < self.slots@.len() && !(#[trigger] self.slots@[j]).live implies self
                .free@.contains(j as usize) by {
                if j != h.idx {
                    assert(pre.free@.contains(j as usize));
                    let k = choose|k: int|
                        0 <= k < pre.free@.len() && pre.free@[k] == j as usize;
                    assert(self.free@[k] == j as usize);
                } else {
                    assert(self.free@[self.free@.len() - 1] == j as usize);
                }
            }
        }
        self.count = self.count - 1;
    }
}

} // verus!
