use vstd::prelude::*;

verus! {

/// Marks the end of the free list.
pub const NIL: u32 = 0xffff_ffff;

struct ArenaSlot<T> {
    data: Option<T>,
    next_free: u32,
}

/// A fixed-capacity pool of values addressed by `u32` indices. Free slots form a
/// singly linked list through `next_free`, so allocation and release take constant time.
pub struct Arena<T> {
    slots: Vec<ArenaSlot<T>>,
    free_head: u32,
    len: u32,
    free: Ghost<Seq<u32>>,
}

/// The indices below `n`.
pub open spec fn index_range(n: nat) -> Set<u32> {
    Set::new(|i: u32| (i as nat) < n)
}

pub proof fn lemma_index_range(n: nat)
    requires
        n <= NIL + 1,
    ensures
        index_range(n).finite(),
        index_range(n).len() == n,
    decreases n,
{
    if n == 0 {
        assert(index_range(n) =~= Set::empty());
    } else {
        lemma_index_range((n - 1) as nat);
        assert(index_range((n - 1) as nat).insert((n - 1) as u32) =~= index_range(n));
    }
}

impl<T> Arena<T> {
    /// The live values, by index.
    pub closed spec fn view(&self) -> Map<u32, T> {
        Map::new(
            |i: u32| (i as int) < self.slots@.len() && self.slots@[i as int].data is Some,
            |i: u32| self.slots@[i as int].data->0,
        )
    }

    /// The number of slots that the arena was made with.
    pub closed spec fn spec_capacity(&self) -> nat {
        self.slots@.len()
    }

    /// The index that the next allocation hands out, `NIL` when every slot is live.
    pub closed spec fn next_slot(&self) -> u32 {
        self.free_head
    }

    pub open spec fn is_full(&self) -> bool {
        forall|i: u32| (i as nat) < self.spec_capacity() ==> self@.contains_key(i)
    }

    pub closed spec fn wf(&self) -> bool {
        let free = self.free@;
        &&& self.slots@.len() <= NIL
        &&& free.no_duplicates()
        &&& forall|k: int|
            0 <= k < free.len() ==> (free[k] as int) < self.slots@.len() && (
            #[trigger] self.slots@[free[k] as int]).data is None
        &&& forall|i: u32|
            (i as int) < self.slots@.len() && (#[trigger] self.slots@[i as int]).data is None
                ==> free.contains(i)
        &&& forall|k: int|
            0 <= k < free.len() - 1 ==> (#[trigger] self.slots@[free[k] as int]).next_free
                == free[k + 1]
        &&& free.len() > 0 ==> self.slots@[free.last() as int].next_free == NIL
        &&& self.free_head == if free.len() == 0 {
            NIL
        } else {
            free[0]
        }
        &&& self.len + free.len() == self.slots@.len()
    }

    proof fn lemma_view_facts(&self)
        requires
            self.wf(),
        ensures
            forall|i: u32| #[trigger] self@.contains_key(i) ==> (i as nat) < self.spec_capacity(),
            (self.next_slot() == NIL) == self.is_full(),
            self.next_slot() != NIL ==> (self.next_slot() as nat) < self.spec_capacity()
                && !self@.contains_key(self.next_slot()),
            self@.dom().finite(),
            self@.dom().len() == self.len as nat,
    {
        let free = self.free@;
        let cap = self.slots@.len();
        if free.len() > 0 {
            assert(self.slots@[free[0] as int].data is None);
        }
        if self.free_head == NIL {
            assert forall|i: u32| (i as nat) < self.spec_capacity() implies self@.contains_key(
                i,
            ) by {
                if self.slots@[i as int].data is None {
                    assert(free.contains(i));
                }
            }
        } else {
            assert(free.contains(free[0]));
            assert(!self@.contains_key(free[0]));
        }
        lemma_index_range(cap);
        let fs = free.to_set();
        let dom = self@.dom();
        assert(dom.disjoint(fs));
        assert(dom + fs =~= index_range(cap)) by {
            assert forall|i: u32| index_range(cap).contains(i) implies (dom + fs).contains(i) by {
                if self.slots@[i as int].data is None {
                    assert(free.contains(i));
                }
            }
            assert forall|i: u32| (dom + fs).contains(i) implies index_range(cap).contains(i) by {
                if fs.contains(i) {
                    let k = choose|k: int| 0 <= k < free.len() && free[k] == i;
                    assert(self.slots@[free[k] as int].data is None);
                }
            }
        }
        vstd::set_lib::lemma_len_subset(dom, index_range(cap));
        vstd::set_lib::lemma_len_subset(fs, index_range(cap));
        free.unique_seq_to_set();
        vstd::set_lib::lemma_set_disjoint_lens(dom, fs);
    }

    /// An arena with `capacity` free slots.
    pub fn new(capacity: usize) -> (a: Self)
        requires
            capacity <= NIL,
        ensures
            a.wf(),
            a@ == Map::<u32, T>::empty(),
            a.spec_capacity() == capacity,
    {
        let mut slots: Vec<ArenaSlot<T>> = Vec::with_capacity(capacity);
        let ghost free = Seq::new(capacity as nat, |k: int| k as u32);
        let mut i: usize = 0;
        while i < capacity
            invariant
                i <= capacity <= NIL,
                slots@.len() == i,
                free == Seq::new(capacity as nat, |k: int| k as u32),
                forall|k: int| 0 <= k < i ==> (#[trigger] slots@[k]).data is None,
                forall|k: int|
                    0 <= k < i ==> (#[trigger] slots@[k]).next_free == if k + 1 < capacity {
                        (k + 1) as u32
                    } else {
                        NIL
                    },
            decreases capacity - i,
        {
            let next_free: u32 = if i + 1 < capacity {
                (i + 1) as u32
            } else {
                NIL
            };
            slots.push(ArenaSlot { data: None, next_free });
            i += 1;
        }
        let a = Arena {
            slots,
            free_head: if capacity > 0 {
                0
            } else {
                NIL
            },
            len: 0,
            free: Ghost(free),
        };
        proof {
            assert forall|i: u32|
                (i as int) < a.slots@.len() && (#[trigger] a.slots@[i as int]).data is None
                    implies a.free@.contains(i) by {
                assert(a.free@[i as int] == i);
            }
            assert(a@ =~= Map::<u32, T>::empty());
        }
        a
    }

    /// Stores `value` in a free slot and returns its index; `None`, with nothing
    /// changed, when every slot is live.
    pub fn allocate(&mut self, value: T) -> (r: Option<u32>)
        requires
            old(self).wf(),
        ensures
            final(self).wf(),
            final(self).spec_capacity() == old(self).spec_capacity(),
            old(self).is_full() ==> r is None && final(self)@ == old(self)@
                && final(self).next_slot() == old(self).next_slot(),
            !old(self).is_full() ==> r == Some(old(self).next_slot()),
            r matches Some(i) ==> {
                &&& !old(self)@.contains_key(i)
                &&& (i as nat) < old(self).spec_capacity()
                &&& final(self)@ == old(self)@.insert(i, value)
            },
    {
        proof {
            self.lemma_view_facts();
        }
        if self.free_head == NIL {
            return None;
        }
        let idx = self.free_head;
        let ghost free = self.free@;
        let next = self.slots[idx as usize].next_free;
        self.slots.set(idx as usize, ArenaSlot { data: Some(value), next_free: NIL });
        self.free_head = next;
        self.len = self.len + 1;
        self.free = Ghost(free.drop_first());
        proof {
            let nf = self.free@;
            assert forall|k: int| 0 <= k < nf.len() implies (nf[k] as int) < self.slots@.len()
                && (#[trigger] self.slots@[nf[k] as int]).data is None by {
                assert(nf[k] == free[k + 1]);
                assert(free[k + 1] != free[0]);
                assert(old(self).slots@[free[k + 1] as int].data is None);
            }
            assert forall|i: u32|
                (i as int) < self.slots@.len() && (#[trigger] self.slots@[i as int]).data is None
                    implies nf.contains(i) by {
                assert(free.contains(i));
                let k = choose|k: int| 0 <= k < free.len() && free[k] == i;
                assert(nf[k - 1] == i);
            }
            assert forall|k: int| 0 <= k < nf.len() - 1 implies (#[trigger] self.slots@[nf[k] as int]).next_free
                == nf[k + 1] by {
                assert(nf[k] == free[k + 1]);
                assert(free[k + 1] != free[0]);
                assert(self.slots@[free[k + 1] as int] == old(self).slots@[free[k + 1] as int]);
            }
            if nf.len() > 0 {
                assert(free[free.len() - 1] != free[0]);
            }
            assert(self@ =~= old(self)@.insert(idx, value));
        }
        Some(idx)
    }

    /// Releases the live slot `idx`.
    pub fn dealloc(&mut self, idx: u32)
        requires
            old(self).wf(),
            old(self)@.contains_key(idx),
        ensures
            final(self).wf(),
            final(self).spec_capacity() == old(self).spec_capacity(),
            final(self)@ == old(self)@.remove(idx),
            final(self).next_slot() == idx,
    {
        proof {
            self.lemma_view_facts();
        }
        let ghost free = self.free@;
        let head = self.free_head;
        self.slots.set(idx as usize, ArenaSlot { data: None, next_free: head });
        self.free_head = idx;
        self.len = self.len - 1;
        self.free = Ghost(seq![idx] + free);
        proof {
            let nf = self.free@;
            assert(!free.contains(idx));
            assert forall|a: int, b: int| 0 <= a < nf.len() && 0 <= b < nf.len() && a != b implies nf[a]
                != nf[b] by {
                if a > 0 && b > 0 {
                    assert(nf[a] == free[a - 1]);
                    assert(nf[b] == free[b - 1]);
                } else if a == 0 {
                    assert(nf[b] == free[b - 1]);
                } else {
                    assert(nf[a] == free[a - 1]);
                }
            }
            assert forall|k: int| 0 <= k < nf.len() implies (nf[k] as int) < self.slots@.len()
                && (#[trigger] self.slots@[nf[k] as int]).data is None by {
                if k > 0 {
                    assert(nf[k] == free[k - 1]);
                    assert(old(self).slots@[free[k - 1] as int].data is None);
                }
            }
            assert forall|i: u32|
                (i as int) < self.slots@.len() && (#[trigger] self.slots@[i as int]).data is None
                    implies nf.contains(i) by {
                if i != idx {
                    assert(old(self).slots@[i as int].data is None);
                    assert(free.contains(i));
                    let k = choose|k: int| 0 <= k < free.len() && free[k] == i;
                    assert(nf[k + 1] == i);
                } else {
                    assert(nf[0] == i);
                }
            }
            assert forall|k: int| 0 <= k < nf.len() - 1 implies (#[trigger] self.slots@[nf[k] as int]).next_free
                == nf[k + 1] by {
                if k > 0 {
                    assert(nf[k] == free[k - 1]);
                    assert(free[k - 1] != idx);
                }
            }
            if free.len() > 0 {
                assert(free.last() != idx);
                assert(nf.last() == free.last());
            }
            assert(self@ =~= old(self)@.remove(idx));
        }
    }

    /// The value in the live slot `idx`.
    pub fn get(&self, idx: u32) -> (r: &T)
        requires
            self.wf(),
            self@.contains_key(idx),
        ensures
            *r == self@[idx],
    {
        self.slots[idx as usize].data.as_ref().unwrap()
    }

    /// Replaces the value in the live slot `idx`.
    pub fn set(&mut self, idx: u32, value: T)
        requires
            old(self).wf(),
            old(self)@.contains_key(idx),
        ensures
            final(self).wf(),
            final(self).spec_capacity() == old(self).spec_capacity(),
            final(self).next_slot() == old(self).next_slot(),
            final(self)@ == old(self)@.insert(idx, value),
    {
        let next_free = self.slots[idx as usize].next_free;
        self.slots.set(idx as usize, ArenaSlot { data: Some(value), next_free });
        proof {
            let free = self.free@;
            assert forall|k: int| 0 <= k < free.len() implies (free[k] as int) < self.slots@.len()
                && (#[trigger] self.slots@[free[k] as int]).data is None by {
                assert(old(self).slots@[free[k] as int].data is None);
            }
            assert forall|k: int| 0 <= k < free.len() - 1 implies (#[trigger] self.slots@[free[k] as int]).next_free
                == free[k + 1] by {
                assert(old(self).slots@[free[k] as int].data is None);
            }
            if free.len() > 0 {
                assert(old(self).slots@[free.last() as int].data is None);
            }
            assert(self@ =~= old(self)@.insert(idx, value));
        }
    }

    /// The number of live slots.
    pub fn len(&self) -> (r: u32)
        requires
            self.wf(),
        ensures
            r as nat == self@.dom().len(),
    {
        proof {
            self.lemma_view_facts();
        }
        self.len
    }

    /// Whether an allocation would succeed.
    pub fn has_free_slot(&self) -> (r: bool)
        requires
            self.wf(),
        ensures
            r == !self.is_full(),
    {
        proof {
            self.lemma_wf();
        }
        self.free_head != NIL
    }

    pub fn is_empty(&self) -> (r: bool)
        requires
            self.wf(),
        ensures
            r == (self@.dom().len() == 0),
    {
        proof {
            self.lemma_view_facts();
        }
        self.len == 0
    }

    /// The arena is full exactly when it holds as many live values as it has slots.
    pub proof fn lemma_full_len(&self)
        requires
            self.wf(),
        ensures
            self@.dom().finite(),
            self@.dom().len() <= self.spec_capacity(),
            self.is_full() <==> self@.dom().len() == self.spec_capacity(),
    {
        self.lemma_view_facts();
        let cap = self.spec_capacity();
        let dom = self@.dom();
        lemma_index_range(cap);
        assert(dom.subset_of(index_range(cap)));
        vstd::set_lib::lemma_len_subset(dom, index_range(cap));
        if self.is_full() {
            assert(dom =~= index_range(cap));
        } else {
            let i = choose|i: u32| (i as nat) < cap && !self@.contains_key(i);
            assert(dom.subset_of(index_range(cap).remove(i)));
            vstd::set_lib::lemma_len_subset(dom, index_range(cap).remove(i));
        }
    }

    pub proof fn lemma_wf(&self)
        requires
            self.wf(),
        ensures
            forall|i: u32| #[trigger] self@.contains_key(i) ==> (i as nat) < self.spec_capacity(),
            self.spec_capacity() <= NIL,
            !self@.contains_key(NIL),
            (self.next_slot() == NIL) == self.is_full(),
            self.next_slot() != NIL ==> !self@.contains_key(self.next_slot()),
            self@.dom().finite(),
    {
        self.lemma_view_facts();
    }
}

impl<T: Copy> Arena<T> {
    /// A copy of the arena, slot for slot.
    pub(crate) fn duplicate(&self) -> (r: Self)
        requires
            self.wf(),
        ensures
            r.wf(),
            r@ == self@,
            r.spec_capacity() == self.spec_capacity(),
            r.next_slot() == self.next_slot(),
    {
        let mut slots: Vec<ArenaSlot<T>> = Vec::new();
        let mut i: usize = 0;
        while i < self.slots.len()
            invariant
                i <= self.slots@.len(),
                slots@ == self.slots@.take(i as int),
            decreases self.slots@.len() - i,
        {
            let s = &self.slots[i];
            slots.push(ArenaSlot { data: s.data, next_free: s.next_free });
            i += 1;
            proof {
                assert(slots@ =~= self.slots@.take(i as int));
            }
        }
        proof {
            assert(slots@ =~= self.slots@);
        }
        let r = Arena { slots, free_head: self.free_head, len: self.len, free: Ghost(self.free@) };
        proof {
            assert(r@ =~= self@);
        }
        r
    }
}

} // verus!
