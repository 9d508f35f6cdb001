//! Fixed-capacity ring buffers that keep the most recent items of a trail,
//! oldest first.

use vstd::prelude::*;

verus! {

/// A ring buffer holding at most `capacity` items; pushing onto a full
/// buffer drops the oldest item.
pub struct RingBuffer<T> {
    items: Vec<T>,
    head: usize,
    count: usize,
}

impl<T: Copy> RingBuffer<T> {
    /// The buffer's internal invariant: the write position inside the slot
    /// vector (at its start when there are no slots), and (while not full)
    /// the items stored from the first slot on.
    pub closed spec fn wf(&self) -> bool {
        &&& self.head < self.items@.len() || (self.items@.len() == 0 && self.head == 0)
        &&& self.count <= self.items@.len()
        &&& self.count < self.items@.len() ==> self.head == self.count
    }

    /// The buffer's capacity.
    pub closed spec fn capacity_spec(&self) -> nat {
        self.items@.len()
    }

    /// The stored items, oldest first.
    pub closed spec fn contents(&self) -> Seq<T> {
        Seq::new(
            self.count as nat,
            |i: int|
                if self.count == self.items@.len() {
                    self.items@[(self.head + i) % (self.items@.len() as int)]
                } else {
                    self.items@[i]
                },
        )
    }

    /// An empty buffer for `capacity` items, its slots filled with `fill`.
    pub fn new(capacity: usize, fill: T) -> (b: Self)
        ensures
            b.wf(),
            b.capacity_spec() == capacity,
            b.contents() == Seq::<T>::empty(),
    {
        let mut items: Vec<T> = Vec::new();
        let mut i: usize = 0;
        while i < capacity
            invariant
                i <= capacity,
                items@.len() == i,
            decreases capacity - i,
        {
            items.push(fill);
            i += 1;
        }
        let b = RingBuffer { items, head: 0, count: 0 };
        proof {
            assert(b.contents() =~= Seq::<T>::empty());
        }
        b
    }

    /// The number of stored items.
    pub fn len(&self) -> (n: usize)
        ensures
            n == self.contents().len(),
    {
        self.count
    }

    /// The capacity.
    pub fn capacity(&self) -> (n: usize)
        requires
            self.wf(),
        ensures
            n == self.capacity_spec(),
    {
        self.items.len()
    }

    /// Appends `v` as the newest item, dropping the oldest when full. A
    /// buffer without capacity has no slot to write to.
    pub fn push(&mut self, v: T)
        requires
            old(self).wf(),
            old(self).capacity_spec() > 0,
        ensures
            final(self).wf(),
            final(self).capacity_spec() == old(self).capacity_spec(),
            final(self).contents() == if old(self).contents().len() < old(self).capacity_spec() {
                old(self).contents().push(v)
            } else {
                old(self).contents().drop_first().push(v)
            },
    {
        let ghost before = self.contents();
        let cap = self.items.len();
        let h = self.head;
        self.items.set(h, v);
        let nh = (h + 1) % cap;
        if self.count < cap {
            self.head = nh;
            self.count = self.count + 1;
            proof {
                if h + 1 < cap {
                    vstd::arithmetic::div_mod::lemma_small_mod((h + 1) as nat, cap as nat);
                } else {
                    vstd::arithmetic::div_mod::lemma_mod_self_0(cap as int);
                    assert forall|i: int| 0 <= i < cap implies #[trigger] (i % (cap as int)) == i by {
                        vstd::arithmetic::div_mod::lemma_small_mod(i as nat, cap as nat);
                    }
                }
                assert(self.contents() =~= before.push(v));
            }
        } else {
            self.head = nh;
            proof {
                let n = cap as int;
                if h + 1 < cap {
                    vstd::arithmetic::div_mod::lemma_small_mod((h + 1) as nat, cap as nat);
                } else {
                    vstd::arithmetic::div_mod::lemma_mod_self_0(n);
                }
                assert forall|i: int| 0 <= i < n implies #[trigger] self.contents()[i] == before.drop_first().push(v)[i] by {
                    vstd::arithmetic::div_mod::lemma_small_mod(i as nat, cap as nat);
                    vstd::arithmetic::div_mod::lemma_small_mod(h as nat, cap as nat);
                    if i < n - 1 {
                        if h + 1 < cap {
                            assert(nh + i == h + i + 1);
                        } else {
                            vstd::arithmetic::div_mod::lemma_mod_add_multiples_vanish(i, n);
                            assert(h + i + 1 == n + i);
                        }
                        assert((nh + i) % n == (h + i + 1) % n);
                        if h + i + 1 < n {
                            vstd::arithmetic::div_mod::lemma_small_mod((h + i + 1) as nat, cap as nat);
                        } else {
                            vstd::arithmetic::div_mod::lemma_mod_sub_multiples_vanish(h + i + 1, n);
                            vstd::arithmetic::div_mod::lemma_small_mod((h + i + 1 - n) as nat, cap as nat);
                        }
                        assert((h + i + 1) % n != h);
                    } else {
                        if h + 1 < cap {
                            assert(nh + i == h + n);
                            vstd::arithmetic::div_mod::lemma_mod_add_multiples_vanish(h as int, n);
                        } else {
                            assert(nh + i == n - 1);
                            vstd::arithmetic::div_mod::lemma_small_mod((n - 1) as nat, cap as nat);
                        }
                        assert((nh + i) % n == h);
                    }
                }
                assert(self.contents() =~= before.drop_first().push(v));
            }
        }
    }

    /// Removes every item.
    pub fn clear(&mut self)
        requires
            old(self).wf(),
        ensures
            final(self).wf(),
            final(self).capacity_spec() == old(self).capacity_spec(),
            final(self).contents() == Seq::<T>::empty(),
    {
        self.count = 0;
        self.head = 0;
        proof {
            assert(self.contents() =~= Seq::<T>::empty());
        }
    }

    /// The stored items, oldest first.
    pub fn ordered(&self) -> (v: Vec<T>)
        requires
            self.wf(),
        ensures
            v@ == self.contents(),
    {
        let cap = self.items.len();
        let mut v: Vec<T> = Vec::new();
        let mut i: usize = 0;
        while i < self.count
            invariant
                i <= self.count,
                cap == self.items@.len(),
                self.count <= cap,
                cap > 0 ==> self.head < cap,
                v@ == self.contents().take(i as int),
            decreases self.count - i,
        {
            let idx = if self.count == cap {
                let room = cap - self.head;
                if i < room {
                    self.head + i
                } else {
                    i - room
                }
            } else {
                i
            };
            proof {
                if self.count == cap {
                    let n = cap as int;
                    if i < cap - self.head {
                        vstd::arithmetic::div_mod::lemma_small_mod((self.head + i) as nat, cap as nat);
                    } else {
                        vstd::arithmetic::div_mod::lemma_mod_sub_multiples_vanish(self.head + i, n);
                        vstd::arithmetic::div_mod::lemma_small_mod((self.head + i - n) as nat, cap as nat);
                    }
                }
            }
            v.push(self.items[idx]);
            i += 1;
            proof {
                assert(v@ =~= self.contents().take(i as int));
            }
        }
        proof {
            assert(self.contents().take(self.count as int) =~= self.contents());
        }
        v
    }
}

} // verus!
