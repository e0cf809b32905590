//! A fixed-capacity arena of nodes addressed by `u32` index.
//!
//! Every slot holds four `u32` registers (links to other slots) and a value.
//! Slot `0` is the sentinel: it is never handed out, reads of its registers
//! give `0`, and writes to it are ignored. Freed slots are reused last-freed
//! first; fresh slots are taken in increasing index order.
use vstd::prelude::*;

verus! {

/// The index that stands for "no node".
pub const SENTINEL: u32 = 0;

/// The number of registers of a slot.
pub const NUM_REGISTERS: u32 = 4;

/// The registers of one arena slot.
#[derive(Clone, Copy)]
pub struct Registers {
    r0: u32,
    r1: u32,
    r2: u32,
    r3: u32,
}

impl Registers {
    /// Register `r` of the slot (`0` for an index past the last register).
    pub closed spec fn register(self, r: u32) -> u32 {
        if r == 0 {
            self.r0
        } else if r == 1 {
            self.r1
        } else if r == 2 {
            self.r2
        } else if r == 3 {
            self.r3
        } else {
            0
        }
    }

    pub closed spec fn is_cleared(self) -> bool {
        self.r0 == 0 && self.r1 == 0 && self.r2 == 0 && self.r3 == 0
    }
}

/// An arena of `MAX_SIZE` slots, slot `0` being the sentinel.
#[derive(Clone)]
pub struct NodeAllocator<T, const MAX_SIZE: usize> {
    size: u64,
    bump_index: u32,
    free: Vec<u32>,
    nodes: Vec<Registers>,
    values: Vec<T>,
    live: Ghost<Set<u32>>,
}

impl<T, const MAX_SIZE: usize> NodeAllocator<T, MAX_SIZE> {
    /// The indices that are handed out and not yet given back.
    pub closed spec fn live(&self) -> Set<u32> {
        self.live@
    }

    /// Register `r` of slot `i`; `0` for the sentinel and for indices past the arena.
    pub closed spec fn reg(&self, i: u32, r: u32) -> u32 {
        if i == SENTINEL || i as int >= self.nodes@.len() {
            0
        } else {
            self.nodes@[i as int].register(r)
        }
    }

    /// The value held in slot `i`.
    pub closed spec fn value(&self, i: u32) -> T {
        self.values@[i as int]
    }

    /// The index that the next `add_node` hands out.
    pub closed spec fn next_index(&self) -> u32 {
        if self.free@.len() > 0 {
            self.free@.last()
        } else {
            self.bump_index
        }
    }

    /// `add_node` can hand out a slot without running past the arena.
    pub closed spec fn has_room(&self) -> bool {
        self.free@.len() > 0 || ((self.bump_index as int) < MAX_SIZE && self.bump_index < u32::MAX)
    }

    /// The number of live slots.
    pub closed spec fn spec_size(&self) -> nat {
        self.size as nat
    }

    /// The bookkeeping of the arena is consistent.
    pub closed spec fn inv(&self) -> bool {
        &&& self.nodes@.len() == MAX_SIZE
        &&& self.values@.len() == MAX_SIZE
        &&& 1 <= self.bump_index
        &&& (self.bump_index as int) <= MAX_SIZE || self.bump_index == 1
        &&& self.free@.no_duplicates()
        &&& forall|k: int|
            0 <= k < self.free@.len() ==> 1 <= #[trigger] self.free@[k] < self.bump_index
        &&& forall|i: u32|
            #[trigger] self.live@.contains(i) <==> (1 <= i < self.bump_index
                && !self.free@.contains(i))
        &&& self.live@.finite()
        &&& self.size as nat == self.live@.len()
    }

    /// Every slot that is not live has all its registers at `0`.
    pub closed spec fn clean(&self) -> bool {
        regs_clean(self.nodes@, self.live@)
    }

    /// The live set is finite, holds neither the sentinel nor an index past the arena,
    /// and has as many members as the size counts.
    pub proof fn lemma_live(&self)
        requires
            self.inv(),
        ensures
            self.live().finite(),
            !self.live().contains(SENTINEL),
            forall|i: u32| #[trigger] self.live().contains(i) ==> (i as int) < MAX_SIZE,
            self.spec_size() == self.live().len(),
            self.has_room() ==> !self.live().contains(self.next_index()),
            self.has_room() ==> self.next_index() != SENTINEL,
            self.has_room() ==> (self.next_index() as int) < MAX_SIZE,
            self.live().len() < u32::MAX,
            forall|q: u32| #[trigger] self.reg(SENTINEL, q) == 0,
            forall|i: u32, q: u32| q >= NUM_REGISTERS ==> #[trigger] self.reg(i, q) == 0,
            MAX_SIZE <= u32::MAX && self.live().len() + 1 < MAX_SIZE ==> self.has_room(),
            self.live().len() + 1 <= MAX_SIZE || self.live().len() == 0,
    {
        if self.free@.len() > 0 {
            let k = self.free@.len() - 1;
            assert(self.free@[k] == self.free@.last());
            assert(self.free@.contains(self.free@[k]));
        }
        let range = Set::new(|i: u32| 1 <= i < self.bump_index);
        lemma_range_len(self.bump_index);
        assert(self.live@.subset_of(range));
        vstd::set_lib::lemma_len_subset(self.live@, range);
        if self.free@.len() == 0 {
            // every index below the bump index is live
            assert(self.live@ =~= range);
        }
    }

    /// A slot that is not live has all its registers at `0`.
    pub proof fn lemma_clean(&self, i: u32)
        requires
            self.inv(),
            self.clean(),
            !self.live().contains(i),
        ensures
            forall|r: u32| #[trigger] self.reg(i, r) == 0,
    {
    }

    /// An empty arena of `MAX_SIZE` slots, each holding `default_value` and zero registers.
    pub fn new(default_value: T) -> (a: Self)
        where T: Copy,
        ensures
            a.inv(),
            a.clean(),
            a.live() == Set::<u32>::empty(),
            a.spec_size() == 0,
            a.next_index() == 1,
            forall|i: u32, r: u32| #[trigger] a.reg(i, r) == 0,
            forall|i: u32| (i as int) < MAX_SIZE ==> #[trigger] a.value(i) == default_value,
    {
        let mut nodes: Vec<Registers> = Vec::new();
        let mut values: Vec<T> = Vec::new();
        let mut k: usize = 0;
        while k < MAX_SIZE
            invariant
                k <= MAX_SIZE,
                nodes@.len() == k,
                values@.len() == k,
                forall|j: int| 0 <= j < k ==> (#[trigger] nodes@[j]).is_cleared(),
                forall|j: int| 0 <= j < k ==> #[trigger] values@[j] == default_value,
            decreases MAX_SIZE - k,
        {
            nodes.push(Registers { r0: 0, r1: 0, r2: 0, r3: 0 });
            values.push(default_value);
            k = k + 1;
        }
        let a = NodeAllocator {
            size: 0,
            bump_index: 1,
            free: Vec::new(),
            nodes,
            values,
            live: Ghost(Set::empty()),
        };
        assert forall|i: u32, r: u32| #[trigger] a.reg(i, r) == 0 by {
            if i != SENTINEL && (i as int) < a.nodes@.len() {
                assert(a.nodes@[i as int].is_cleared());
            }
        }
        a
    }

    /// The number of live slots.
    pub fn size(&self) -> (s: u64)
        requires
            self.inv(),
        ensures
            s == self.spec_size(),
    {
        self.size
    }

    /// Reads register `r` of slot `i`.
    pub fn get_register(&self, i: u32, r: u32) -> (v: u32)
        requires
            self.inv(),
            i == SENTINEL || (i as int) < MAX_SIZE,
            r < NUM_REGISTERS,
        ensures
            v == self.reg(i, r),
    {
        if i == SENTINEL {
            return SENTINEL;
        }
        let node = &self.nodes[i as usize];
        if r == 0 {
            node.r0
        } else if r == 1 {
            node.r1
        } else if r == 2 {
            node.r2
        } else {
            node.r3
        }
    }

    /// Writes `v` into register `r` of slot `i`; a write to the sentinel changes nothing.
    pub fn set_register(&mut self, i: u32, v: u32, r: u32)
        requires
            old(self).inv(),
            i == SENTINEL || (i as int) < MAX_SIZE,
            r < NUM_REGISTERS,
        ensures
            i == SENTINEL ==> *final(self) == *old(self),
            final(self).inv(),
            final(self).live() == old(self).live(),
            final(self).spec_size() == old(self).spec_size(),
            final(self).next_index() == old(self).next_index(),
            final(self).has_room() == old(self).has_room(),
            forall|j: u32, q: u32|
                #[trigger] final(self).reg(j, q) == if j == i && q == r && i != SENTINEL {
                    v
                } else {
                    old(self).reg(j, q)
                },
            forall|j: u32| (j as int) < MAX_SIZE ==> #[trigger] final(self).value(j) == old(self).value(j),
            old(self).clean() && (i == SENTINEL || old(self).live().contains(i) || v == 0)
                ==> final(self).clean(),
    {
        if i == SENTINEL {
            return;
        }
        let iu = i as usize;
        if r == 0 {
            self.nodes[iu].r0 = v;
        } else if r == 1 {
            self.nodes[iu].r1 = v;
        } else if r == 2 {
            self.nodes[iu].r2 = v;
        } else {
            self.nodes[iu].r3 = v;
        }
        proof {
            if old(self).clean() && (old(self).live().contains(i) || v == 0) {
                assert forall|j: u32, q: u32|
                    j != SENTINEL && (j as int) < self.nodes@.len() && #[trigger] self.nodes@[j as int].register(q) != 0
                        implies self.live@.contains(j) by {
                    if j != i {
                        assert(self.nodes@[j as int] == old(self).nodes@[j as int]);
                    }
                    assert(old(self).reg(j, q) != 0 || (j == i && q == r));
                }
            }
        }
        proof {
            assert forall|j: u32| (j as int) < MAX_SIZE implies #[trigger] self.value(j) == old(self).value(j) by {
                if j != i {
                    assert(self.nodes@[j as int] == old(self).nodes@[j as int]);
                    assert(self.values@[j as int] == old(self).values@[j as int]);
                }
            }
            assert forall|j: u32, q: u32|
                #[trigger] self.reg(j, q) == if j == i && q == r && i != SENTINEL {
                    v
                } else {
                    old(self).reg(j, q)
                } by {
                if j != SENTINEL && (j as int) < MAX_SIZE && j != i {
                    assert(self.nodes@[j as int] == old(self).nodes@[j as int]);
                    assert(self.values@[j as int] == old(self).values@[j as int]);
                }
            }
        }
    }

    /// Sets register `r` of slot `i` back to the sentinel.
    pub fn clear_register(&mut self, i: u32, r: u32)
        requires
            old(self).inv(),
            i == SENTINEL || (i as int) < MAX_SIZE,
            r < NUM_REGISTERS,
        ensures
            final(self).inv(),
            final(self).live() == old(self).live(),
            final(self).spec_size() == old(self).spec_size(),
            final(self).next_index() == old(self).next_index(),
            final(self).has_room() == old(self).has_room(),
            forall|j: u32, q: u32|
                #[trigger] final(self).reg(j, q) == if j == i && q == r {
                    0
                } else {
                    old(self).reg(j, q)
                },
            forall|j: u32| (j as int) < MAX_SIZE ==> #[trigger] final(self).value(j) == old(self).value(j),
            old(self).clean() ==> final(self).clean(),
    {
        self.set_register(i, SENTINEL, r);
    }

    /// Links `parent` to `child` through register `dir` of `parent`, and `child`
    /// back to `parent` through register `parent_register` of `child`.
    pub fn connect(&mut self, parent: u32, child: u32, dir: u32, parent_register: u32)
        requires
            old(self).inv(),
            parent == SENTINEL || (parent as int) < MAX_SIZE,
            child == SENTINEL || (child as int) < MAX_SIZE,
            dir < NUM_REGISTERS,
            parent_register < NUM_REGISTERS,
        ensures
            final(self).inv(),
            final(self).live() == old(self).live(),
            final(self).spec_size() == old(self).spec_size(),
            final(self).next_index() == old(self).next_index(),
            final(self).has_room() == old(self).has_room(),
            forall|j: u32, q: u32|
                #[trigger] final(self).reg(j, q) == if j == child && q == parent_register && child
                    != SENTINEL {
                    parent
                } else if j == parent && q == dir && parent != SENTINEL {
                    child
                } else {
                    old(self).reg(j, q)
                },
            forall|j: u32| (j as int) < MAX_SIZE ==> #[trigger] final(self).value(j) == old(self).value(j),
            old(self).clean() && (parent == SENTINEL || old(self).live().contains(parent)) && (
            child == SENTINEL || old(self).live().contains(child)) ==> final(self).clean(),
    {
        self.set_register(parent, child, dir);
        self.set_register(child, parent, parent_register);
    }

    /// The value held in slot `i`.
    pub fn get(&self, i: u32) -> (v: &T)
        requires
            self.inv(),
            (i as int) < MAX_SIZE,
        ensures
            *v == self.value(i),
    {
        &self.values[i as usize]
    }

    /// A mutable reference to the value held in slot `i`; whatever is written
    /// through it is what the slot holds afterwards.
    pub fn get_mut(&mut self, i: u32) -> (v: &mut T)
        requires
            old(self).inv(),
            (i as int) < MAX_SIZE,
        ensures
            *v == old(self).value(i),
            final(self).inv(),
            final(self).live() == old(self).live(),
            final(self).spec_size() == old(self).spec_size(),
            final(self).next_index() == old(self).next_index(),
            final(self).has_room() == old(self).has_room(),
            forall|j: u32, q: u32| #[trigger] final(self).reg(j, q) == old(self).reg(j, q),
            forall|j: u32|
                (j as int) < MAX_SIZE ==> #[trigger] final(self).value(j) == if j == i {
                    *final(v)
                } else {
                    old(self).value(j)
                },
            old(self).clean() ==> final(self).clean(),
    {
        &mut self.values[i as usize]
    }

    /// Replaces the value held in slot `i`.
    pub fn set_value(&mut self, i: u32, v: T)
        requires
            old(self).inv(),
            (i as int) < MAX_SIZE,
        ensures
            final(self).inv(),
            final(self).live() == old(self).live(),
            final(self).spec_size() == old(self).spec_size(),
            final(self).next_index() == old(self).next_index(),
            final(self).has_room() == old(self).has_room(),
            forall|j: u32, q: u32| #[trigger] final(self).reg(j, q) == old(self).reg(j, q),
            forall|j: u32|
                (j as int) < MAX_SIZE ==> #[trigger] final(self).value(j) == if j == i {
                    v
                } else {
                    old(self).value(j)
                },
            old(self).clean() ==> final(self).clean(),
    {
        self.values.set(i as usize, v);
        proof {
            assert forall|j: u32| (j as int) < MAX_SIZE implies #[trigger]
                self.value(j) == if j == i {
                    v
                } else {
                    old(self).value(j)
                } by {
                if j != i {
                    assert(self.nodes@[j as int] == old(self).nodes@[j as int]);
                    assert(self.values@[j as int] == old(self).values@[j as int]);
                }
            }
            assert forall|j: u32, q: u32| #[trigger] self.reg(j, q) == old(self).reg(j, q) by {
                if j != SENTINEL && (j as int) < MAX_SIZE && j != i {
                    assert(self.nodes@[j as int] == old(self).nodes@[j as int]);
                    assert(self.values@[j as int] == old(self).values@[j as int]);
                }
            }
        }
    }

    /// Hands out slot `next_index()`, with zero registers and holding `v`.
    pub fn add_node(&mut self, v: T) -> (i: u32)
        requires
            old(self).inv(),
            old(self).has_room(),
        ensures
            final(self).inv(),
            i == old(self).next_index(),
            i != SENTINEL,
            (i as int) < MAX_SIZE,
            !old(self).live().contains(i),
            final(self).live() == old(self).live().insert(i),
            final(self).spec_size() == old(self).spec_size() + 1,
            forall|j: u32, q: u32|
                #[trigger] final(self).reg(j, q) == if j == i {
                    0
                } else {
                    old(self).reg(j, q)
                },
            forall|j: u32|
                (j as int) < MAX_SIZE ==> #[trigger] final(self).value(j) == if j == i {
                    v
                } else {
                    old(self).value(j)
                },
            old(self).clean() ==> final(self).clean(),
    {
        proof {
            old(self).lemma_live();
        }
        let i: u32;
        if self.free.len() > 0 {
            let ghost free0 = self.free@;
            i = self.free.pop().unwrap();
            proof {
                assert(free0 =~= self.free@.push(i));
                assert forall|j: u32| self.free@.contains(j) <==> (free0.contains(j) && j != i) by {
                    if self.free@.contains(j) {
                        let k = choose|k: int| 0 <= k < self.free@.len() && self.free@[k] == j;
                        assert(free0[k] == j);
                        assert(free0[free0.len() - 1] == i);
                    }
                    if free0.contains(j) && j != i {
                        let k = choose|k: int| 0 <= k < free0.len() && free0[k] == j;
                        assert(k != free0.len() - 1);
                        assert(self.free@[k] == j);
                    }
                }
                assert forall|k: int| 0 <= k < self.free@.len() implies 1 <= #[trigger] self.free@[k]
                    < self.bump_index by {
                    assert(self.free@[k] == free0[k]);
                }
            }
        } else {
            i = self.bump_index;
            self.bump_index = self.bump_index + 1;
        }
        let iu = i as usize;
        self.nodes.set(iu, Registers { r0: 0, r1: 0, r2: 0, r3: 0 });
        self.values.set(iu, v);
        self.size = self.size + 1;
        self.live = Ghost(self.live@.insert(i));
        proof {
            assert forall|j: u32| (j as int) < MAX_SIZE implies #[trigger] self.value(j) == if j == i {
                v
            } else {
                old(self).value(j)
            } by {
                if j != i {
                    assert(self.nodes@[j as int] == old(self).nodes@[j as int]);
                    assert(self.values@[j as int] == old(self).values@[j as int]);
                }
            }
            assert forall|j: u32, q: u32| #[trigger] self.reg(j, q) == if j == i {
                0
            } else {
                old(self).reg(j, q)
            } by {
                if j != SENTINEL && (j as int) < MAX_SIZE && j != i {
                    assert(self.nodes@[j as int] == old(self).nodes@[j as int]);
                    assert(self.values@[j as int] == old(self).values@[j as int]);
                }
            }
        }
        i
    }

    /// Gives slot `i` back; it is the next one that `add_node` hands out.
    pub fn remove_node(&mut self, i: u32)
        requires
            old(self).inv(),
            old(self).live().contains(i),
        ensures
            final(self).inv(),
            final(self).live() == old(self).live().remove(i),
            final(self).spec_size() + 1 == old(self).spec_size(),
            final(self).next_index() == i,
            final(self).has_room(),
            forall|j: u32, q: u32| #[trigger] final(self).reg(j, q) == old(self).reg(j, q),
            forall|j: u32| (j as int) < MAX_SIZE ==> #[trigger] final(self).value(j) == old(self).value(j),
            old(self).clean() && (forall|q: u32| #[trigger] old(self).reg(i, q) == 0)
                ==> final(self).clean(),
    {
        proof {
            old(self).lemma_live();
        }
        let ghost free0 = self.free@;
        self.free.push(i);
        self.size = self.size - 1;
        self.live = Ghost(self.live@.remove(i));
        proof {
            assert(self.free@ == free0.push(i));
            assert forall|j: u32| self.free@.contains(j) <==> (free0.contains(j) || j == i) by {
                if self.free@.contains(j) {
                    let k = choose|k: int| 0 <= k < self.free@.len() && self.free@[k] == j;
                    if k < free0.len() {
                        assert(free0[k] == j);
                    }
                }
                if free0.contains(j) {
                    let k = choose|k: int| 0 <= k < free0.len() && free0[k] == j;
                    assert(self.free@[k] == j);
                }
                if j == i {
                    assert(self.free@[free0.len() as int] == i);
                }
            }
            assert forall|k: int| 0 <= k < self.free@.len() implies 1 <= #[trigger] self.free@[k]
                < self.bump_index by {
                if k < free0.len() {
                    assert(self.free@[k] == free0[k]);
                }
            }
            assert(self.free@.no_duplicates()) by {
                assert forall|a: int, b: int|
                    0 <= a < self.free@.len() && 0 <= b < self.free@.len() && a != b implies
                    self.free@[a] != self.free@[b] by {
                    if a < free0.len() && b < free0.len() {
                        assert(self.free@[a] == free0[a]);
                        assert(self.free@[b] == free0[b]);
                    } else if a < free0.len() {
                        assert(self.free@[a] == free0[a]);
                        assert(free0.contains(free0[a]));
                    } else {
                        assert(self.free@[b] == free0[b]);
                        assert(free0.contains(free0[b]));
                    }
                }
            }
            assert(self.free@.last() == i);
            if old(self).clean() && (forall|q: u32| #[trigger] old(self).reg(i, q) == 0) {
                assert forall|j: u32, r: u32|
                    j != SENTINEL && (j as int) < self.nodes@.len() && #[trigger] self.nodes@[j as int].register(r) != 0
                        implies self.live@.contains(j) by {
                    assert(old(self).reg(j, r) != 0);
                }
            }
        }
    }
}

/// Every register that is not `0` belongs to a live slot (the sentinel's are never read).
spec fn regs_clean(nodes: Seq<Registers>, live: Set<u32>) -> bool {
    forall|i: u32, r: u32|
        i != SENTINEL && (i as int) < nodes.len() && #[trigger] nodes[i as int].register(r) != 0
            ==> live.contains(i)
}

/// The indices `1 .. n` of `u32` are `n - 1` in number.
proof fn lemma_range_len(n: u32)
    requires
        n >= 1,
    ensures
        Set::new(|i: u32| 1 <= i < n).finite(),
        Set::new(|i: u32| 1 <= i < n).len() == n - 1,
    decreases n,
{
    let s = Set::new(|i: u32| 1 <= i < n);
    if n == 1 {
        assert(s =~= Set::empty());
    } else {
        let m = (n - 1) as u32;
        lemma_range_len(m);
        let t = Set::new(|i: u32| 1 <= i < m);
        assert(s =~= t.insert(m));
    }
}

} // verus!
