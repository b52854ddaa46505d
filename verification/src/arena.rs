//! A generation-tagged slot allocator over a growable, never-shrinking
//! backing store.
//!
//! Values are reached only through [`Index`] handles, each carrying the
//! generation stamped at insertion time. When a slot is freed and reused, the
//! new occupant receives a strictly greater generation, so an old handle can
//! never resolve to the new value: staleness is detected exactly, never
//! silently tolerated.
//!
//! Free slots form an intrusive singly-linked chain threaded through the
//! backing store; the ghost sequence [`Arena::free_order`] mirrors that chain
//! head-first and anchors the well-formedness invariant [`Arena::wf`].

use vstd::prelude::*;

use crate::err::ArenaOOM;

verus! {

/// A handle to one occupied arena slot: the slot's position in the backing
/// store and the generation it was stamped with when the value was inserted.
/// Two indices are equal only if both fields match.
#[derive(Clone, Copy, Debug, PartialEq, Eq, Structural)]
pub struct Index {
    /// Position of the slot in the backing store.
    pub idx: usize,
    /// Generation stamped at insertion; compared against the slot's stored
    /// generation on every access, so a reused slot rejects old handles.
    pub generation: u64,
}

/// One slot of the backing store: free (and linked into the free chain) or
/// occupied by a value stamped with the generation of its insertion.
#[derive(Debug, PartialEq)]
pub enum Entry<T> {
    Free {
        /// Position of the next free slot in the chain, if any.
        next_free: Option<usize>,
    },
    Occupied {
        value: T,
        /// Generation at the time this value was inserted.
        generation: u64,
    },
}

/// The allocator: a contiguous, append-only sequence of slots, a global
/// monotonically increasing generation counter, and the head of the free
/// chain.
pub struct Arena<T> {
    /// The backing store. Slots are never relocated, so indices stay valid
    /// across growth.
    pub items: Vec<Entry<T>>,
    /// Total slot count ever reserved; always equals `items.len()`.
    pub cap: usize,
    /// Generation for the next insertion. Strictly greater than the stored
    /// generation of every occupied slot.
    pub generation: u64,
    /// Position of the first free slot, if any.
    pub free_list_head: Option<usize>,
    /// Ghost mirror of the free chain, head first.
    pub free_order: Ghost<Seq<usize>>,
}

impl<T> Arena<T> {
    /// Number of free slots.
    pub open spec fn free_len(self) -> nat {
        self.free_order@.len()
    }

    /// The handle resolves: its slot exists, is occupied, and the stored
    /// generation matches.
    pub open spec fn valid(self, i: Index) -> bool {
        &&& (i.idx as int) < self.items@.len()
        &&& self.items@[i.idx as int] is Occupied
        &&& self.items@[i.idx as int]->generation == i.generation
    }

    /// The value a resolving handle reaches.
    pub open spec fn value_at(self, i: Index) -> T
        recommends
            self.valid(i),
    {
        self.items@[i.idx as int]->value
    }

    /// Link `k` of the free chain is in range, free, and points at link
    /// `k + 1` (or nowhere, at the chain's end).
    pub open spec fn free_chain_ok(self, k: int) -> bool {
        let fo = self.free_order@;
        &&& (fo[k] as int) < self.items@.len()
        &&& self.items@[fo[k] as int] matches Entry::Free { next_free } && next_free == (if k
            == fo.len() - 1 {
            None::<usize>
        } else {
            Some(fo[k + 1])
        })
    }

    /// Well-formedness: the capacity counter matches the store, the ghost
    /// free order mirrors the free chain exactly (every free slot is on it,
    /// every link is free and threaded in order), and every occupied slot's
    /// generation lies strictly below the global counter.
    pub open spec fn wf(self) -> bool {
        &&& self.cap == self.items@.len()
        &&& self.free_order@.no_duplicates()
        &&& (match self.free_list_head {
            None => self.free_order@.len() == 0,
            Some(h) => self.free_order@.len() > 0 && h == self.free_order@[0],
        })
        &&& forall|k: int| 0 <= k < self.free_order@.len() ==> #[trigger] self.free_chain_ok(k)
        &&& forall|j: int|
            0 <= j < self.items@.len() && (#[trigger] self.items@[j]) is Free
                ==> self.free_order@.contains(j as usize)
        &&& forall|j: int|
            0 <= j < self.items@.len() && (#[trigger] self.items@[j]) is Occupied
                ==> self.items@[j]->generation < self.generation
    }

    /// An empty arena: no slots, no free chain, generation zero.
    pub fn new() -> (r: Self)
        ensures
            r.wf(),
            r.cap == 0,
            r.generation == 0,
            r.items@.len() == 0,
            r.free_len() == 0,
            r.free_list_head is None,
    {
        Arena {
            items: Vec::new(),
            cap: 0,
            generation: 0,
            free_list_head: None,
            free_order: Ghost(Seq::empty()),
        }
    }

    /// An arena with `cap` slots reserved up front.
    pub fn new_with_cap(cap: usize) -> (r: Self)
        ensures
            r.wf(),
            r.cap == cap,
            r.generation == 0,
            r.free_len() == cap,
            forall|i: Index| !r.valid(i),
            forall|k: int| 0 <= k < cap ==> r.free_order@[k] == k,
            forall|j: int|
                0 <= j < cap ==> r.items@[j] == (if j == cap - 1 {
                    Entry::<T>::Free { next_free: None }
                } else {
                    Entry::<T>::Free { next_free: Some((j + 1) as usize) }
                }),
            r.free_list_head == (if cap == 0 {
                None::<usize>
            } else {
                Some(0usize)
            }),
    {
        let mut arena = Self::new();
        arena.reserve(cap);
        arena
    }

    /// Grows the backing store by exactly `cap` slots, linking them into the
    /// free chain as a single run whose tail points at whatever was the free
    /// head before; the run's head becomes the new free head. Existing
    /// entries are untouched, so all resolving handles keep resolving.
    pub fn reserve(&mut self, cap: usize)
        requires
            old(self).wf(),
            old(self).cap + cap <= usize::MAX,
        ensures
            final(self).wf(),
            final(self).cap == old(self).cap + cap,
            final(self).generation == old(self).generation,
            final(self).items@.len() == old(self).items@.len() + cap,
            forall|j: int| 0 <= j < old(self).items@.len() ==> final(self).items@[j] == old(
                self,
            ).items@[j],
            forall|j: int|
                old(self).items@.len() <= j < final(self).items@.len() ==> final(self).items@[j]
                    == (if j == final(self).items@.len() - 1 {
                    Entry::<T>::Free { next_free: old(self).free_list_head }
                } else {
                    Entry::<T>::Free { next_free: Some((j + 1) as usize) }
                }),
            forall|i: Index|
                old(self).valid(i) ==> final(self).valid(i) && final(self).value_at(i) == old(
                    self,
                ).value_at(i),
            forall|i: Index| final(self).valid(i) ==> old(self).valid(i),
            final(self).free_len() == old(self).free_len() + cap,
            forall|k: int|
                0 <= k < cap ==> final(self).free_order@[k] == old(self).items@.len() + k,
            forall|k: int|
                cap <= k < final(self).free_order@.len() ==> final(self).free_order@[k] == old(
                    self,
                ).free_order@[k - cap],
            final(self).free_list_head == (if cap == 0 {
                old(self).free_list_head
            } else {
                Some(old(self).items@.len() as usize)
            }),
    {
        let start = self.items.len();
        let end = start + cap;
        let mut i: usize = start;
        while i < end
            invariant
                start <= i <= end,
                end == start + cap,
                end <= usize::MAX,
                start == old(self).items@.len(),
                self.items@.len() == i,
                self.cap == old(self).cap,
                self.generation == old(self).generation,
                self.free_list_head == old(self).free_list_head,
                self.free_order@ == old(self).free_order@,
                forall|j: int| 0 <= j < start ==> self.items@[j] == old(self).items@[j],
                forall|j: int|
                    start <= j < i ==> self.items@[j] == (if j == end - 1 {
                        Entry::<T>::Free { next_free: old(self).free_list_head }
                    } else {
                        Entry::<T>::Free { next_free: Some((j + 1) as usize) }
                    }),
            decreases end - i,
        {
            let next: Option<usize> = if i == end - 1 {
                self.free_list_head
            } else {
                Some(i + 1)
            };
            self.items.push(Entry::Free { next_free: next });
            i = i + 1;
        }
        self.free_order = Ghost(
            Seq::new(cap as nat, |k: int| (start + k) as usize) + self.free_order@,
        );
        if cap > 0 {
            self.free_list_head = Some(start);
        }
        self.cap = self.cap + cap;
        proof {
            let fo = self.free_order@;
            let old_fo = old(self).free_order@;
            assert forall|k: int| 0 <= k < fo.len() implies #[trigger] self.free_chain_ok(k) by {
                if k >= cap {
                    assert(old(self).free_chain_ok(k - cap));
                }
            }
            assert forall|a: int, b: int| 0 <= a < b < fo.len() implies fo[a] != fo[b] by {
                if cap <= a {
                    assert(old(self).free_chain_ok(a - cap));
                    assert(old(self).free_chain_ok(b - cap));
                    if old_fo[a - cap] == old_fo[b - cap] {
                        assert(!old_fo.no_duplicates());
                    }
                } else if cap <= b {
                    assert(old(self).free_chain_ok(b - cap));
                }
            }
            assert(fo.no_duplicates());
            assert forall|j: int|
                0 <= j < self.items@.len() && (#[trigger] self.items@[j]) is Free implies fo
                .contains(j as usize) by {
                if j < start {
                    assert(old_fo.contains(j as usize));
                    let k = choose|k: int| 0 <= k < old_fo.len() && old_fo[k] == j as usize;
                    assert(fo[k + cap] == j as usize);
                } else {
                    assert(fo[j - start] == j as usize);
                }
            }
        }
    }

    /// Pops the head of the free chain, writes the value there stamped with
    /// the current generation, and bumps the counter. Returns the handle
    /// carrying the stamped generation. Fails exactly when no free slot is
    /// left or the generation counter is exhausted; the arena is then
    /// untouched.
    pub fn insert(&mut self, value: T) -> (r: Result<Index, ArenaOOM>)
        requires
            old(self).wf(),
        ensures
            final(self).wf(),
            final(self).cap == old(self).cap,
            final(self).items@.len() == old(self).items@.len(),
            match r {
                Ok(i) => {
                    &&& old(self).free_len() > 0
                    &&& old(self).generation < u64::MAX
                    &&& i.idx == old(self).free_order@[0]
                    &&& i.generation == old(self).generation
                    &&& final(self).generation == old(self).generation + 1
                    &&& final(self).free_order@ == old(self).free_order@.drop_first()
                    &&& final(self).free_len() == old(self).free_len() - 1
                    &&& final(self).items@ == old(self).items@.update(
                        i.idx as int,
                        Entry::Occupied { value, generation: i.generation },
                    )
                    &&& final(self).valid(i)
                    &&& final(self).value_at(i) == value
                    &&& !old(self).valid(i)
                    &&& forall|j: Index|
                        old(self).valid(j) ==> final(self).valid(j) && final(self).value_at(j)
                            == old(self).value_at(j)
                    &&& forall|j: Index| final(self).valid(j) && j != i ==> old(self).valid(j)
                },
                Err(e) => {
                    &&& e == (ArenaOOM {  })
                    &&& old(self).free_len() == 0 || old(self).generation == u64::MAX
                    &&& *final(self) == *old(self)
                },
            },
    {
        if self.generation == u64::MAX {
            return Err(ArenaOOM {  });
        }
        let head = match self.free_list_head {
            Some(h) => h,
            None => {
                return Err(ArenaOOM {  });
            },
        };
        proof {
            assert(self.free_chain_ok(0));
        }
        let next_free: Option<usize> = match &self.items[head] {
            Entry::Free { next_free } => *next_free,
            Entry::Occupied { .. } => {
                proof {
                    assert(false);
                }
                return Err(ArenaOOM {  });
            },
        };
        self.free_list_head = next_free;
        let gen = self.generation;
        let slot = &mut self.items[head];
        *slot = Entry::Occupied { value, generation: gen };
        self.generation = gen + 1;
        self.free_order = Ghost(self.free_order@.drop_first());
        proof {
            let fo = self.free_order@;
            let old_fo = old(self).free_order@;
            assert forall|k: int| 0 <= k < fo.len() implies #[trigger] self.free_chain_ok(k) by {
                assert(old(self).free_chain_ok(k + 1));
                if old_fo[k + 1] == old_fo[0] {
                    assert(!old_fo.no_duplicates());
                }
            }
            assert forall|j: int|
                0 <= j < self.items@.len() && (#[trigger] self.items@[j]) is Free implies fo
                .contains(j as usize) by {
                assert(old(self).items@[j] is Free);
                assert(old_fo.contains(j as usize));
                let k = choose|k: int| 0 <= k < old_fo.len() && old_fo[k] == j as usize;
                assert(k != 0);
                assert(fo[k - 1] == j as usize);
            }
        }
        Ok(Index { idx: head, generation: gen })
    }

    /// Frees the slot a resolving handle points at, pushes it onto the head
    /// of the free chain, and returns ownership of the value. A handle that
    /// does not resolve (stale generation or out-of-range slot) returns
    /// `None` and leaves the arena untouched. After a successful removal the
    /// very same handle no longer resolves.
    pub fn remove(&mut self, index: &Index) -> (r: Option<T>)
        requires
            old(self).wf(),
        ensures
            final(self).wf(),
            final(self).cap == old(self).cap,
            final(self).generation == old(self).generation,
            final(self).items@.len() == old(self).items@.len(),
            match r {
                Some(v) => {
                    &&& old(self).valid(*index)
                    &&& v == old(self).value_at(*index)
                    &&& final(self).items@ == old(self).items@.update(
                        index.idx as int,
                        Entry::Free { next_free: old(self).free_list_head },
                    )
                    &&& final(self).free_order@ == seq![index.idx] + old(self).free_order@
                    &&& final(self).free_len() == old(self).free_len() + 1
                    &&& !final(self).valid(*index)
                    &&& forall|j: Index|
                        final(self).valid(j) <==> old(self).valid(j) && j != *index
                    &&& forall|j: Index|
                        final(self).valid(j) ==> final(self).value_at(j) == old(self).value_at(j)
                },
                None => {
                    &&& !old(self).valid(*index)
                    &&& *final(self) == *old(self)
                },
            },
    {
        if index.idx >= self.items.len() {
            return None;
        }
        let gen_matches = match &self.items[index.idx] {
            Entry::Occupied { generation, .. } => *generation == index.generation,
            Entry::Free { .. } => false,
        };
        if !gen_matches {
            return None;
        }
        let mut entry = Entry::Free { next_free: self.free_list_head };
        let slot = &mut self.items[index.idx];
        core::mem::swap(slot, &mut entry);
        self.free_list_head = Some(index.idx);
        self.free_order = Ghost(seq![index.idx] + self.free_order@);
        proof {
            let fo = self.free_order@;
            let old_fo = old(self).free_order@;
            assert forall|k: int| 0 <= k < old_fo.len() implies old_fo[k] != index.idx by {
                assert(old(self).free_chain_ok(k));
            }
            assert forall|k: int| 0 <= k < fo.len() implies #[trigger] self.free_chain_ok(k) by {
                if k > 0 {
                    assert(old(self).free_chain_ok(k - 1));
                }
            }
            assert(fo.no_duplicates());
            assert forall|j: int|
                0 <= j < self.items@.len() && (#[trigger] self.items@[j]) is Free implies fo
                .contains(j as usize) by {
                if j != index.idx as int {
                    assert(old(self).items@[j] is Free);
                    assert(old_fo.contains(j as usize));
                    let k = choose|k: int| 0 <= k < old_fo.len() && old_fo[k] == j as usize;
                    assert(fo[k + 1] == j as usize);
                } else {
                    assert(fo[0] == j as usize);
                }
            }
        }
        match entry {
            Entry::Occupied { value, .. } => Some(value),
            Entry::Free { .. } => {
                proof {
                    assert(false);
                }
                None
            },
        }
    }

    /// Total slot count ever reserved: used plus free capacity,
    /// monotonically non-decreasing.
    pub fn cap(&self) -> (r: usize)
        ensures
            r == self.cap,
    {
        self.cap
    }

    /// Resolves the handle to a shared borrow of the stored value, or `None`
    /// when the slot is out of range, free, or stamped with a different
    /// generation.
    pub fn get(&self, index: &Index) -> (r: Option<&T>)
        ensures
            match r {
                Some(v) => self.valid(*index) && *v == self.value_at(*index),
                None => !self.valid(*index),
            },
    {
        if index.idx >= self.items.len() {
            return None;
        }
        match &self.items[index.idx] {
            Entry::Occupied { value, generation } => {
                if *generation == index.generation {
                    Some(value)
                } else {
                    None
                }
            },
            Entry::Free { .. } => None,
        }
    }

    /// Resolves the handle to a mutable borrow of the stored value, or
    /// `None` as [`Arena::get`] would. Writing through the borrow changes
    /// only that slot's value: the slot stays occupied under the same
    /// generation, and every other slot is untouched.
    pub fn get_mut(&mut self, index: &Index) -> (r: Option<&mut T>)
        requires
            old(self).wf(),
        ensures
            old(self).valid(*index) ==> (match r {
                Some(v) => {
                    &&& *v == old(self).value_at(*index)
                    &&& final(self).items@ == old(self).items@.update(
                        index.idx as int,
                        Entry::Occupied { value: *final(v), generation: index.generation },
                    )
                    &&& final(self).cap == old(self).cap
                    &&& final(self).generation == old(self).generation
                    &&& final(self).free_list_head == old(self).free_list_head
                    &&& final(self).free_order@ == old(self).free_order@
                    &&& final(self).valid(*index)
                    &&& final(self).value_at(*index) == *final(v)
                },
                None => false,
            }),
            !old(self).valid(*index) ==> r is None && *final(self) == *old(self),
    {
        if index.idx >= self.items.len() {
            return None;
        }
        let gen_matches = match &self.items[index.idx] {
            Entry::Occupied { generation, .. } => *generation == index.generation,
            Entry::Free { .. } => false,
        };
        if !gen_matches {
            return None;
        }
        match &mut self.items[index.idx] {
            Entry::Occupied { value, .. } => Some(value),
            Entry::Free { .. } => {
                proof {
                    assert(false);
                }
                None
            },
        }
    }

    /// Overwriting the value of one occupied slot, keeping its generation,
    /// preserves well-formedness: the free chain and the generation bound
    /// never look at stored values. Callers of [`Arena::get_mut`] apply this
    /// once the borrow they wrote through has resolved.
    pub proof fn lemma_wf_value_update(pre: Self, post: Self, idx: int, v: T)
        requires
            pre.wf(),
            0 <= idx < pre.items@.len(),
            pre.items@[idx] is Occupied,
            post.items@ == pre.items@.update(
                idx,
                Entry::Occupied { value: v, generation: pre.items@[idx]->generation },
            ),
            post.cap == pre.cap,
            post.generation == pre.generation,
            post.free_list_head == pre.free_list_head,
            post.free_order@ == pre.free_order@,
        ensures
            post.wf(),
    {
        assert forall|k: int|
            0 <= k < post.free_order@.len() implies #[trigger] post.free_chain_ok(k) by {
            assert(pre.free_chain_ok(k));
        }
    }

    /// Every resolving handle was stamped strictly below the current
    /// generation counter. Since [`Arena::insert`] hands out the counter's
    /// value at insertion time and then bumps it, a handle whose slot has
    /// been freed can never resolve again: any later occupant of the slot
    /// carries a generation the old handle has never seen.
    pub proof fn lemma_valid_index_generation(self, i: Index)
        requires
            self.wf(),
            self.valid(i),
        ensures
            i.generation < self.generation,
    {
    }
}

} // verus!
