//! A doubly-linked list whose nodes live inside an [`Arena`] and whose links
//! are arena indices instead of native references.
//!
//! The list supports push and pop at both ends, O(1) removal of an arbitrary
//! node given its index, promotion of a node to the head, and — when a
//! time-to-live is configured — bulk retirement of expired nodes from the
//! tail.
//!
//! The ghost sequence [`LinkedList::order`] lists the nodes head first and
//! anchors the well-formedness invariant [`LinkedList::wf`]: walking `next`
//! from the head visits exactly the nodes of `order`, every link resolves in
//! the arena, and every occupied arena slot is a node of the list.
//!
//! Time is a plain `u64` argument (milliseconds on the caller's clock); the
//! list never reads a clock of its own.

use vstd::prelude::*;

use crate::arena::{Arena, Entry, Index};
use crate::err::{ArenaOOM, ListError};

verus! {

/// One list node: the stored value, the expiry stamp (present exactly when
/// the list was configured with a time-to-live), and the neighbour links.
pub struct Node<T> {
    pub value: T,
    /// Instant at which the node becomes eligible for retirement; `None`
    /// when the list has no time-to-live.
    pub expire_time: Option<u64>,
    pub next: Option<Index>,
    pub prev: Option<Index>,
}

/// The list: an arena owning the nodes, the head and tail handles, the
/// length, and the optional time-to-live stamped on every pushed node.
pub struct LinkedList<T> {
    pub arena: Arena<Node<T>>,
    pub head: Option<Index>,
    pub tail: Option<Index>,
    pub len: usize,
    /// Time-to-live in the caller's clock units; `None` disables expiry.
    pub timeout: Option<u64>,
    /// Ghost mirror of the chain, head first.
    pub order: Ghost<Seq<Index>>,
}

/// The expiry stamp a node pushed at `now` receives under time-to-live
/// `ttl`: their sum, saturating at the largest representable instant.
pub open spec fn stamp_expire(now: u64, ttl: u64) -> u64 {
    if now + ttl > u64::MAX {
        u64::MAX
    } else {
        (now + ttl) as u64
    }
}

/// The stamp is expired at `now`: it is present and lies at or before `now`.
pub open spec fn is_expired(e: Option<u64>, now: u64) -> bool {
    e matches Some(t) && t <= now
}

/// How many nodes at the end of `es` are expired at `now`, stopping at the
/// first live one: the length of the maximal expired suffix.
pub open spec fn trailing_expired(es: Seq<Option<u64>>, now: u64) -> nat
    decreases es.len(),
{
    if es.len() == 0 {
        0
    } else if is_expired(es.last(), now) {
        1 + trailing_expired(es.drop_last(), now)
    } else {
        0
    }
}

/// A suffix of exactly `j` expired stamps, preceded by a live one (or the
/// start), pins `trailing_expired` to `j`.
pub proof fn lemma_trailing_expired_exact(es: Seq<Option<u64>>, now: u64, j: nat)
    requires
        j <= es.len(),
        forall|p: int| es.len() - j <= p < es.len() ==> is_expired(#[trigger] es[p], now),
        j == es.len() || !is_expired(es[es.len() - j - 1], now),
    ensures
        trailing_expired(es, now) == j,
    decreases j,
{
    if j == 0 {
        if es.len() > 0 {
            assert(!is_expired(es.last(), now));
        }
    } else {
        assert(is_expired(es.last(), now));
        lemma_trailing_expired_exact(es.drop_last(), now, (j - 1) as nat);
    }
}

impl<T> LinkedList<T> {
    /// The node at position `k` of the chain, head first.
    pub open spec fn node_at(self, k: int) -> Node<T> {
        self.arena.value_at(self.order@[k])
    }

    /// The expiry stamps in chain order.
    pub open spec fn expires(self) -> Seq<Option<u64>> {
        Seq::new(self.order@.len(), |k: int| self.node_at(k).expire_time)
    }

    /// The position of handle `i` in the chain.
    pub open spec fn pos_of(self, i: Index) -> int {
        choose|k: int| 0 <= k < self.order@.len() && self.order@[k] == i
    }

    /// Node `k` is threaded correctly: its handle resolves, its `prev` and
    /// `next` point at its chain neighbours (or nowhere at the ends), and it
    /// carries an expiry stamp exactly when the list has a time-to-live.
    pub open spec fn link_ok(self, k: int) -> bool {
        let ord = self.order@;
        &&& self.arena.valid(ord[k])
        &&& self.node_at(k).prev == (if k == 0 {
            None::<Index>
        } else {
            Some(ord[k - 1])
        })
        &&& self.node_at(k).next == (if k == ord.len() - 1 {
            None::<Index>
        } else {
            Some(ord[k + 1])
        })
        &&& (self.node_at(k).expire_time is Some <==> self.timeout is Some)
    }

    /// Well-formedness: the arena is well-formed, the length and the head
    /// and tail handles agree with the ghost chain, every node is threaded
    /// correctly, no two nodes share a slot, the chain and the free chain
    /// together exhaust the arena, and every occupied slot is a node of this
    /// chain.
    pub open spec fn wf(self) -> bool {
        &&& self.arena.wf()
        &&& self.len == self.order@.len()
        &&& self.len + self.arena.free_len() == self.arena.cap
        &&& self.head == (if self.order@.len() == 0 {
            None::<Index>
        } else {
            Some(self.order@[0])
        })
        &&& self.tail == (if self.order@.len() == 0 {
            None::<Index>
        } else {
            Some(self.order@.last())
        })
        &&& forall|k: int| 0 <= k < self.order@.len() ==> #[trigger] self.link_ok(k)
        &&& forall|a: int, b: int|
            0 <= a < b < self.order@.len() ==> (#[trigger] self.order@[a]).idx
                != (#[trigger] self.order@[b]).idx
        &&& forall|i: Index| #[trigger] self.arena.valid(i) ==> self.order@.contains(i)
    }

    /// The position of a contained handle is in range, unique, and holds the
    /// handle.
    pub proof fn lemma_pos_of(self, i: Index)
        requires
            self.wf(),
            self.order@.contains(i),
        ensures
            ({
                let k = self.pos_of(i);
                &&& 0 <= k < self.order@.len()
                &&& self.order@[k] == i
                &&& forall|j: int| 0 <= j < self.order@.len() && self.order@[j] == i ==> j == k
            }),
    {
        let w = choose|k: int| 0 <= k < self.order@.len() && self.order@[k] == i;
        assert(self.order@[w] == i);
        let k = self.pos_of(i);
        assert forall|j: int| 0 <= j < self.order@.len() && self.order@[j] == i implies j == k by {
            if j != k {
                assert(self.order@[j].idx == self.order@[k].idx);
            }
        }
    }

    /// A list never outgrows its arena: the length is at most the total
    /// capacity ever reserved.
    pub proof fn lemma_len_le_cap(self)
        requires
            self.wf(),
        ensures
            self.len <= self.arena.cap,
    {
    }

    /// An empty list without a time-to-live, over an empty arena.
    pub fn new() -> (r: Self)
        ensures
            r.wf(),
            r@ == Seq::<T>::empty(),
            r.len == 0,
            r.timeout is None,
            r.arena.cap == 0,
            r.arena.generation == 0,
            r.order@ == Seq::<Index>::empty(),
    {
        let r = LinkedList {
            arena: Arena::new(),
            head: None,
            tail: None,
            len: 0,
            timeout: None,
            order: Ghost(Seq::empty()),
        };
        proof {
            assert(r@ =~= Seq::<T>::empty());
        }
        r
    }

    /// An empty list with `cap` slots reserved and no time-to-live.
    pub fn new_with_cap(cap: usize) -> (r: Self)
        ensures
            r.wf(),
            r@ == Seq::<T>::empty(),
            r.len == 0,
            r.timeout is None,
            r.arena.cap == cap,
            r.arena.generation == 0,
            r.order@ == Seq::<Index>::empty(),
    {
        let mut list = LinkedList::new();
        list.reserve(cap);
        list
    }

    /// An empty list with `cap` slots reserved and expiry enabled: every
    /// pushed node will be stamped to expire `timeout` after its push.
    pub fn new_with_cap_timeout(cap: usize, timeout: u64) -> (r: Self)
        ensures
            r.wf(),
            r@ == Seq::<T>::empty(),
            r.len == 0,
            r.timeout == Some(timeout),
            r.arena.cap == cap,
            r.arena.generation == 0,
            r.order@ == Seq::<Index>::empty(),
    {
        let mut list = LinkedList::new();
        list.reserve(cap);
        list.timeout = Some(timeout);
        list
    }

    /// Reserves `cap` more slots in the arena; the chain is untouched.
    pub fn reserve(&mut self, cap: usize)
        requires
            old(self).wf(),
            old(self).arena.cap + cap <= usize::MAX,
        ensures
            final(self).wf(),
            final(self)@ == old(self)@,
            final(self).order@ == old(self).order@,
            final(self).expires() == old(self).expires(),
            final(self).len == old(self).len,
            final(self).head == old(self).head,
            final(self).tail == old(self).tail,
            final(self).timeout == old(self).timeout,
            final(self).arena.cap == old(self).arena.cap + cap,
            final(self).arena.generation == old(self).arena.generation,
            final(self).arena.free_len() == old(self).arena.free_len() + cap,
    {
        self.arena.reserve(cap);
        proof {
            assert forall|k: int| 0 <= k < self.order@.len() implies #[trigger] self.link_ok(
                k,
            ) by {
                assert(old(self).link_ok(k));
            }
            assert forall|i: Index| #[trigger] self.arena.valid(i) implies self.order@.contains(
                i,
            ) by {
                assert(old(self).arena.valid(i));
            }
            assert forall|k: int| 0 <= k < self.order@.len() implies self.node_at(k) == old(
                self,
            ).node_at(k) by {
                assert(old(self).link_ok(k));
                assert(old(self).arena.valid(old(self).order@[k]));
            }
            assert(self@ =~= old(self)@);
            assert(self.expires() =~= old(self).expires());
        }
    }

    /// Current node count.
    pub fn len(&self) -> (r: usize)
        ensures
            r == self.len,
    {
        self.len
    }

    /// The list holds no node.
    pub fn is_empty(&self) -> (r: bool)
        requires
            self.wf(),
        ensures
            r == (self.len == 0),
    {
        self.head.is_none()
    }

    /// Every arena slot is in use: the length equals the total capacity ever
    /// reserved.
    pub fn is_full(&self) -> (r: bool)
        ensures
            r == (self.len == self.arena.cap),
    {
        self.len == self.arena.cap()
    }

    /// Rewrites the `next` link of the node behind a resolving handle,
    /// leaving every other field and slot untouched.
    fn set_next(&mut self, i: Index, next: Option<Index>)
        requires
            old(self).arena.wf(),
            old(self).arena.valid(i),
        ensures
            final(self).arena.wf(),
            final(self).arena.cap == old(self).arena.cap,
            final(self).arena.generation == old(self).arena.generation,
            final(self).arena.free_list_head == old(self).arena.free_list_head,
            final(self).arena.free_order@ == old(self).arena.free_order@,
            final(self).arena.items@.len() == old(self).arena.items@.len(),
            final(self).head == old(self).head,
            final(self).tail == old(self).tail,
            final(self).len == old(self).len,
            final(self).timeout == old(self).timeout,
            final(self).order@ == old(self).order@,
            forall|j: Index| final(self).arena.valid(j) <==> old(self).arena.valid(j),
            forall|j: int|
                0 <= j < old(self).arena.items@.len() && j != i.idx
                    ==> final(self).arena.items@[j] == old(self).arena.items@[j],
            final(self).arena.value_at(i).next == next,
            final(self).arena.value_at(i).prev == old(self).arena.value_at(i).prev,
            final(self).arena.value_at(i).value == old(self).arena.value_at(i).value,
            final(self).arena.value_at(i).expire_time == old(self).arena.value_at(i).expire_time,
    {
        let node = match self.arena.get_mut(&i) {
            Some(n) => n,
            None => {
                proof {
                    assert(false);
                }
                return ;
            },
        };
        node.next = next;
        proof {
            Arena::<Node<T>>::lemma_wf_value_update(
                old(self).arena,
                self.arena,
                i.idx as int,
                self.arena.items@[i.idx as int]->value,
            );
        }
    }

    /// Rewrites the `prev` link of the node behind a resolving handle,
    /// leaving every other field and slot untouched.
    fn set_prev(&mut self, i: Index, prev: Option<Index>)
        requires
            old(self).arena.wf(),
            old(self).arena.valid(i),
        ensures
            final(self).arena.wf(),
            final(self).arena.cap == old(self).arena.cap,
            final(self).arena.generation == old(self).arena.generation,
            final(self).arena.free_list_head == old(self).arena.free_list_head,
            final(self).arena.free_order@ == old(self).arena.free_order@,
            final(self).arena.items@.len() == old(self).arena.items@.len(),
            final(self).head == old(self).head,
            final(self).tail == old(self).tail,
            final(self).len == old(self).len,
            final(self).timeout == old(self).timeout,
            final(self).order@ == old(self).order@,
            forall|j: Index| final(self).arena.valid(j) <==> old(self).arena.valid(j),
            forall|j: int|
                0 <= j < old(self).arena.items@.len() && j != i.idx
                    ==> final(self).arena.items@[j] == old(self).arena.items@[j],
            final(self).arena.value_at(i).prev == prev,
            final(self).arena.value_at(i).next == old(self).arena.value_at(i).next,
            final(self).arena.value_at(i).value == old(self).arena.value_at(i).value,
            final(self).arena.value_at(i).expire_time == old(self).arena.value_at(i).expire_time,
    {
        let node = match self.arena.get_mut(&i) {
            Some(n) => n,
            None => {
                proof {
                    assert(false);
                }
                return ;
            },
        };
        node.prev = prev;
        proof {
            Arena::<Node<T>>::lemma_wf_value_update(
                old(self).arena,
                self.arena,
                i.idx as int,
                self.arena.items@[i.idx as int]->value,
            );
        }
    }

    /// Allocates a node for `value` in the arena and splices it in as the
    /// new head; with a time-to-live configured, the node is stamped to
    /// expire at `now + ttl` (saturating). Returns the new node's handle,
    /// fresh: it differs from the handle of every node already in the chain.
    /// Fails with an out-of-memory error, leaving the list untouched,
    /// exactly when the arena has no free slot or no fresh generation left.
    #[verifier::rlimit(50)]
    pub fn push_front(&mut self, value: T, now: u64) -> (r: Result<Index, ListError>)
        requires
            old(self).wf(),
        ensures
            final(self).wf(),
            final(self).timeout == old(self).timeout,
            final(self).arena.cap == old(self).arena.cap,
            match r {
                Ok(i) => {
                    &&& old(self).arena.free_len() > 0
                    &&& old(self).arena.generation < u64::MAX
                    &&& final(self).order@ == seq![i] + old(self).order@
                    &&& final(self)@ == seq![value] + old(self)@
                    &&& final(self).expires() == seq![
                        match old(self).timeout {
                            Some(t) => Some(stamp_expire(now, t)),
                            None => None::<u64>,
                        },
                    ] + old(self).expires()
                    &&& final(self).len == old(self).len + 1
                    &&& final(self).head == Some(i)
                    &&& !old(self).order@.contains(i)
                    &&& i.generation == old(self).arena.generation
                    &&& final(self).arena.generation == old(self).arena.generation + 1
                    &&& final(self).arena.free_len() == old(self).arena.free_len() - 1
                },
                Err(e) => {
                    &&& e == ListError::ListOOM(ArenaOOM {  })
                    &&& old(self).arena.free_len() == 0 || old(self).arena.generation
                        == u64::MAX
                    &&& *final(self) == *old(self)
                },
            },
    {
        let expire_time: Option<u64> = match self.timeout {
            Some(t) => Some(expire_stamp(now, t)),
            None => None,
        };
        let node = Node { value, expire_time, next: self.head, prev: None };
        let cur = match self.arena.insert(node) {
            Ok(i) => i,
            Err(e) => {
                return Err(ListError::ListOOM(e));
            },
        };
        match self.head {
            Some(old_head) => {
                proof {
                    assert(old(self).link_ok(0));
                    assert(old(self).order@[0] == old_head);
                }
                self.set_prev(old_head, Some(cur));
            },
            None => {
                self.tail = Some(cur);
            },
        }
        self.head = Some(cur);
        self.len = self.len + 1;
        self.order = Ghost(seq![cur] + self.order@);
        proof {
            let ord = self.order@;
            let old_ord = old(self).order@;
            assert forall|k: int| 0 <= k < old_ord.len() implies old(self).link_ok(k)
                && (#[trigger] old_ord[k]).idx != cur.idx && old_ord[k] != cur by {
                assert(old(self).link_ok(k));
                assert(old(self).arena.valid(old_ord[k]));
            }
            assert forall|k: int| 0 <= k < ord.len() implies #[trigger] self.link_ok(k) by {
                if k > 0 {
                    assert(old(self).link_ok(k - 1));
                    assert(ord[k] == old_ord[k - 1]);
                }
            }
            assert forall|i2: Index| #[trigger] self.arena.valid(i2) implies self.order@.contains(
                i2,
            ) by {
                if i2 == cur {
                    assert(ord[0] == cur);
                } else {
                    assert(old(self).arena.valid(i2));
                    let k = choose|k: int| 0 <= k < old_ord.len() && old_ord[k] == i2;
                    assert(ord[k + 1] == i2);
                }
            }
            assert(self@ =~= seq![value] + old(self)@);
            assert(self.expires() =~= seq![
                match old(self).timeout {
                    Some(t) => Some(stamp_expire(now, t)),
                    None => None::<u64>,
                },
            ] + old(self).expires());
        }
        Ok(cur)
    }
    /// Splices out the node behind a resolving handle by rewriting the one
    /// or two neighbour links that change, and returns ownership of its
    /// value. Fails with an empty-list error when the list holds no node,
    /// and with a broken-link error when the handle is stale or invalid; the
    /// list is untouched in both cases.
    #[verifier::rlimit(100)]
    pub fn remove(&mut self, index: &Index) -> (r: Result<T, ListError>)
        requires
            old(self).wf(),
        ensures
            final(self).wf(),
            final(self).timeout == old(self).timeout,
            final(self).arena.cap == old(self).arena.cap,
            final(self).arena.generation == old(self).arena.generation,
            match r {
                Ok(v) => ({
                    let k = old(self).pos_of(*index);
                    &&& old(self).len > 0
                    &&& old(self).order@.contains(*index)
                    &&& 0 <= k < old(self).order@.len()
                    &&& old(self).order@[k] == *index
                    &&& v == old(self)@[k]
                    &&& final(self).order@ == old(self).order@.remove(k)
                    &&& final(self)@ == old(self)@.remove(k)
                    &&& final(self).expires() == old(self).expires().remove(k)
                    &&& final(self).len == old(self).len - 1
                    &&& final(self).arena.free_len() == old(self).arena.free_len() + 1
                }),
                Err(e) => {
                    &&& *final(self) == *old(self)
                    &&& old(self).len == 0 || !old(self).order@.contains(*index)
                    &&& e == (if old(self).len == 0 {
                        ListError::ListEmpty
                    } else {
                        ListError::LinkBroken
                    })
                },
            },
    {
        if self.len == 0 {
            return Err(ListError::ListEmpty);
        }
        let node = match self.arena.remove(index) {
            Some(n) => n,
            None => {
                proof {
                    if old(self).order@.contains(*index) {
                        old(self).lemma_pos_of(*index);
                        assert(old(self).link_ok(old(self).pos_of(*index)));
                    }
                }
                return Err(ListError::LinkBroken);
            },
        };
        proof {
            assert(old(self).arena.valid(*index));
            old(self).lemma_pos_of(*index);
        }
        let ghost k = old(self).pos_of(*index);
        proof {
            assert(old(self).link_ok(k));
            assert(node == old(self).node_at(k));
        }
        match (node.prev, node.next) {
            (Some(p), Some(nx)) => {
                proof {
                    assert(p == old(self).order@[k - 1]);
                    assert(nx == old(self).order@[k + 1]);
                    assert(old(self).link_ok(k - 1));
                    assert(old(self).link_ok(k + 1));
                }
                self.set_next(p, Some(nx));
                self.set_prev(nx, Some(p));
            },
            (None, Some(nx)) => {
                proof {
                    assert(k == 0);
                    assert(nx == old(self).order@[1]);
                    assert(old(self).link_ok(1));
                }
                self.set_prev(nx, None);
                self.head = Some(nx);
            },
            (Some(p), None) => {
                proof {
                    assert(k == old(self).order@.len() - 1);
                    assert(p == old(self).order@[k - 1]);
                    assert(old(self).link_ok(k - 1));
                }
                self.set_next(p, None);
                self.tail = Some(p);
            },
            (None, None) => {
                proof {
                    assert(k == 0 && old(self).order@.len() == 1);
                }
                self.head = None;
                self.tail = None;
            },
        }
        self.len = self.len - 1;
        self.order = Ghost(self.order@.remove(k));
        proof {
            let old_ord = old(self).order@;
            let n = old_ord.len() as int;
            old_ord.remove_ensures(k);
            let ord = self.order@;
            assert forall|j: int| 0 <= j < ord.len() implies #[trigger] self.link_ok(j)
                && self.node_at(j).value == old(self)@.remove(k)[j] && self.node_at(
                j,
            ).expire_time == old(self).expires().remove(k)[j] by {
                let sj: int = if j < k {
                    j
                } else {
                    j + 1
                };
                assert(ord[j] == old_ord[sj]);
                assert(old(self).link_ok(sj));
                if j > 0 {
                    let sjm: int = if j - 1 < k {
                        j - 1
                    } else {
                        j
                    };
                    assert(ord[j - 1] == old_ord[sjm]);
                    assert(old(self).link_ok(sjm));
                }
                if j < ord.len() - 1 {
                    let sjp: int = if j + 1 < k {
                        j + 1
                    } else {
                        j + 2
                    };
                    assert(ord[j + 1] == old_ord[sjp]);
                    assert(old(self).link_ok(sjp));
                }
            }
            assert forall|i2: Index| #[trigger] self.arena.valid(i2) implies ord.contains(i2) by {
                assert(old(self).arena.valid(i2));
                assert(old_ord.contains(i2));
                let kp = choose|q: int| 0 <= q < old_ord.len() && old_ord[q] == i2;
                assert(old_ord[kp] == i2);
                assert(i2 != *index);
                assert(kp != k);
                if kp < k {
                    assert(ord[kp] == i2);
                } else {
                    assert(ord[kp - 1] == i2);
                }
            }
            assert forall|j: int| 0 <= j < ord.len() implies #[trigger] self@[j] == old(
                self,
            )@.remove(k)[j] by {
                assert(self.link_ok(j));
            }
            assert forall|j: int| 0 <= j < ord.len() implies #[trigger] self.expires()[j] == old(
                self,
            ).expires().remove(k)[j] by {
                assert(self.link_ok(j));
            }
            assert(self@ =~= old(self)@.remove(k));
            assert(self.expires() =~= old(self).expires().remove(k));
        }
        Ok(node.value)
    }
    /// Allocates a node for `value` and splices it in as the new tail; with
    /// a time-to-live configured, the node is stamped like a front push.
    /// Returns the new node's fresh handle, or an out-of-memory error with
    /// the list untouched, exactly as [`LinkedList::push_front`].
    #[verifier::rlimit(50)]
    pub fn push_back(&mut self, value: T, now: u64) -> (r: Result<Index, ListError>)
        requires
            old(self).wf(),
        ensures
            final(self).wf(),
            final(self).timeout == old(self).timeout,
            final(self).arena.cap == old(self).arena.cap,
            match r {
                Ok(i) => {
                    &&& old(self).arena.free_len() > 0
                    &&& old(self).arena.generation < u64::MAX
                    &&& final(self).order@ == old(self).order@ + seq![i]
                    &&& final(self)@ == old(self)@ + seq![value]
                    &&& final(self).expires() == old(self).expires() + seq![
                        match old(self).timeout {
                            Some(t) => Some(stamp_expire(now, t)),
                            None => None::<u64>,
                        },
                    ]
                    &&& final(self).len == old(self).len + 1
                    &&& final(self).tail == Some(i)
                    &&& !old(self).order@.contains(i)
                    &&& i.generation == old(self).arena.generation
                    &&& final(self).arena.generation == old(self).arena.generation + 1
                    &&& final(self).arena.free_len() == old(self).arena.free_len() - 1
                },
                Err(e) => {
                    &&& e == ListError::ListOOM(ArenaOOM {  })
                    &&& old(self).arena.free_len() == 0 || old(self).arena.generation
                        == u64::MAX
                    &&& *final(self) == *old(self)
                },
            },
    {
        let expire_time: Option<u64> = match self.timeout {
            Some(t) => Some(expire_stamp(now, t)),
            None => None,
        };
        let node = Node { value, expire_time, next: None, prev: self.tail };
        let cur = match self.arena.insert(node) {
            Ok(i) => i,
            Err(e) => {
                return Err(ListError::ListOOM(e));
            },
        };
        match self.tail {
            Some(old_tail) => {
                proof {
                    assert(old(self).link_ok(old(self).order@.len() - 1));
                    assert(old(self).order@.last() == old_tail);
                }
                self.set_next(old_tail, Some(cur));
            },
            None => {
                self.head = Some(cur);
            },
        }
        self.tail = Some(cur);
        self.len = self.len + 1;
        self.order = Ghost(self.order@ + seq![cur]);
        proof {
            let ord = self.order@;
            let old_ord = old(self).order@;
            let n = old_ord.len() as int;
            assert forall|k: int|
                0 <= k < n implies old(self).link_ok(k) && (#[trigger] old_ord[k]).idx != cur.idx
                    && old_ord[k] != cur by {
                assert(old(self).link_ok(k));
                assert(old(self).arena.valid(old_ord[k]));
            }
            assert forall|k: int| 0 <= k < ord.len() implies #[trigger] self.link_ok(k) by {
                if k < n {
                    assert(old(self).link_ok(k));
                    assert(ord[k] == old_ord[k]);
                }
            }
            assert forall|i2: Index| #[trigger] self.arena.valid(i2) implies self.order@.contains(
                i2,
            ) by {
                if i2 == cur {
                    assert(ord[n] == cur);
                } else {
                    assert(old(self).arena.valid(i2));
                    let k = choose|k: int| 0 <= k < old_ord.len() && old_ord[k] == i2;
                    assert(ord[k] == i2);
                }
            }
            assert(self@ =~= old(self)@ + seq![value]);
            assert(self.expires() =~= old(self).expires() + seq![
                match old(self).timeout {
                    Some(t) => Some(stamp_expire(now, t)),
                    None => None::<u64>,
                },
            ]);
        }
        Ok(cur)
    }

    /// Removes the head node and returns its value, or an empty-list error
    /// when the list holds no node.
    pub fn pop_front(&mut self) -> (r: Result<T, ListError>)
        requires
            old(self).wf(),
        ensures
            final(self).wf(),
            final(self).timeout == old(self).timeout,
            final(self).arena.cap == old(self).arena.cap,
            final(self).arena.generation == old(self).arena.generation,
            match r {
                Ok(v) => {
                    &&& old(self).len > 0
                    &&& v == old(self)@[0]
                    &&& final(self).order@ == old(self).order@.drop_first()
                    &&& final(self)@ == old(self)@.drop_first()
                    &&& final(self).expires() == old(self).expires().drop_first()
                    &&& final(self).len == old(self).len - 1
                    &&& final(self).arena.free_len() == old(self).arena.free_len() + 1
                },
                Err(e) => {
                    &&& e == ListError::ListEmpty
                    &&& old(self).len == 0
                    &&& *final(self) == *old(self)
                },
            },
    {
        let h = match self.head {
            Some(h) => h,
            None => {
                return Err(ListError::ListEmpty);
            },
        };
        proof {
            assert(self.order@[0] == h);
            assert(self.order@.contains(h));
            self.lemma_pos_of(h);
            assert(self.pos_of(h) == 0);
        }
        let r = self.remove(&h);
        proof {
            assert(old(self)@.remove(0) =~= old(self)@.drop_first());
            assert(old(self).order@.remove(0) =~= old(self).order@.drop_first());
            assert(old(self).expires().remove(0) =~= old(self).expires().drop_first());
        }
        match r {
            Ok(v) => Ok(v),
            Err(e) => {
                proof {
                    assert(false);
                }
                Err(e)
            },
        }
    }

    /// Removes the tail node and returns its value, or an empty-list error
    /// when the list holds no node.
    pub fn pop_back(&mut self) -> (r: Result<T, ListError>)
        requires
            old(self).wf(),
        ensures
            final(self).wf(),
            final(self).timeout == old(self).timeout,
            final(self).arena.cap == old(self).arena.cap,
            final(self).arena.generation == old(self).arena.generation,
            match r {
                Ok(v) => {
                    &&& old(self).len > 0
                    &&& v == old(self)@.last()
                    &&& final(self).order@ == old(self).order@.drop_last()
                    &&& final(self)@ == old(self)@.drop_last()
                    &&& final(self).expires() == old(self).expires().drop_last()
                    &&& final(self).len == old(self).len - 1
                    &&& final(self).arena.free_len() == old(self).arena.free_len() + 1
                },
                Err(e) => {
                    &&& e == ListError::ListEmpty
                    &&& old(self).len == 0
                    &&& *final(self) == *old(self)
                },
            },
    {
        let t = match self.tail {
            Some(t) => t,
            None => {
                return Err(ListError::ListEmpty);
            },
        };
        let ghost n = self.order@.len() as int;
        proof {
            assert(self.order@[n - 1] == t);
            assert(self.order@.contains(t));
            self.lemma_pos_of(t);
            assert(self.pos_of(t) == n - 1);
        }
        let r = self.remove(&t);
        proof {
            assert(old(self)@.remove(n - 1) =~= old(self)@.drop_last());
            assert(old(self).order@.remove(n - 1) =~= old(self).order@.drop_last());
            assert(old(self).expires().remove(n - 1) =~= old(self).expires().drop_last());
        }
        match r {
            Ok(v) => Ok(v),
            Err(e) => {
                proof {
                    assert(false);
                }
                Err(e)
            },
        }
    }

    /// A shared borrow of the head node's value, or an empty-list error.
    pub fn peek_front(&self) -> (r: Result<&T, ListError>)
        requires
            self.wf(),
        ensures
            match r {
                Ok(v) => self.len > 0 && *v == self@[0],
                Err(e) => e == ListError::ListEmpty && self.len == 0,
            },
    {
        let h = match self.head {
            Some(h) => h,
            None => {
                return Err(ListError::ListEmpty);
            },
        };
        proof {
            assert(self.link_ok(0));
        }
        match self.arena.get(&h) {
            Some(n) => Ok(&n.value),
            None => {
                proof {
                    assert(false);
                }
                Err(ListError::LinkBroken)
            },
        }
    }

    /// A shared borrow of the tail node's value, or an empty-list error.
    pub fn peek_back(&self) -> (r: Result<&T, ListError>)
        requires
            self.wf(),
        ensures
            match r {
                Ok(v) => self.len > 0 && *v == self@.last(),
                Err(e) => e == ListError::ListEmpty && self.len == 0,
            },
    {
        let t = match self.tail {
            Some(t) => t,
            None => {
                return Err(ListError::ListEmpty);
            },
        };
        proof {
            assert(self.link_ok(self.order@.len() - 1));
        }
        match self.arena.get(&t) {
            Some(n) => Ok(&n.value),
            None => {
                proof {
                    assert(false);
                }
                Err(ListError::LinkBroken)
            },
        }
    }

    /// A shared borrow of the value behind a handle, or a broken-link error
    /// when the handle is stale or invalid.
    pub fn get(&self, index: &Index) -> (r: Result<&T, ListError>)
        requires
            self.wf(),
        ensures
            match r {
                Ok(v) => self.order@.contains(*index) && *v == self@[self.pos_of(*index)],
                Err(e) => e == ListError::LinkBroken && !self.order@.contains(*index),
            },
    {
        match self.arena.get(index) {
            Some(n) => {
                proof {
                    assert(self.arena.valid(*index));
                    self.lemma_pos_of(*index);
                    assert(self.link_ok(self.pos_of(*index)));
                }
                Ok(&n.value)
            },
            None => {
                proof {
                    if self.order@.contains(*index) {
                        self.lemma_pos_of(*index);
                        assert(self.link_ok(self.pos_of(*index)));
                    }
                }
                Err(ListError::LinkBroken)
            },
        }
    }

    /// A mutable borrow of the value behind a handle, or a broken-link
    /// error. Writing through the borrow changes only that node's value;
    /// the links, the stamp and every other node are untouched. Callers
    /// re-establish [`LinkedList::wf`] with
    /// [`LinkedList::lemma_wf_value_update`] once the borrow has resolved.
    pub fn get_mut(&mut self, index: &Index) -> (r: Result<&mut T, ListError>)
        requires
            old(self).wf(),
        ensures
            old(self).order@.contains(*index) ==> (match r {
                Ok(v) => ({
                    let k = old(self).pos_of(*index);
                    &&& *v == old(self)@[k]
                    &&& final(self).arena.items@ == old(self).arena.items@.update(
                        index.idx as int,
                        Entry::Occupied {
                            value: Node {
                                value: *final(v),
                                expire_time: old(self).node_at(k).expire_time,
                                next: old(self).node_at(k).next,
                                prev: old(self).node_at(k).prev,
                            },
                            generation: index.generation,
                        },
                    )
                    &&& final(self).arena.cap == old(self).arena.cap
                    &&& final(self).arena.generation == old(self).arena.generation
                    &&& final(self).arena.free_list_head == old(self).arena.free_list_head
                    &&& final(self).arena.free_order@ == old(self).arena.free_order@
                    &&& final(self).head == old(self).head
                    &&& final(self).tail == old(self).tail
                    &&& final(self).len == old(self).len
                    &&& final(self).timeout == old(self).timeout
                    &&& final(self).order@ == old(self).order@
                }),
                Err(_) => false,
            }),
            !old(self).order@.contains(*index) ==> (match r {
                Ok(_) => false,
                Err(e) => e == ListError::LinkBroken && *final(self) == *old(self),
            }),
    {
        proof {
            if old(self).order@.contains(*index) {
                old(self).lemma_pos_of(*index);
                assert(old(self).link_ok(old(self).pos_of(*index)));
            } else {
                if old(self).arena.valid(*index) {
                    assert(old(self).order@.contains(*index));
                }
            }
        }
        match self.arena.get_mut(index) {
            Some(n) => Ok(&mut n.value),
            None => Err(ListError::LinkBroken),
        }
    }

    /// Overwriting the value at position `k`, keeping the node's links and
    /// stamp and its slot's generation, preserves well-formedness and
    /// updates the view at `k` alone. This is the shape of state
    /// [`LinkedList::get_mut`] leaves behind.
    pub proof fn lemma_wf_value_update(pre: Self, post: Self, k: int, v: T)
        requires
            pre.wf(),
            0 <= k < pre.order@.len(),
            post.arena.items@ == pre.arena.items@.update(
                pre.order@[k].idx as int,
                Entry::Occupied {
                    value: Node {
                        value: v,
                        expire_time: pre.node_at(k).expire_time,
                        next: pre.node_at(k).next,
                        prev: pre.node_at(k).prev,
                    },
                    generation: pre.order@[k].generation,
                },
            ),
            post.arena.cap == pre.arena.cap,
            post.arena.generation == pre.arena.generation,
            post.arena.free_list_head == pre.arena.free_list_head,
            post.arena.free_order@ == pre.arena.free_order@,
            post.head == pre.head,
            post.tail == pre.tail,
            post.len == pre.len,
            post.timeout == pre.timeout,
            post.order@ == pre.order@,
        ensures
            post.wf(),
            post@ == pre@.update(k, v),
            post.expires() == pre.expires(),
    {
        assert(pre.link_ok(k));
        assert(pre.arena.valid(pre.order@[k]));
        Arena::<Node<T>>::lemma_wf_value_update(
            pre.arena,
            post.arena,
            pre.order@[k].idx as int,
            Node {
                value: v,
                expire_time: pre.node_at(k).expire_time,
                next: pre.node_at(k).next,
                prev: pre.node_at(k).prev,
            },
        );
        assert forall|j: int| 0 <= j < post.order@.len() implies #[trigger] post.link_ok(j) by {
            assert(pre.link_ok(j));
        }
        assert forall|i2: Index| #[trigger] post.arena.valid(i2) implies post.order@.contains(
            i2,
        ) by {
            assert(pre.arena.valid(i2));
        }
        assert forall|j: int| 0 <= j < post.order@.len() implies #[trigger] post@[j] == pre@.update(
            k,
            v,
        )[j] by {
            assert(post.link_ok(j));
            assert(pre.link_ok(j));
        }
        assert forall|j: int|
            0 <= j < post.order@.len() implies #[trigger] post.expires()[j] == pre.expires()[j] by {
            assert(post.link_ok(j));
            assert(pre.link_ok(j));
        }
        assert(post@ =~= pre@.update(k, v));
        assert(post.expires() =~= pre.expires());
    }

    /// Removes the node behind a resolving handle and re-pushes its value
    /// at the front, re-stamping its expiry. The supplied handle is
    /// invalidated; the returned handle is fresh and replaces it. Fails like
    /// [`LinkedList::remove`] on an empty list or a stale handle; should the
    /// arena's generations be exhausted, the value is lost with the node
    /// already removed, and the out-of-memory error says so.
    #[verifier::rlimit(50)]
    pub fn reposition_to_head(&mut self, index: &Index, now: u64) -> (r: Result<
        Index,
        ListError,
    >)
        requires
            old(self).wf(),
        ensures
            final(self).wf(),
            final(self).timeout == old(self).timeout,
            final(self).arena.cap == old(self).arena.cap,
            match r {
                Ok(i) => ({
                    let k = old(self).pos_of(*index);
                    &&& old(self).len > 0
                    &&& old(self).order@.contains(*index)
                    &&& old(self).order@[k] == *index
                    &&& old(self).arena.generation < u64::MAX
                    &&& final(self).order@ == seq![i] + old(self).order@.remove(k)
                    &&& final(self)@ == seq![old(self)@[k]] + old(self)@.remove(k)
                    &&& final(self).expires() == seq![
                        match old(self).timeout {
                            Some(t) => Some(stamp_expire(now, t)),
                            None => None::<u64>,
                        },
                    ] + old(self).expires().remove(k)
                    &&& final(self).len == old(self).len
                    &&& final(self).head == Some(i)
                    &&& final(self).arena.free_len() == old(self).arena.free_len()
                    &&& final(self).arena.generation == old(self).arena.generation + 1
                    &&& !old(self).order@.contains(i)
                    &&& i != *index
                }),
                Err(e) => match e {
                    ListError::ListEmpty => old(self).len == 0 && *final(self) == *old(self),
                    ListError::LinkBroken => old(self).len > 0 && !old(self).order@.contains(
                        *index,
                    ) && *final(self) == *old(self),
                    ListError::ListOOM(_) => ({
                        let k = old(self).pos_of(*index);
                        &&& e == ListError::ListOOM(ArenaOOM {  })
                        &&& old(self).arena.generation == u64::MAX
                        &&& old(self).order@.contains(*index)
                        &&& final(self).order@ == old(self).order@.remove(k)
                        &&& final(self)@ == old(self)@.remove(k)
                        &&& final(self).expires() == old(self).expires().remove(k)
                        &&& final(self).len == old(self).len - 1
                    }),
                },
            },
    {
        let value = match self.remove(index) {
            Ok(v) => v,
            Err(e) => {
                return Err(e);
            },
        };
        let r2 = self.push_front(value, now);
        match r2 {
            Ok(i) => {
                proof {
                    let k = old(self).pos_of(*index);
                    assert(old(self).order@[k] == *index);
                    assert forall|j: Index| old(self).order@.contains(j) implies j != i by {
                        let q = choose|q: int|
                            0 <= q < old(self).order@.len() && old(self).order@[q] == j;
                        assert(old(self).link_ok(q));
                        assert(old(self).arena.valid(j));
                    }
                }
                Ok(i)
            },
            Err(e) => {
                proof {
                    assert(old(self).arena.generation == u64::MAX);
                }
                Err(e)
            },
        }
    }
    /// With a time-to-live configured, removes expired nodes from the tail,
    /// stopping at the first node not yet expired, and returns their values
    /// in removal order (tail first). Returns `Ok(None)` — distinct from an
    /// empty collection — when nothing was retired, and always succeeds:
    /// retirement never breaks a well-formed list. Without a time-to-live it
    /// does nothing.
    #[verifier::rlimit(100)]
    pub fn retire(&mut self, now: u64) -> (r: Result<Option<Vec<T>>, ListError>)
        requires
            old(self).wf(),
        ensures
            final(self).wf(),
            final(self).timeout == old(self).timeout,
            final(self).arena.cap == old(self).arena.cap,
            final(self).arena.generation == old(self).arena.generation,
            ({
                let m = trailing_expired(old(self).expires(), now) as int;
                let n1 = old(self).len - m;
                match r {
                    Ok(opt) => {
                        &&& (old(self).timeout is None ==> opt is None && *final(self) == *old(
                            self,
                        ))
                        &&& (old(self).timeout is Some ==> {
                            &&& final(self).order@ == old(self).order@.take(n1)
                            &&& final(self)@ == old(self)@.take(n1)
                            &&& final(self).expires() == old(self).expires().take(n1)
                            &&& final(self).len == n1
                            &&& final(self).arena.free_len() == old(self).arena.free_len() + m
                            &&& match opt {
                                Some(vals) => m > 0 && vals@ == old(self)@.skip(n1).reverse(),
                                None => m == 0 && *final(self) == *old(self),
                            }
                        })
                    },
                    Err(_) => false,
                }
            }),
    {
        if self.timeout.is_none() {
            return Ok(None);
        }
        let mut values: Vec<T> = Vec::new();
        let mut stop = false;
        proof {
            assert(old(self).order@.take(old(self).len as int) =~= old(self).order@);
            assert(old(self)@.take(old(self).len as int) =~= old(self)@);
            assert(old(self).expires().take(old(self).len as int) =~= old(self).expires());
            assert(old(self)@.skip(old(self).len as int).reverse() =~= Seq::<T>::empty());
        }
        while !stop
            invariant
                old(self).wf(),
                old(self).timeout is Some,
                self.wf(),
                self.timeout == old(self).timeout,
                self.arena.cap == old(self).arena.cap,
                self.arena.generation == old(self).arena.generation,
                values@.len() <= old(self).order@.len(),
                self.len == old(self).len - values@.len(),
                self.order@ == old(self).order@.take(self.len as int),
                self@ == old(self)@.take(self.len as int),
                self.expires() == old(self).expires().take(self.len as int),
                self.arena.free_len() == old(self).arena.free_len() + values@.len(),
                values@ == old(self)@.skip(self.len as int).reverse(),
                forall|p: int|
                    self.len <= p < old(self).order@.len() ==> is_expired(
                        #[trigger] old(self).expires()[p],
                        now,
                    ),
                stop ==> self.len == 0 || !is_expired(old(self).expires()[self.len - 1], now),
                values@.len() == 0 ==> *self == *old(self),
            decreases self.len as int + (if stop {
                0int
            } else {
                1int
            }),
        {
            if self.len == 0 {
                stop = true;
            } else {
                let t = match self.tail {
                    Some(t) => t,
                    None => {
                        proof {
                            assert(false);
                        }
                        return Err(ListError::LinkBroken);
                    },
                };
                proof {
                    assert(self.link_ok(self.order@.len() - 1));
                }
                let expired: bool;
                match self.arena.get(&t) {
                    Some(node) => {
                        proof {
                            assert(*node == self.node_at(self.order@.len() - 1));
                        }
                        match node.expire_time {
                            Some(et) => {
                                expired = et <= now;
                            },
                            None => {
                                proof {
                                    assert(false);
                                }
                                return Err(ListError::LinkBroken);
                            },
                        }
                    },
                    None => {
                        proof {
                            assert(false);
                        }
                        return Err(ListError::LinkBroken);
                    },
                }
                proof {
                    assert(expired == is_expired(self.expires().last(), now));
                }
                if expired {
                    let ghost pre = *self;
                    let ghost n_pre = pre.order@.len() as int;
                    proof {
                        assert(pre.order@[n_pre - 1] == t);
                        assert(pre.order@.contains(t));
                        pre.lemma_pos_of(t);
                        assert(pre.pos_of(t) == n_pre - 1);
                    }
                    let v = match self.remove(&t) {
                        Ok(v) => v,
                        Err(e) => {
                            proof {
                                assert(false);
                            }
                            return Err(e);
                        },
                    };
                    values.push(v);
                    proof {
                        let n_all = old(self).order@.len() as int;
                        assert(self.order@ =~= old(self).order@.take(self.len as int));
                        assert(self@ =~= old(self)@.take(self.len as int));
                        assert(self.expires() =~= old(self).expires().take(self.len as int));
                        assert(pre.expires()[n_pre - 1] == old(self).expires()[n_pre - 1]);
                        assert(is_expired(old(self).expires()[n_pre - 1], now));
                        assert forall|q: int|
                            0 <= q < values@.len() implies values@[q] == old(self)@.skip(
                            self.len as int,
                        ).reverse()[q] by {
                            if q < values@.len() - 1 {
                                assert(values@[q] == old(self)@.skip(n_pre).reverse()[q]);
                                assert(old(self)@.skip(n_pre).reverse()[q] == old(self)@[n_all - 1
                                    - q]);
                                assert(old(self)@.skip(self.len as int).reverse()[q] == old(
                                    self,
                                )@[n_all - 1 - q]);
                            } else {
                                assert(values@[q] == pre@[n_pre - 1]);
                                assert(pre@[n_pre - 1] == old(self)@[n_pre - 1]);
                                assert(old(self)@.skip(self.len as int).reverse()[q] == old(
                                    self,
                                )@[n_pre - 1]);
                            }
                        }
                        assert(values@ =~= old(self)@.skip(self.len as int).reverse());
                    }
                } else {
                    stop = true;
                }
            }
        }
        proof {
            lemma_trailing_expired_exact(old(self).expires(), now, values@.len() as nat);
        }
        if values.len() > 0 {
            Ok(Some(values))
        } else {
            Ok(None)
        }
    }
}

/// Executable saturating addition matching [`stamp_expire`].
fn expire_stamp(now: u64, ttl: u64) -> (r: u64)
    ensures
        r == stamp_expire(now, ttl),
{
    if now > u64::MAX - ttl {
        u64::MAX
    } else {
        now + ttl
    }
}

impl<T> View for LinkedList<T> {
    type V = Seq<T>;

    /// The stored values in chain order, head first.
    open spec fn view(&self) -> Seq<T> {
        Seq::new(self.order@.len(), |k: int| self.node_at(k).value)
    }
}

} // verus!
