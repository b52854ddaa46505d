//! The key-addressed LRU/TTL layer: a hash index from keys to arena handles,
//! kept in lock-step with a [`LinkedList`] ordered by recency.
//!
//! The critical invariant, [`Cache::wf`], ties the two together: the index's
//! domain is exactly the set of keys held by list nodes, and each key maps to
//! the handle of that key's current node. Every operation that moves a node
//! (and so changes its handle) updates the index entry in the same step.
//!
//! Expiry sweeping is lazy: every [`Cache::insert`] runs [`Cache::retire`]
//! first, and an expired-but-unswept entry stays visible to
//! [`Cache::query`] until a sweep runs.

use std::collections::HashMap;
use std::hash::Hash;

use vstd::prelude::*;

use crate::arena::Index;
use crate::err::{ArenaOOM, CacheError, ListError};
use crate::list::{stamp_expire, trailing_expired, LinkedList};

verus! {

broadcast use vstd::std_specs::hash::group_hash_axioms;

/// One cache entry as the list stores it: the key it is filed under and its
/// value.
pub struct ListItem<K, V> {
    pub key: K,
    pub value: V,
}

/// The cache: a recency-ordered list of entries and a hash index from key to
/// the handle of that key's current node.
pub struct Cache<K, V> where K: Eq + Hash {
    pub list: LinkedList<ListItem<K, V>>,
    pub map: HashMap<K, Index>,
}

impl<K, V> Cache<K, V> where K: Eq + Hash + Copy {
    /// The keys in recency order, most recently used first.
    pub open spec fn keys(self) -> Seq<K> {
        Seq::new(self.list@.len(), |p: int| self.list@[p].key)
    }

    /// Some entry carries this key.
    pub open spec fn has_key(self, k: K) -> bool {
        exists|p: int| 0 <= p < self.list@.len() && (#[trigger] self.list@[p]).key == k
    }

    /// The position of the entry carrying key `k`, most recent first.
    pub open spec fn pos_of_key(self, k: K) -> int {
        choose|p: int| 0 <= p < self.list@.len() && (#[trigger] self.list@[p]).key == k
    }

    /// The value stored under key `k`.
    pub open spec fn lookup(self, k: K) -> V
        recommends
            self.has_key(k),
    {
        self.list@[self.pos_of_key(k)].value
    }

    /// Current live entry count.
    pub open spec fn len_spec(self) -> nat {
        self.list@.len()
    }

    /// Total capacity: the arena slots ever reserved.
    pub open spec fn cap_spec(self) -> nat {
        self.list.arena.cap as nat
    }

    /// How many entries a sweep at `now` would leave: everything up to the
    /// expired suffix of the recency order.
    pub open spec fn swept_len(self, now: u64) -> int {
        if self.list.timeout is Some {
            self.list@.len() - trailing_expired(self.list.expires(), now)
        } else {
            self.list@.len() as int
        }
    }

    /// Well-formedness: the list is well-formed, keys are hashable by the
    /// standard model, no key is filed twice, every entry's key maps in the
    /// index to that entry's handle, and the index holds no key without an
    /// entry.
    pub open spec fn wf(self) -> bool {
        &&& self.list.wf()
        &&& vstd::std_specs::hash::obeys_key_model::<K>()
        &&& forall|p: int, q: int|
            0 <= p < q < self.list@.len() ==> (#[trigger] self.list@[p]).key
                != (#[trigger] self.list@[q]).key
        &&& forall|p: int|
            0 <= p < self.list@.len() ==> self.map@.contains_key(
                (#[trigger] self.list@[p]).key,
            ) && self.map@[self.list@[p].key] == self.list.order@[p]
        &&& forall|k: K| #[trigger] self.map@.contains_key(k) ==> self.has_key(k)
    }

    /// The position of a present key is in range, unique, and carries the
    /// key.
    pub proof fn lemma_pos_of_key(self, k: K)
        requires
            self.wf(),
            self.has_key(k),
        ensures
            ({
                let p = self.pos_of_key(k);
                &&& 0 <= p < self.list@.len()
                &&& self.list@[p].key == k
                &&& forall|q: int|
                    0 <= q < self.list@.len() && (#[trigger] self.list@[q]).key == k ==> q == p
            }),
    {
        let w = choose|p: int| 0 <= p < self.list@.len() && (#[trigger] self.list@[p]).key == k;
        assert(self.list@[w].key == k);
        let p = self.pos_of_key(k);
        assert forall|q: int|
            0 <= q < self.list@.len() && (#[trigger] self.list@[q]).key == k implies q == p by {
            if q != p {
                assert(self.list@[q].key != self.list@[p].key);
            }
        }
    }

    /// Capacity bound: however the cache was driven here, the live entry
    /// count never exceeds the capacity reserved at construction (or grown
    /// since). Every operation preserves [`Cache::wf`], so this holds in
    /// every reachable state.
    pub proof fn lemma_capacity_bound(self)
        requires
            self.wf(),
        ensures
            self.len_spec() <= self.cap_spec(),
    {
        self.list.lemma_len_le_cap();
    }

    /// Index/list consistency: the index's domain is exactly the key set of
    /// the list, and each indexed handle resolves in the arena to the node
    /// carrying that very key.
    pub proof fn lemma_index_list_consistency(self)
        requires
            self.wf(),
        ensures
            forall|k: K| #[trigger] self.map@.contains_key(k) <==> self.has_key(k),
            forall|k: K|
                #[trigger] self.map@.contains_key(k) ==> self.list.arena.valid(self.map@[k])
                    && self.list.arena.value_at(self.map@[k]).value.key == k,
    {
        assert forall|k: K| #[trigger] self.map@.contains_key(k) implies self.list.arena.valid(
            self.map@[k],
        ) && self.list.arena.value_at(self.map@[k]).value.key == k by {
            self.lemma_pos_of_key(k);
            let p = self.pos_of_key(k);
            assert(self.list.link_ok(p));
            assert(self.map@[k] == self.list.order@[p]);
        }
    }

    /// An empty cache over `cap` reserved slots, without expiry.
    pub fn new_with_cap(cap: usize) -> (r: Self)
        requires
            vstd::std_specs::hash::obeys_key_model::<K>(),
        ensures
            r.wf(),
            r.len_spec() == 0,
            r.cap_spec() == cap,
            r.list.timeout is None,
            r.list.arena.generation == 0,
            r.map@ == Map::<K, Index>::empty(),
    {
        Cache { list: LinkedList::new_with_cap(cap), map: HashMap::new() }
    }

    /// An empty cache over `cap` reserved slots, with every entry expiring
    /// `timeout` after its insertion or refresh.
    pub fn new_with_cap_timeout(cap: usize, timeout: u64) -> (r: Self)
        requires
            vstd::std_specs::hash::obeys_key_model::<K>(),
        ensures
            r.wf(),
            r.len_spec() == 0,
            r.cap_spec() == cap,
            r.list.timeout == Some(timeout),
            r.list.arena.generation == 0,
            r.map@ == Map::<K, Index>::empty(),
    {
        Cache { list: LinkedList::new_with_cap_timeout(cap, timeout), map: HashMap::new() }
    }

    /// Current live entry count.
    pub fn len(&self) -> (r: usize)
        requires
            self.wf(),
        ensures
            r == self.len_spec(),
    {
        self.list.len()
    }

    /// Promoting entry `p` to the front with a fresh handle `i`, and filing
    /// `i` under its key, preserves well-formedness and rotates the recency
    /// order.
    proof fn lemma_promote(pre: Self, post: Self, p: int, i: Index)
        requires
            pre.wf(),
            0 <= p < pre.list@.len(),
            post.list.wf(),
            post.list.order@ == seq![i] + pre.list.order@.remove(p),
            post.list@ == seq![pre.list@[p]] + pre.list@.remove(p),
            post.map@ == pre.map@.insert(pre.list@[p].key, i),
        ensures
            post.wf(),
            post.keys() == seq![pre.list@[p].key] + pre.keys().remove(p),
    {
        let key = pre.list@[p].key;
        pre.list@.remove_ensures(p);
        pre.list.order@.remove_ensures(p);
        pre.keys().remove_ensures(p);
        assert forall|a: int, b: int|
            0 <= a < b < post.list@.len() implies (#[trigger] post.list@[a]).key
            != (#[trigger] post.list@[b]).key by {
            let ma: int = if a == 0 {
                p
            } else if a - 1 < p {
                a - 1
            } else {
                a
            };
            let mb: int = if b - 1 < p {
                b - 1
            } else {
                b
            };
            assert(post.list@[a] == pre.list@[ma]);
            assert(post.list@[b] == pre.list@[mb]);
        }
        assert forall|q: int| 0 <= q < post.list@.len() implies post.map@.contains_key(
            (#[trigger] post.list@[q]).key,
        ) && post.map@[post.list@[q].key] == post.list.order@[q] by {
            if q == 0 {
                assert(post.list@[0] == pre.list@[p]);
            } else {
                let mq: int = if q - 1 < p {
                    q - 1
                } else {
                    q
                };
                assert(post.list@[q] == pre.list@[mq]);
                assert(post.list.order@[q] == pre.list.order@[mq]);
                assert(mq != p);
                assert(pre.list@[mq].key != key);
            }
        }
        assert forall|k2: K| #[trigger] post.map@.contains_key(k2) implies post.has_key(k2) by {
            if k2 == key {
                assert(post.list@[0].key == key);
            } else {
                assert(pre.map@.contains_key(k2));
                let q = choose|q: int|
                    0 <= q < pre.list@.len() && (#[trigger] pre.list@[q]).key == k2;
                assert(q != p);
                if q < p {
                    assert(post.list@[q + 1] == pre.list@[q]);
                } else {
                    assert(post.list@[q] == pre.list@[q]);
                }
            }
        }
        assert forall|q: int| 0 <= q < post.keys().len() implies #[trigger] post.keys()[q] == (seq![
            key,
        ] + pre.keys().remove(p))[q] by {
            if q > 0 {
                let mq: int = if q - 1 < p {
                    q - 1
                } else {
                    q
                };
                assert(post.list@[q] == pre.list@[mq]);
            }
        }
        assert(post.keys() =~= seq![key] + pre.keys().remove(p));
    }

    /// Looks the key up; on a hit, promotes the entry to the front (marking
    /// it most recently used), re-files its fresh handle, re-stamps its
    /// expiry, and returns a borrow of the value. An absent key is a miss,
    /// and the cache is untouched. The only other failure — generations
    /// exhausted, after on the order of 2^64 insertions — also leaves the
    /// cache untouched. A query never sweeps: an expired entry stays
    /// visible until [`Cache::insert`] or [`Cache::retire`] runs.
    pub fn query(&mut self, key: &K, now: u64) -> (r: Result<&V, CacheError>)
        requires
            old(self).wf(),
        ensures
            final(self).wf(),
            final(self).list.timeout == old(self).list.timeout,
            final(self).cap_spec() == old(self).cap_spec(),
            match r {
                Ok(v) => ({
                    let p = old(self).pos_of_key(*key);
                    &&& old(self).has_key(*key)
                    &&& old(self).list.arena.generation < u64::MAX
                    &&& *v == old(self).lookup(*key)
                    &&& final(self).keys() == seq![*key] + old(self).keys().remove(p)
                    &&& final(self).list@ == seq![old(self).list@[p]] + old(self).list@.remove(p)
                    &&& final(self).list.expires() == seq![
                        match old(self).list.timeout {
                            Some(t) => Some(stamp_expire(now, t)),
                            None => None::<u64>,
                        },
                    ] + old(self).list.expires().remove(p)
                    &&& final(self).len_spec() == old(self).len_spec()
                    &&& final(self).has_key(*key)
                    &&& final(self).lookup(*key) == old(self).lookup(*key)
                    &&& final(self).list.arena.generation == old(self).list.arena.generation
                        + 1
                }),
                Err(CacheError::CacheMiss) => !old(self).has_key(*key) && *final(self) == *old(
                    self,
                ),
                Err(CacheError::CacheBroken(e)) => old(self).has_key(*key) && old(
                    self,
                ).list.arena.generation == u64::MAX && e == ListError::ListOOM(ArenaOOM {  })
                    && *final(self) == *old(self),
            },
    {
        let index: Index = match self.map.get(key) {
            Some(i) => *i,
            None => {
                proof {
                    if old(self).has_key(*key) {
                        old(self).lemma_pos_of_key(*key);
                        let p = old(self).pos_of_key(*key);
                        assert(old(self).map@.contains_key(old(self).list@[p].key));
                    }
                }
                return Err(CacheError::CacheMiss);
            },
        };
        if self.list.arena.generation == u64::MAX {
            return Err(CacheError::CacheBroken(ListError::ListOOM(ArenaOOM {  })));
        }
        proof {
            old(self).lemma_pos_of_key(*key);
        }
        let ghost p = old(self).pos_of_key(*key);
        proof {
            assert(old(self).map@[*key] == old(self).list.order@[p]);
            assert(index == old(self).list.order@[p]);
            assert(old(self).list.order@.contains(index));
            old(self).list.lemma_pos_of(index);
            assert(old(self).list.pos_of(index) == p);
        }
        let new_index = match self.list.reposition_to_head(&index, now) {
            Ok(i) => i,
            Err(e) => {
                proof {
                    assert(false);
                }
                return Err(CacheError::CacheBroken(e));
            },
        };
        self.map.insert(*key, new_index);
        proof {
            Self::lemma_promote(*old(self), *self, p, new_index);
        }
        let item = match self.list.get(&new_index) {
            Ok(item) => item,
            Err(e) => {
                proof {
                    assert(self.list.order@[0] == new_index);
                    assert(self.list.order@.contains(new_index));
                    assert(false);
                }
                return Err(CacheError::CacheBroken(e));
            },
        };
        proof {
            assert(self.list.order@[0] == new_index);
            assert(self.list.order@.contains(new_index));
            self.list.lemma_pos_of(new_index);
            assert(self.list.pos_of(new_index) == 0);
            assert(self.list@[0] == old(self).list@[p]);
            assert(self.has_key(*key));
            self.lemma_pos_of_key(*key);
            assert(self.pos_of_key(*key) == 0);
        }
        Ok(&item.value)
    }

    /// Removes the key's entry from the index and the list, returning the
    /// value; an absent key is a miss, and the cache is untouched.
    pub fn remove(&mut self, key: &K) -> (r: Result<V, CacheError>)
        requires
            old(self).wf(),
        ensures
            final(self).wf(),
            final(self).list.timeout == old(self).list.timeout,
            final(self).cap_spec() == old(self).cap_spec(),
            final(self).list.arena.generation == old(self).list.arena.generation,
            match r {
                Ok(v) => ({
                    let p = old(self).pos_of_key(*key);
                    &&& old(self).has_key(*key)
                    &&& v == old(self).lookup(*key)
                    &&& final(self).list@ == old(self).list@.remove(p)
                    &&& final(self).keys() == old(self).keys().remove(p)
                    &&& final(self).list.expires() == old(self).list.expires().remove(p)
                    &&& final(self).len_spec() == old(self).len_spec() - 1
                    &&& !final(self).has_key(*key)
                }),
                Err(e) => e == CacheError::CacheMiss && !old(self).has_key(*key)
                    && final(self).list == old(self).list && final(self).map@ == old(self).map@,
            },
    {
        let index = match self.map.remove(key) {
            Some(i) => i,
            None => {
                proof {
                    if old(self).has_key(*key) {
                        old(self).lemma_pos_of_key(*key);
                        let p = old(self).pos_of_key(*key);
                        assert(old(self).map@.contains_key(old(self).list@[p].key));
                    }
                    assert(self.map@ =~= old(self).map@);
                }
                return Err(CacheError::CacheMiss);
            },
        };
        proof {
            old(self).lemma_pos_of_key(*key);
        }
        let ghost p = old(self).pos_of_key(*key);
        proof {
            assert(old(self).map@[*key] == old(self).list.order@[p]);
            assert(index == old(self).list.order@[p]);
            assert(old(self).list.order@.contains(index));
            old(self).list.lemma_pos_of(index);
            assert(old(self).list.pos_of(index) == p);
        }
        let item = match self.list.remove(&index) {
            Ok(it) => it,
            Err(e) => {
                proof {
                    assert(false);
                }
                return Err(CacheError::CacheBroken(e));
            },
        };
        proof {
            let pre = *old(self);
            pre.list@.remove_ensures(p);
            pre.list.order@.remove_ensures(p);
            pre.keys().remove_ensures(p);
            assert forall|q: int| 0 <= q < self.list@.len() implies self.map@.contains_key(
                (#[trigger] self.list@[q]).key,
            ) && self.map@[self.list@[q].key] == self.list.order@[q] by {
                let mq: int = if q < p {
                    q
                } else {
                    q + 1
                };
                assert(self.list@[q] == pre.list@[mq]);
                assert(self.list.order@[q] == pre.list.order@[mq]);
                assert(mq != p);
                assert(pre.list@[mq].key != pre.list@[p].key);
            }
            assert forall|k2: K| #[trigger] self.map@.contains_key(k2) implies self.has_key(k2) by {
                assert(pre.map@.contains_key(k2));
                assert(k2 != *key);
                let q = choose|q: int|
                    0 <= q < pre.list@.len() && (#[trigger] pre.list@[q]).key == k2;
                assert(q != p);
                if q < p {
                    assert(self.list@[q] == pre.list@[q]);
                } else {
                    assert(self.list@[q - 1] == pre.list@[q]);
                }
            }
            assert forall|q: int| 0 <= q < self.keys().len() implies #[trigger] self.keys()[q]
                == pre.keys().remove(p)[q] by {
                let mq: int = if q < p {
                    q
                } else {
                    q + 1
                };
                assert(self.list@[q] == pre.list@[mq]);
            }
            assert(self.keys() =~= pre.keys().remove(p));
            if self.has_key(*key) {
                let q = choose|q: int|
                    0 <= q < self.list@.len() && (#[trigger] self.list@[q]).key == *key;
                let mq: int = if q < p {
                    q
                } else {
                    q + 1
                };
                assert(self.list@[q] == pre.list@[mq]);
                assert(mq != p);
                assert(pre.list@[mq].key != pre.list@[p].key);
            }
        }
        Ok(item.value)
    }

    /// Sweeps expired entries: delegates to the list's tail retirement and
    /// removes every retired key from the index. On a well-formed cache this
    /// never fails — a retired key is always found in the index.
    #[verifier::rlimit(100)]
    pub fn retire(&mut self, now: u64) -> (r: Result<(), CacheError>)
        requires
            old(self).wf(),
        ensures
            final(self).wf(),
            final(self).list.timeout == old(self).list.timeout,
            final(self).cap_spec() == old(self).cap_spec(),
            final(self).list.arena.generation == old(self).list.arena.generation,
            r is Ok,
            ({
                let n1 = old(self).swept_len(now);
                &&& final(self).list@ == old(self).list@.take(n1)
                &&& final(self).list.order@ == old(self).list.order@.take(n1)
                &&& final(self).list.expires() == old(self).list.expires().take(n1)
                &&& final(self).keys() == old(self).keys().take(n1)
                &&& final(self).len_spec() == n1
                &&& (n1 == old(self).len_spec() ==> *final(self) == *old(self))
            }),
    {
        let ghost pre = *old(self);
        let retired = match self.list.retire(now) {
            Ok(o) => o,
            Err(e) => {
                proof {
                    assert(false);
                }
                return Err(CacheError::CacheBroken(e));
            },
        };
        let ghost m = trailing_expired(pre.list.expires(), now) as int;
        let ghost n1 = pre.swept_len(now);
        let ghost n_all = pre.list@.len() as int;
        match retired {
            Some(items) => {
                let mut pos: usize = 0;
                while pos < items.len()
                    invariant
                        pre.wf(),
                        vstd::std_specs::hash::obeys_key_model::<K>(),
                        pre.list.timeout is Some,
                        m == trailing_expired(pre.list.expires(), now),
                        n_all == pre.list@.len(),
                        n1 == n_all - m,
                        0 <= n1 <= n_all,
                        items@ == pre.list@.skip(n1).reverse(),
                        items@.len() == m,
                        pos <= items@.len(),
                        self.list.wf(),
                        self.list@ == pre.list@.take(n1),
                        self.list.order@ == pre.list.order@.take(n1),
                        self.list.expires() == pre.list.expires().take(n1),
                        self.list.timeout == pre.list.timeout,
                        self.list.arena.cap == pre.list.arena.cap,
                        self.list.arena.generation == pre.list.arena.generation,
                        self.list.len == n1,
                        forall|k2: K|
                            #[trigger] self.map@.contains_key(k2) <==> (pre.map@.contains_key(k2)
                                && !(exists|q: int|
                                0 <= q < pos && (#[trigger] items@[q]).key == k2)),
                        forall|k2: K|
                            #[trigger] self.map@.contains_key(k2) ==> self.map@[k2]
                                == pre.map@[k2],
                    decreases items@.len() - pos,
                {
                    let k = items[pos].key;
                    proof {
                        assert(items@[pos as int] == pre.list@[n_all - 1 - pos]);
                        assert(pre.map@.contains_key(k));
                        assert forall|q: int|
                            0 <= q < pos implies (#[trigger] items@[q]).key != k by {
                            assert(items@[q] == pre.list@[n_all - 1 - q]);
                        }
                        assert(self.map@.contains_key(k));
                    }
                    match self.map.remove(&k) {
                        Some(_) => {
                        },
                        None => {
                            proof {
                                assert(false);
                            }
                            return Err(CacheError::CacheMiss);
                        },
                    }
                    pos = pos + 1;
                    proof {
                        assert forall|k2: K| #[trigger] self.map@.contains_key(k2) implies (
                        pre.map@.contains_key(k2) && !(exists|q: int|
                            0 <= q < pos && (#[trigger] items@[q]).key == k2)) by {
                            assert(k2 != k);
                        }
                        assert forall|k2: K|
                            pre.map@.contains_key(k2) && !(exists|q: int|
                                0 <= q < pos && (#[trigger] items@[q]).key
                                    == k2) implies self.map@.contains_key(k2) by {
                            assert(items@[pos - 1].key == k);
                            assert(k2 != k);
                        }
                    }
                }
                proof {
                    assert forall|q: int| 0 <= q < self.list@.len() implies self.map@.contains_key(
                        (#[trigger] self.list@[q]).key,
                    ) && self.map@[self.list@[q].key] == self.list.order@[q] by {
                        assert(self.list@[q] == pre.list@[q]);
                        assert(pre.map@.contains_key(pre.list@[q].key));
                        assert forall|q2: int|
                            0 <= q2 < items@.len() implies (#[trigger] items@[q2]).key
                            != pre.list@[q].key by {
                            assert(items@[q2] == pre.list@[n_all - 1 - q2]);
                        }
                    }
                    assert forall|k2: K| #[trigger] self.map@.contains_key(k2) implies self.has_key(
                        k2,
                    ) by {
                        assert(pre.map@.contains_key(k2));
                        let q = choose|q: int|
                            0 <= q < pre.list@.len() && (#[trigger] pre.list@[q]).key == k2;
                        if q >= n1 {
                            assert(items@[n_all - 1 - q] == pre.list@[q]);
                        } else {
                            assert(self.list@[q] == pre.list@[q]);
                        }
                    }
                    assert forall|a: int, b: int|
                        0 <= a < b < self.list@.len() implies (#[trigger] self.list@[a]).key
                        != (#[trigger] self.list@[b]).key by {
                        assert(self.list@[a] == pre.list@[a]);
                        assert(self.list@[b] == pre.list@[b]);
                    }
                    assert(self.keys() =~= pre.keys().take(n1));
                }
                Ok(())
            },
            None => {
                proof {
                    assert(self.list@.len() == n1);
                    assert(pre.list@.take(n1) =~= pre.list@);
                    assert(pre.list.order@.take(n1) =~= pre.list.order@);
                    assert(pre.list.expires().take(n1) =~= pre.list.expires());
                    assert(pre.keys().take(n1) =~= pre.keys());
                    assert(self.keys() =~= pre.keys());
                }
                Ok(())
            },
        }
    }

    /// Pushing a fresh key to the front with handle `i`, and filing `i`
    /// under it, preserves well-formedness and prepends to the recency
    /// order.
    proof fn lemma_push_new(pre: Self, post: Self, key: K, value: V, i: Index)
        requires
            pre.wf(),
            !pre.has_key(key),
            post.list.wf(),
            post.list.order@ == seq![i] + pre.list.order@,
            post.list@ == seq![ListItem { key, value }] + pre.list@,
            post.map@ == pre.map@.insert(key, i),
        ensures
            post.wf(),
            post.keys() == seq![key] + pre.keys(),
            post.lookup(key) == value,
            forall|k2: K| post.has_key(k2) <==> (k2 == key || pre.has_key(k2)),
    {
        assert forall|a: int, b: int|
            0 <= a < b < post.list@.len() implies (#[trigger] post.list@[a]).key
            != (#[trigger] post.list@[b]).key by {
            assert(post.list@[b] == pre.list@[b - 1]);
            if a > 0 {
                assert(post.list@[a] == pre.list@[a - 1]);
            }
        }
        assert forall|q: int| 0 <= q < post.list@.len() implies post.map@.contains_key(
            (#[trigger] post.list@[q]).key,
        ) && post.map@[post.list@[q].key] == post.list.order@[q] by {
            if q > 0 {
                assert(post.list@[q] == pre.list@[q - 1]);
                assert(post.list.order@[q] == pre.list.order@[q - 1]);
                assert(pre.list@[q - 1].key != key);
            }
        }
        assert forall|k2: K| #[trigger] post.map@.contains_key(k2) implies post.has_key(k2) by {
            if k2 == key {
                assert(post.list@[0].key == key);
            } else {
                let q = choose|q: int|
                    0 <= q < pre.list@.len() && (#[trigger] pre.list@[q]).key == k2;
                assert(post.list@[q + 1] == pre.list@[q]);
            }
        }
        assert forall|k2: K| post.has_key(k2) implies (k2 == key || pre.has_key(k2)) by {
            let q = choose|q: int|
                0 <= q < post.list@.len() && (#[trigger] post.list@[q]).key == k2;
            if q > 0 {
                assert(post.list@[q] == pre.list@[q - 1]);
            }
        }
        assert forall|k2: K| (k2 == key || pre.has_key(k2)) implies post.has_key(k2) by {
            if k2 == key {
                assert(post.list@[0].key == key);
            } else {
                let q = choose|q: int|
                    0 <= q < pre.list@.len() && (#[trigger] pre.list@[q]).key == k2;
                assert(post.list@[q + 1] == pre.list@[q]);
            }
        }
        assert forall|q: int| 0 <= q < post.keys().len() implies #[trigger] post.keys()[q] == (seq![
            key,
        ] + pre.keys())[q] by {
            if q > 0 {
                assert(post.list@[q] == pre.list@[q - 1]);
            }
        }
        assert(post.keys() =~= seq![key] + pre.keys());
        post.lemma_pos_of_key(key);
        assert(post.list@[0].key == key);
        assert(post.pos_of_key(key) == 0);
    }

    /// Dropping the least recently used entry (the list's tail) and its
    /// index record preserves well-formedness; the evicted key is then
    /// absent.
    proof fn lemma_evict_last(pre: Self, post: Self)
        requires
            pre.wf(),
            pre.list@.len() > 0,
            post.list.wf(),
            post.list.order@ == pre.list.order@.drop_last(),
            post.list@ == pre.list@.drop_last(),
            post.map@ == pre.map@.remove(pre.list@.last().key),
        ensures
            post.wf(),
            post.keys() == pre.keys().drop_last(),
            forall|k2: K|
                post.has_key(k2) <==> (pre.has_key(k2) && k2 != pre.list@.last().key),
    {
        let n = pre.list@.len() as int;
        let ekey = pre.list@[n - 1].key;
        assert forall|a: int, b: int|
            0 <= a < b < post.list@.len() implies (#[trigger] post.list@[a]).key
            != (#[trigger] post.list@[b]).key by {
            assert(post.list@[a] == pre.list@[a]);
            assert(post.list@[b] == pre.list@[b]);
        }
        assert forall|q: int| 0 <= q < post.list@.len() implies post.map@.contains_key(
            (#[trigger] post.list@[q]).key,
        ) && post.map@[post.list@[q].key] == post.list.order@[q] by {
            assert(post.list@[q] == pre.list@[q]);
            assert(post.list.order@[q] == pre.list.order@[q]);
            assert(pre.list@[q].key != pre.list@[n - 1].key);
        }
        assert forall|k2: K| #[trigger] post.map@.contains_key(k2) implies post.has_key(k2) by {
            assert(pre.map@.contains_key(k2));
            assert(k2 != ekey);
            let q = choose|q: int| 0 <= q < pre.list@.len() && (#[trigger] pre.list@[q]).key == k2;
            assert(q != n - 1);
            assert(post.list@[q] == pre.list@[q]);
        }
        assert forall|k2: K| post.has_key(k2) implies (pre.has_key(k2) && k2 != ekey) by {
            let q = choose|q: int|
                0 <= q < post.list@.len() && (#[trigger] post.list@[q]).key == k2;
            assert(post.list@[q] == pre.list@[q]);
            assert(pre.list@[q].key != pre.list@[n - 1].key);
        }
        assert forall|k2: K| pre.has_key(k2) && k2 != ekey implies post.has_key(k2) by {
            let q = choose|q: int| 0 <= q < pre.list@.len() && (#[trigger] pre.list@[q]).key == k2;
            assert(q != n - 1);
            assert(post.list@[q] == pre.list@[q]);
        }
        assert forall|q: int| 0 <= q < post.keys().len() implies #[trigger] post.keys()[q]
            == pre.keys().drop_last()[q] by {
            assert(post.list@[q] == pre.list@[q]);
        }
        assert(post.keys() =~= pre.keys().drop_last());
    }

    /// Overwriting the value of the most recently used entry, keeping its
    /// key, handle and index record, preserves well-formedness and the
    /// recency order.
    proof fn lemma_overwrite_head(pre: Self, post: Self, item: ListItem<K, V>)
        requires
            pre.wf(),
            pre.list@.len() > 0,
            post.list.wf(),
            post.list.order@ == pre.list.order@,
            post.list@ == pre.list@.update(0, item),
            item.key == pre.list@[0].key,
            post.map@ == pre.map@,
        ensures
            post.wf(),
            post.keys() == pre.keys(),
            post.lookup(item.key) == item.value,
            post.has_key(item.key),
            forall|k2: K| post.has_key(k2) <==> pre.has_key(k2),
    {
        assert forall|q: int| 0 <= q < post.list@.len() implies (#[trigger] post.list@[q]).key
            == pre.list@[q].key by {}
        assert forall|a: int, b: int|
            0 <= a < b < post.list@.len() implies (#[trigger] post.list@[a]).key
            != (#[trigger] post.list@[b]).key by {
            assert(post.list@[a].key == pre.list@[a].key);
            assert(post.list@[b].key == pre.list@[b].key);
        }
        assert forall|q: int| 0 <= q < post.list@.len() implies post.map@.contains_key(
            (#[trigger] post.list@[q]).key,
        ) && post.map@[post.list@[q].key] == post.list.order@[q] by {
            assert(post.list@[q].key == pre.list@[q].key);
        }
        assert forall|k2: K| #[trigger] post.map@.contains_key(k2) implies post.has_key(k2) by {
            let q = choose|q: int| 0 <= q < pre.list@.len() && (#[trigger] pre.list@[q]).key == k2;
            assert(post.list@[q].key == pre.list@[q].key);
        }
        assert forall|k2: K| post.has_key(k2) <==> pre.has_key(k2) by {
            if post.has_key(k2) {
                let q = choose|q: int|
                    0 <= q < post.list@.len() && (#[trigger] post.list@[q]).key == k2;
                assert(pre.list@[q].key == k2);
            }
            if pre.has_key(k2) {
                let q = choose|q: int|
                    0 <= q < pre.list@.len() && (#[trigger] pre.list@[q]).key == k2;
                assert(post.list@[q].key == k2);
            }
        }
        assert forall|q: int| 0 <= q < post.keys().len() implies #[trigger] post.keys()[q]
            == pre.keys()[q] by {
            assert(post.list@[q].key == pre.list@[q].key);
        }
        assert(post.keys() =~= pre.keys());
        post.lemma_pos_of_key(item.key);
        assert(post.list@[0].key == item.key);
        assert(post.pos_of_key(item.key) == 0);
    }

    /// Inserts or refreshes an entry. First sweeps expired entries, so
    /// capacity accounting sees only live ones. An existing key is promoted
    /// to the front, re-stamped and overwritten without touching capacity; a
    /// fresh key evicts the least recently used entry when the cache is
    /// full, then lands at the front. Fails — leaving the cache untouched —
    /// only when there is no storage at all (capacity zero) or, after on the
    /// order of 2^64 insertions, no fresh generation left.
    #[verifier::rlimit(100)]
    pub fn insert(&mut self, key: K, value: V, now: u64) -> (r: Result<(), CacheError>)
        requires
            old(self).wf(),
        ensures
            final(self).wf(),
            final(self).list.timeout == old(self).list.timeout,
            final(self).cap_spec() == old(self).cap_spec(),
            ({
                let n1 = old(self).swept_len(now);
                let pre_items = old(self).list@.take(n1);
                let pre_keys = old(self).keys().take(n1);
                let p = old(self).pos_of_key(key);
                let item = ListItem { key, value };
                if old(self).list.arena.generation == u64::MAX {
                    r == Err::<(), CacheError>(
                        CacheError::CacheBroken(ListError::ListOOM(ArenaOOM {  })),
                    )
                        && *final(self) == *old(self)
                } else if old(self).has_key(key) && p < n1 {
                    &&& r is Ok
                    &&& final(self).list@ == seq![item] + pre_items.remove(p)
                    &&& final(self).keys() == seq![key] + pre_keys.remove(p)
                    &&& final(self).len_spec() == n1
                    &&& final(self).lookup(key) == value
                    &&& final(self).list.arena.generation == old(self).list.arena.generation
                        + 1
                    &&& (old(self).list.timeout matches Some(t)
                        ==> final(self).list.expires()[0] == Some(stamp_expire(now, t)))
                } else if n1 == old(self).cap_spec() && old(self).cap_spec() > 0 {
                    &&& r is Ok
                    &&& final(self).list@ == seq![item] + pre_items.drop_last()
                    &&& final(self).keys() == seq![key] + pre_keys.drop_last()
                    &&& final(self).len_spec() == n1
                    &&& final(self).lookup(key) == value
                    &&& !final(self).has_key(pre_keys.last())
                    &&& final(self).list.arena.generation == old(self).list.arena.generation
                        + 1
                    &&& (old(self).list.timeout matches Some(t)
                        ==> final(self).list.expires()[0] == Some(stamp_expire(now, t)))
                } else if old(self).cap_spec() == 0 {
                    r == Err::<(), CacheError>(
                        CacheError::CacheBroken(ListError::ListOOM(ArenaOOM {  })),
                    )
                        && *final(self) == *old(self)
                } else {
                    &&& r is Ok
                    &&& final(self).list@ == seq![item] + pre_items
                    &&& final(self).keys() == seq![key] + pre_keys
                    &&& final(self).len_spec() == n1 + 1
                    &&& final(self).lookup(key) == value
                    &&& final(self).list.arena.generation == old(self).list.arena.generation
                        + 1
                    &&& (old(self).list.timeout matches Some(t)
                        ==> final(self).list.expires()[0] == Some(stamp_expire(now, t)))
                }
            }),
    {
        if self.list.arena.generation == u64::MAX {
            return Err(CacheError::CacheBroken(ListError::ListOOM(ArenaOOM {  })));
        }
        match self.retire(now) {
            Ok(_) => {
            },
            Err(e) => {
                proof {
                    assert(false);
                }
                return Err(e);
            },
        }
        let ghost mid = *self;
        let ghost n1 = old(self).swept_len(now);
        proof {
            assert(mid.keys() =~= old(self).keys().take(n1));
        }
        let hit: Option<Index> = match self.map.get(&key) {
            Some(i) => Some(*i),
            None => None,
        };
        match hit {
            Some(index) => {
                proof {
                    assert(mid.map@.contains_key(key));
                    assert(mid.has_key(key));
                    mid.lemma_pos_of_key(key);
                }
                let ghost q = mid.pos_of_key(key);
                proof {
                    assert(mid.list@[q] == old(self).list@[q]);
                    assert(old(self).has_key(key));
                    old(self).lemma_pos_of_key(key);
                    assert(old(self).pos_of_key(key) == q);
                    assert(mid.map@[key] == mid.list.order@[q]);
                    assert(index == mid.list.order@[q]);
                    assert(mid.list.order@.contains(index));
                    mid.list.lemma_pos_of(index);
                    assert(mid.list.pos_of(index) == q);
                }
                let new_index = match self.list.reposition_to_head(&index, now) {
                    Ok(i) => i,
                    Err(e) => {
                        proof {
                            assert(false);
                        }
                        return Err(CacheError::CacheBroken(e));
                    },
                };
                self.map.insert(key, new_index);
                proof {
                    Self::lemma_promote(mid, *self, q, new_index);
                }
                let ghost promoted = *self;
                match self.list.get_mut(&new_index) {
                    Ok(slot) => {
                        *slot = ListItem { key, value };
                    },
                    Err(_) => {
                        proof {
                            assert(promoted.list.order@[0] == new_index);
                            assert(promoted.list.order@.contains(new_index));
                            assert(false);
                        }
                        return Err(CacheError::CacheBroken(ListError::LinkBroken));
                    },
                }
                proof {
                    assert(promoted.list.order@[0] == new_index);
                    assert(promoted.list.order@.contains(new_index));
                    promoted.list.lemma_pos_of(new_index);
                    assert(promoted.list.pos_of(new_index) == 0);
                    LinkedList::lemma_wf_value_update(
                        promoted.list,
                        self.list,
                        0,
                        ListItem { key, value },
                    );
                    assert(promoted.list@[0].key == key);
                    Self::lemma_overwrite_head(promoted, *self, ListItem { key, value });
                    assert(self.list@ =~= seq![ListItem { key, value }] + mid.list@.remove(q));
                    assert(self.keys() =~= seq![key] + mid.keys().remove(q));
                    assert(self.keys() =~= seq![key] + old(self).keys().take(n1).remove(q));
                }
                Ok(())
            },
            None => {
                proof {
                    if mid.has_key(key) {
                        mid.lemma_pos_of_key(key);
                        let w = mid.pos_of_key(key);
                        assert(mid.map@.contains_key(mid.list@[w].key));
                        assert(false);
                    }
                    if old(self).has_key(key) {
                        old(self).lemma_pos_of_key(key);
                        let p = old(self).pos_of_key(key);
                        if p < n1 {
                            assert(mid.list@[p] == old(self).list@[p]);
                            assert(mid.has_key(key));
                        }
                    }
                }
                if self.list.is_full() && self.list.len() > 0 {
                    let evicted = match self.list.pop_back() {
                        Ok(it) => it,
                        Err(_) => {
                            proof {
                                assert(false);
                            }
                            return Err(CacheError::CacheBroken(ListError::ListEmpty));
                        },
                    };
                    proof {
                        assert(evicted == mid.list@.last());
                        let last: int = mid.list@.len() - 1;
                        assert(mid.map@.contains_key(mid.list@[last].key));
                    }
                    match self.map.remove(&evicted.key) {
                        Some(_) => {
                        },
                        None => {
                            proof {
                                assert(false);
                            }
                            return Err(CacheError::CacheMiss);
                        },
                    }
                    proof {
                        Self::lemma_evict_last(mid, *self);
                    }
                }
                let ghost base = *self;
                let new_index = match self.list.push_front(ListItem { key, value }, now) {
                    Ok(i) => i,
                    Err(e) => {
                        proof {
                            assert(base.list.arena.free_len() == 0);
                            assert(old(self).cap_spec() == 0);
                            assert(old(self).len_spec() == 0);
                            assert(n1 == 0);
                            assert(*self == *old(self));
                        }
                        return Err(CacheError::CacheBroken(e));
                    },
                };
                self.map.insert(key, new_index);
                proof {
                    assert(!base.has_key(key));
                    Self::lemma_push_new(base, *self, key, value, new_index);
                    if mid.list.len == mid.list.arena.cap && mid.list.len > 0 {
                        assert(self.list@ =~= seq![ListItem { key, value }] + old(
                            self,
                        ).list@.take(n1).drop_last());
                        assert(self.keys() =~= seq![key] + old(self).keys().take(
                            n1,
                        ).drop_last());
                        let ekey = old(self).keys().take(n1).last();
                        assert(ekey == mid.list@.last().key);
                        assert(!self.has_key(ekey));
                    } else {
                        assert(self.list@ =~= seq![ListItem { key, value }] + old(
                            self,
                        ).list@.take(n1));
                        assert(self.keys() =~= seq![key] + old(self).keys().take(n1));
                    }
                }
                Ok(())
            },
        }
    }
}

} // verus!

