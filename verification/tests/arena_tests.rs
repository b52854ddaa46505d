use lru_cache::arena::{Arena, Entry, Index};
use lru_cache::err::ArenaOOM;

#[test]
fn arena_with_capacity() {
    let capacity = 100;
    let arena = Arena::<i32>::new_with_cap(capacity);
    assert_eq!(arena.cap(), capacity);

    assert_eq!(arena.free_list_head, Some(0));
    let mut i = 0;
    for entry in &arena.items {
        // free chain: 0 -> 1 -> 2 -> ... -> 99, the last slot pointing nowhere
        if i == capacity - 1 {
            assert_eq!(entry, &Entry::Free { next_free: None })
        } else {
            assert_eq!(entry, &Entry::Free { next_free: Some(i + 1) })
        }

        i += 1;
    }
}

#[test]
fn arena_insert() {
    let mut arena = Arena::<i32>::new();
    assert_eq!(arena.insert(0), Err(ArenaOOM {}));

    arena.reserve(1);
    let index_0 = arena.insert(0);
    assert_eq!(
        index_0,
        Ok(Index {
            idx: 0,
            generation: 0
        })
    );

    arena.reserve(1);
    let index_1 = arena.insert(1);
    assert_eq!(
        index_1,
        Ok(Index {
            idx: 1,
            generation: 1
        })
    );

    let index_0_val = index_0.unwrap();
    let item_0 = arena.get(&index_0_val);
    assert_eq!(item_0, Some(&0));

    let index_1_val = index_1.unwrap();
    let item_1 = arena.get(&index_1_val);
    assert_eq!(item_1, Some(&1));

    let item_0 = arena.get_mut(&index_0_val);
    assert_eq!(item_0, Some(&mut 0));
    let item_0 = item_0.unwrap();
    *item_0 = 25;

    let item_0 = arena.get(&index_0_val);
    assert_eq!(item_0, Some(&25));

    let item_1 = arena.get_mut(&index_1_val);
    assert_eq!(item_1, Some(&mut 1));
    let item_1 = item_1.unwrap();
    *item_1 = -78;

    let item_1 = arena.get(&index_1_val);
    assert_eq!(item_1, Some(&-78));

    assert_eq!(arena.cap(), 2);
    assert_eq!(arena.insert(0), Err(ArenaOOM {}));

    let old_cap = arena.cap();
    let to_reserve = 100;
    arena.reserve(to_reserve);
    // the fresh run becomes the head of the free chain
    for ele in 0..to_reserve {
        assert_eq!(
            arena.insert(0),
            Ok(Index {
                idx: old_cap + ele,
                generation: (old_cap + ele) as u64
            })
        )
    }
    assert_eq!(arena.cap(), old_cap + to_reserve);
    assert_eq!(arena.insert(0), Err(ArenaOOM {}));
}

#[test]
fn arena_remove() {
    let mut arena = Arena::<i32>::new_with_cap(1);

    let index = arena.insert(0).unwrap();
    assert_eq!(arena.get(&index), Some(&0));

    assert_eq!(arena.remove(&index).unwrap(), 0);

    assert_eq!(arena.get(&index), None);

    let index = arena.insert(56).unwrap();
    assert_eq!(
        index,
        Index {
            idx: 0,
            generation: 1
        }
    );

    assert_eq!(arena.remove(&index).unwrap(), 56);
    assert!(arena.remove(&index).is_none());

    let current_gen = 2;

    let to_reserve = 5;
    arena.reserve(to_reserve);
    // new free chain head is 1 (1 -> 2 -> 3 -> 4 -> 5 -> 0)
    for ele in 0..to_reserve + 1 {
        if ele == to_reserve {
            assert_eq!(
                arena.insert(0),
                Ok(Index {
                    idx: 0,
                    generation: (current_gen + ele) as u64
                })
            )
        } else {
            assert_eq!(
                arena.insert(0),
                Ok(Index {
                    idx: ele + 1,
                    generation: (current_gen + ele) as u64
                })
            )
        }
    }
}

#[test]
fn arena_stale_index_rejection() {
    let mut arena = Arena::<i32>::new_with_cap(1);
    let index = arena.insert(7).unwrap();
    assert_eq!(arena.remove(&index), Some(7));
    assert_eq!(arena.get(&index), None);
    assert!(arena.remove(&index).is_none());

    // the slot is reused under a strictly greater generation, so the old
    // handle must never resolve to the new occupant
    let reused = arena.insert(8).unwrap();
    assert_eq!(reused.idx, index.idx);
    assert_ne!(reused.generation, index.generation);
    assert_eq!(arena.get(&index), None);
    assert_eq!(arena.remove(&index), None);
    assert_eq!(arena.get(&reused), Some(&8));
    assert_eq!(arena.remove(&reused), Some(8));
}
