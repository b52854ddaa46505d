use lru_cache::arena::Index;
use lru_cache::err::{ArenaOOM, ListError};
use lru_cache::list::LinkedList;

/// Collects the list's values head first by walking the `next` links.
fn to_vec(list: &LinkedList<i32>) -> Vec<i32> {
    let mut out = Vec::new();
    let mut cur = list.head;
    while let Some(index) = cur {
        let node = list.arena.get(&index).unwrap();
        out.push(node.value);
        cur = node.next;
    }
    out
}

#[test]
fn list_new() {
    let list = LinkedList::<i32>::new();
    assert!(list.is_empty());
    assert!(list.is_full());
}

#[test]
fn list_push_front() {
    let capacity = 10;
    let mut list = LinkedList::<i32>::new_with_cap(capacity);
    for ele in 0..capacity {
        assert!(list.push_front(ele as i32, 0).is_ok());
    }

    let mut i = capacity as i32 - 1;
    for ele in to_vec(&list) {
        assert_eq!(ele, i);
        i -= 1;
    }
}

#[test]
fn list_reposition_to_head() {
    let capacity = 5;

    let mut list = LinkedList::<i32>::new_with_cap(capacity);
    assert!(list.is_empty());

    for ele in 0..capacity {
        list.push_back(ele as i32, 0).unwrap();
    }
    assert_eq!(to_vec(&list), vec![0, 1, 2, 3, 4]);

    // [0, 1, 2, 3, 4] --> [2, 3, 4, 0, 1]
    for _ in capacity / 2..capacity {
        let tail = list.tail.unwrap();
        list.reposition_to_head(&tail, 0).unwrap();
    }
    assert_eq!(to_vec(&list), vec![2, 3, 4, 0, 1]);

    let mut i = 0;
    let mut rh = 0 as i32;
    let mut lh = capacity as i32 / 2;
    for ele in to_vec(&list) {
        if i <= (capacity / 2) {
            assert_eq!(ele, lh);
            lh += 1;
        } else {
            assert_eq!(ele, rh);
            rh += 1;
        }
        i += 1
    }

    let mut list = LinkedList::<i32>::new_with_cap(2);
    // [0]
    let index_0 = list.push_back(0, 0).unwrap();
    let index_0_another = list.reposition_to_head(&index_0, 0).unwrap();
    assert_ne!(Some(index_0), Some(index_0_another));
    assert_eq!(Some(index_0_another), list.head);
    assert_eq!(Some(index_0_another), list.tail);

    // [0, 1]
    let index_1 = list.push_back(1, 0).unwrap();
    // [1, 0]
    let index_1_another = list.reposition_to_head(&index_1, 0).unwrap();

    assert_eq!(list.head, Some(index_1_another));
    assert_eq!(list.tail, Some(index_0_another));

    list.reserve(1);
    // [1, 0, 2]
    list.push_back(2, 0).unwrap();
    // [0, 1, 2]
    list.reposition_to_head(&index_0_another, 0).unwrap();

    assert_eq!(to_vec(&list), vec![0, 1, 2]);
}

#[test]
fn list_pop_front() {
    let capacity = 10;
    let mut list = LinkedList::<i32>::new_with_cap(capacity);

    assert_eq!(list.pop_front(), Err(ListError::ListEmpty));

    for ele in 0..capacity {
        assert!(list.push_back(ele as i32, 0).is_ok());
    }

    for ele in 0..capacity {
        assert_eq!(list.pop_front().unwrap(), ele as i32);
    }

    assert!(list.is_empty());
    assert_eq!(list.pop_front(), Err(ListError::ListEmpty));
}

#[test]
fn list_pop_back() {
    let capacity = 10;
    let mut list = LinkedList::<i32>::new_with_cap(capacity);

    assert_eq!(list.pop_back(), Err(ListError::ListEmpty));

    for ele in 0..capacity {
        assert!(list.push_front(ele as i32, 0).is_ok());
    }

    for ele in 0..capacity {
        assert_eq!(list.pop_back().unwrap(), ele as i32);
    }

    assert!(list.is_empty());
    assert_eq!(list.pop_back(), Err(ListError::ListEmpty));
}

#[test]
fn list_remove() {
    let mut list = LinkedList::<i32>::new_with_cap(5);
    assert!(list.is_empty());

    let link_0 = list.push_front(0, 0).unwrap();
    let _link_1 = list.push_front(1, 0).unwrap();
    let link_2 = list.push_front(2, 0).unwrap();
    let _link_3 = list.push_front(3, 0).unwrap();
    let link_4 = list.push_front(4, 0).unwrap();
    assert!(list.is_full());
    assert_eq!(to_vec(&list), vec![4, 3, 2, 1, 0]);

    assert!(list.remove(&link_0).is_ok());
    assert_eq!(list.len(), 4);
    assert_eq!(to_vec(&list), vec![4, 3, 2, 1]);

    assert!(list.remove(&link_4).is_ok());
    assert_eq!(list.len(), 3);
    assert_eq!(to_vec(&list), vec![3, 2, 1]);

    assert!(list.remove(&link_2).is_ok());
    assert_eq!(list.len(), 2);
    assert_eq!(to_vec(&list), vec![3, 1]);
}

#[test]
fn list_retire() {
    let capacity = 10;
    let mut list = LinkedList::<i32>::new_with_cap_timeout(capacity, 1000);
    for ele in 0..5 {
        assert!(list.push_front(ele as i32, 0).is_ok());
    }

    // half the time-to-live has passed
    assert_eq!(list.len(), 5);

    for ele in 0..5 {
        assert!(list.push_front(5 + ele as i32, 500).is_ok());
    }
    assert_eq!(list.len(), 10);

    assert!(list.retire(500).is_ok());
    assert!(list.retire(500).unwrap().is_none());
    assert_eq!(list.len(), 10);

    // the first batch has now reached its expiry
    assert_eq!(list.retire(1000).unwrap().unwrap(), vec![0, 1, 2, 3, 4]);
    assert_eq!(list.len(), 5);
    assert_eq!(list.pop_back().unwrap(), 5);

    // and now the second batch too
    assert_eq!(list.retire(1500).unwrap().unwrap(), vec![6, 7, 8, 9]);
    assert_eq!(list.len(), 0);

    assert!(list.retire(1500).unwrap().is_none());
}

#[test]
fn list_retire_and_reposition_to_head() {
    let capacity = 5;
    let mut list = LinkedList::<i32>::new_with_cap_timeout(capacity, 1000);

    let mut live_index = list.head;
    for ele in 0..capacity {
        let index = list.push_front(ele as i32, 0).unwrap();
        // remember the middle node
        if ele == capacity / 2 {
            live_index = Some(index);
        }
    }
    assert_eq!(list.len(), capacity);

    // every node has reached its expiry by now; refresh the middle one
    let live_index = list.reposition_to_head(&live_index.unwrap(), 1000).unwrap();
    assert_eq!(*list.get(&live_index).unwrap(), capacity as i32 / 2);
    assert_eq!(list.head.unwrap(), live_index);

    // retire the remaining capacity - 1 nodes
    assert!(list.retire(1000).is_ok());
    assert_eq!(list.len(), 1);
    assert_eq!(to_vec(&list), vec![capacity as i32 / 2]);
}

#[test]
fn list_stale_handle_is_link_broken() {
    let mut list = LinkedList::<i32>::new_with_cap(2);
    let a = list.push_front(1, 0).unwrap();
    assert_eq!(list.remove(&a), Ok(1));
    let _b = list.push_front(2, 0).unwrap();
    // the freed handle must not reach whatever reused its slot
    assert_eq!(list.remove(&a), Err(ListError::LinkBroken));
    assert_eq!(list.len(), 1);
}

#[test]
fn list_push_out_of_memory() {
    let mut list = LinkedList::<i32>::new_with_cap(1);
    assert!(list.push_front(1, 0).is_ok());
    assert_eq!(
        list.push_front(2, 0),
        Err(ListError::ListOOM(ArenaOOM {}))
    );
    assert_eq!(
        list.push_back(2, 0),
        Err(ListError::ListOOM(ArenaOOM {}))
    );
    assert_eq!(list.len(), 1);
}

#[test]
fn list_peek() {
    let mut list = LinkedList::<i32>::new_with_cap(3);
    assert_eq!(list.peek_front(), Err(ListError::ListEmpty));
    assert_eq!(list.peek_back(), Err(ListError::ListEmpty));
    list.push_front(1, 0).unwrap();
    list.push_back(2, 0).unwrap();
    assert_eq!(list.peek_front(), Ok(&1));
    assert_eq!(list.peek_back(), Ok(&2));
}

#[test]
fn list_get_mut_updates_value_only() {
    let mut list = LinkedList::<i32>::new_with_cap(2);
    let a = list.push_front(1, 0).unwrap();
    let b = list.push_front(2, 0).unwrap();
    *list.get_mut(&a).unwrap() = 5;
    assert_eq!(*list.get(&a).unwrap(), 5);
    assert_eq!(*list.get(&b).unwrap(), 2);
    assert!(list
        .get_mut(&Index {
            idx: 7,
            generation: 9
        })
        .is_err());
    assert_eq!(to_vec(&list), vec![2, 5]);
}

#[test]
fn list_expiry_boundary() {
    // pushed at 5 with a time-to-live of 10, a node expires exactly at 15
    let mut list = LinkedList::<i32>::new_with_cap_timeout(1, 10);
    list.push_front(1, 5).unwrap();
    assert!(list.retire(14).unwrap().is_none());
    assert_eq!(list.len(), 1);
    assert_eq!(list.retire(15).unwrap().unwrap(), vec![1]);
    assert_eq!(list.len(), 0);
}
