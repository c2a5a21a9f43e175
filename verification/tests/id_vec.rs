use id_vec::{Id, IdVec};

fn collect_elements<T: Clone>(map: &IdVec<T>) -> Vec<T> {
    let mut out = Vec::new();
    let mut it = map.elements();
    while let Some(element) = it.next() {
        out.push(element.clone());
    }
    out
}

fn collect_elements_rev<T: Clone>(map: &IdVec<T>) -> Vec<T> {
    let mut out = Vec::new();
    let mut it = map.elements();
    while let Some(element) = it.next_back() {
        out.push(element.clone());
    }
    out
}

fn collect_ids<T>(map: &IdVec<T>) -> Vec<usize> {
    let mut out = Vec::new();
    let mut it = map.ids();
    while let Some(id) = it.next() {
        out.push(id.index_value());
    }
    out
}

fn collect_ids_rev<T>(map: &IdVec<T>) -> Vec<usize> {
    let mut out = Vec::new();
    let mut it = map.ids();
    while let Some(id) = it.next_back() {
        out.push(id.index_value());
    }
    out
}

#[test]
pub fn vec_test_from_iterator() {
    let vec = vec![0, 1, 2, 5];
    let map = IdVec::from_vec(vec.into_iter().collect());
    assert_eq!(map.slot_count(), 4);
    assert_eq!(collect_elements(&map), vec![0, 1, 2, 5]);
}

#[test]
pub fn vec_test_from_vec() {
    let vec = vec![0, 1, 2, 5];
    let map = IdVec::from_vec(vec);
    assert_eq!(map.slot_count(), 4);
    assert_eq!(collect_elements(&map), vec![0, 1, 2, 5]);
}

#[test]
pub fn vec_test_from_macro() {
    let map = IdVec::from_vec(vec![0, 1, 2, 5]);
    assert_eq!(map.slot_count(), 4);
    assert_eq!(collect_elements(&map), vec![0, 1, 2, 5]);
}

#[test]
pub fn vec_test_insert_and_remove_single_element() {
    let mut map = IdVec::new();

    let id_0 = map.insert(0);
    {
        assert_eq!(map.len(), 1, "map length after inserting");
        assert!(!map.is_empty(), "map emptiness after inserting");
        assert!(map.contains_id(id_0), "containing `0` after inserting `0`");
        assert_eq!(map.get(id_0), Some(&0), "indexing `Some` after inserting `0`");
    }

    map.remove(id_0);
    {
        assert_eq!(map.get(id_0), None, "indexing `None` after deleting");
        assert_eq!(map.len(), 0, "map length after deleting");
        assert!(!map.contains_id(id_0), "not containing `0` after removing `0`");
        assert!(map.is_empty(), "map emptiness after deleting");
    }

    let id_1 = map.insert(1);
    {
        assert!(map.contains_id(id_0), "containing overwritten `0` after inserting `1` into deleted slot");
        assert!(map.contains_id(id_1), "containing `1` after inserting `1` into deleted slot");
        assert_eq!(map.get(id_1), Some(&1), "indexing `Some` after inserting into deleted slot");
        assert_eq!(map.get(id_0), Some(&1), "reusing unused id (old id pointing to new element)");
        assert_eq!(map.len(), 1, "map length after inserting into deleted slot");
        assert!(!map.is_empty(), "map emptiness after inserting into deleted slot");
    }
}

#[test]
pub fn vec_test_insert_and_remove_multiple_elements() {
    let mut map = IdVec::new();
    let len: usize = 42;

    for i in 0..42 {
        assert!(!map.contains_id(Id::from_index(i)), "unused it being invalid");
        let id = map.insert(i);
        assert!(map.contains_id(id), "used id being valid");
    }

    assert_eq!(map.len(), len, "map length after inserting multiple elements");

    loop {
        let remaining = {
            let mut it = map.ids();
            it.next()
        };
        match remaining {
            Some(remaining_id) => {
                assert!(map.contains_id(remaining_id), "used id being valid");
                map.remove(remaining_id);
                assert!(!map.contains_id(remaining_id), "unused it being invalid");
            }
            None => break,
        }
    }
}

#[test]
pub fn vec_test_pop() {
    let mut map = IdVec::from_vec(vec![0, 2, 5]);
    assert_eq!(map.pop(), Some((Id::from_index(2), 5)), "`pop()` returning the last element");
    assert!(map.is_packed(), "`pop()`not inserting into `unused_ids`");

    map.remove(Id::from_index(0));
    assert!(!map.is_empty());
    assert!(!map.is_packed());

    assert_eq!(map.pop(), Some((Id::from_index(1), 2)));
    assert!(map.is_empty(), "`pop()` clearing the map");
    assert!(map.is_packed(), "`pop()` removing unused ids at the back");

    assert_eq!(map.pop(), None, "`pop()` returning `None` from map");
    assert!(map.is_empty());
}

#[test]
pub fn vec_test_into_iterator() {
    let map = IdVec::from_vec(vec![0, 2, 3, 4]);

    let mut collected = Vec::new();
    let mut it = map.into_elements();
    while let Some(element) = it.next() {
        collected.push(element);
    }
    assert_eq!(collected, vec![0, 2, 3, 4], "into_iterator containing all elements");
}

#[test]
pub fn vec_test_drain() {
    let mut map = IdVec::from_vec(vec![0, 1, 2, 3]);
    assert_eq!(map.drain_elements().next(), Some(0));
    assert!(map.is_empty(), "aborting drain clears map");

    // test element in the middle removed
    map.insert(12);
    map.insert(4);
    map.insert(5);
    map.remove(Id::from_index(1));
    let mut drained = Vec::new();
    let mut it = map.drain_elements();
    while let Some(element) = it.next() {
        drained.push(element);
    }
    assert_eq!(drained, vec![12, 5]);

    // test first and last element removed
    map.insert(14);
    map.insert(44);
    map.insert(500);
    map.remove(Id::from_index(0));
    map.remove(Id::from_index(2));
    let mut drained = Vec::new();
    let mut it = map.drain_elements();
    while let Some(element) = it.next() {
        drained.push(element);
    }
    assert_eq!(drained, vec![44]);
}

#[test]
pub fn test_contains_element() {
    let map = IdVec::from_vec(vec![0, 1, 2, 3]);
    assert!(map.contains_element(&2), "containing element");
    assert!(!map.contains_element(&4), "not containing element");
}

#[test]
pub fn vec_test_into_iterator_with_deleted_elements() {
    let mut map = IdVec::new();
    let zero = map.insert(0);
    let two = map.insert(2);
    map.insert(3);
    map.insert(4);

    map.remove(zero);
    map.remove(two);

    let mut collected = Vec::new();
    let mut it = map.into_elements();
    while let Some(element) = it.next() {
        collected.push(element);
    }
    assert_eq!(collected, vec![3, 4], "into_iter containing only non-removed elements");
}

#[test]
pub fn vec_test_elements_iter() {
    let mut map = IdVec::from_vec(vec![0, 1, 2, 5]);

    map.remove(Id::from_index(1));
    assert_eq!(map.len(), 3, "removing decrements len");
    assert!(!map.is_packed());

    assert_eq!(
        collect_elements(&map),
        vec![0, /*deleted 1,*/ 2, 5],
        "iter non-removed elements"
    );

    assert_eq!(
        collect_elements_rev(&map),
        vec![5, /*deleted 1,*/ 2, 0],
        "double ended element iter"
    );

    assert_eq!(
        collect_ids(&map),
        vec![0, /*deleted 1,*/ 2, 3],
        "iter non-removed ids"
    );

    assert_eq!(
        collect_ids_rev(&map),
        vec![3, /*deleted 1,*/ 2, 0],
        "double ended id iter"
    );

    let mut owned = Vec::new();
    let mut it = map.get_ids();
    while let Some(id) = it.next() {
        let (_old_id, element) = map.pop().unwrap();
        map.insert(element);
        owned.push(id.index_value());
    }
    assert_eq!(owned, vec![0, /*deleted 1,*/ 2, 3], "owning id iter");
}

#[test]
pub fn test_deleted_elements_iter() {
    let mut map = IdVec::from_vec(vec![0, 1, 2, 5]);

    // remove first and last element
    map.remove(Id::from_index(0));
    map.pop();

    assert_eq!(collect_elements(&map), vec![1, 2], "iter non-removed elements");
    assert_eq!(collect_elements_rev(&map), vec![2, 1], "double ended element iter");
    assert_eq!(collect_ids(&map), vec![1, 2], "iter non-removed ids");
    assert_eq!(collect_ids_rev(&map), vec![2, 1], "double ended id iter");

    let mut owned = Vec::new();
    let mut it = map.get_ids();
    while let Some(id) = it.next() {
        let (_old_id, element) = map.pop().unwrap();
        map.insert(element);
        owned.push(id.index_value());
    }
    assert_eq!(owned, vec![1, 2], "owning id iter");
}

/// Eq considers maps equal which have
/// the same ids pointing to the same elements
#[test]
pub fn vec_test_eq() {
    let mut map1 = IdVec::from_vec(vec![0, 2, 2, 4, 4]);
    let mut map2 = IdVec::from_vec(vec![1, 2, 3, 4, 5]);

    map1.remove(Id::from_index(0));
    map1.remove(Id::from_index(2));
    map1.remove(Id::from_index(4));
    assert_ne!(map1, map2);

    map2.remove(Id::from_index(4));
    map2.remove(Id::from_index(0));
    map2.remove(Id::from_index(2));
    assert_eq!(map1, map2);
}

#[test]
pub fn vec_test_elements_eq() {
    let map1 = IdVec::from_vec(vec![3, 4, 2, 5, 1]);
    let mut map2 = IdVec::from_vec(vec![1, 2, 3, 4, 5]);
    assert!(map1.elements_eq(&map2));

    map2.pop();
    assert!(!map1.elements_eq(&map2));
}

#[test]
pub fn vec_test_ids_eq() {
    let mut map1 = IdVec::from_vec(vec![3, 4, 2, 5, 1]);
    let mut map2 = IdVec::from_vec(vec![1, 2, 3, 4, 5]);

    map1.remove(Id::from_index(0));
    map1.remove(Id::from_index(3));
    assert!(!map1.ids_eq(&map2));

    map2.remove(Id::from_index(0));
    map2.remove(Id::from_index(3));
    assert!(map1.ids_eq(&map2));
}

#[test]
pub fn vec_test_swap() {
    let mut map = IdVec::from_vec(vec![1, 2, 3]);

    map.swap_elements(Id::from_index(0), Id::from_index(1));

    assert_eq!(collect_elements(&map), vec![2, 1, 3]);
}

#[test]
pub fn test_retain() {
    let mut map = IdVec::from_vec(vec![1, 2, 3, 4, 5, 6]);
    map.retain(|_id, elem| elem % 2 == 0);

    assert_eq!(collect_elements(&map), vec![2, 4, 6]);
}

#[test]
pub fn test_iter_size_hint() {
    let mut map = IdVec::from_vec(vec![1, 2, 3, 4, 5, 6]);

    assert_eq!(map.iter().size_hint(), (6, Some(6)));
    assert_eq!(map.ids().size_hint(), (6, Some(6)));
    assert_eq!(map.elements().size_hint(), (6, Some(6)));
    assert_eq!(map.get_ids().size_hint(), (6, Some(6)));
    assert_eq!(map.clone().into_elements().size_hint(), (6, Some(6)));

    map.remove(Id::from_index(1));
    map.remove(Id::from_index(3));

    assert_eq!(map.iter().size_hint(), (4, Some(6)));
    assert_eq!(map.ids().size_hint(), (4, Some(6)));
    assert_eq!(map.elements().size_hint(), (4, Some(6)));
    assert_eq!(map.get_ids().size_hint(), (4, Some(6)));

    // exact size:
    assert_eq!(map.clone().into_elements().size_hint(), (4, Some(4)));
    {
        let mut cloned = map.clone();
        let mut drain = cloned.drain_elements();
        let drain_size = drain.size_hint();
        assert_eq!(drain_size, (4, Some(4)));
        while let Some(_) = drain.next() {}
    }
}

#[test]
pub fn test_packing() {
    let mut map = IdVec::from_vec(vec![0, 1, 2, 3, 4, 5, 6]);
    assert_eq!(map.slot_count(), 7);
    assert!(map.contains_element(&2));
    assert!(map.contains_element(&3));
    assert!(map.is_packed());

    map.remove(Id::from_index(1));
    map.remove(Id::from_index(2));
    map.remove(Id::from_index(4));

    assert_eq!(map.len(), 4);
    assert_eq!(map.slot_count(), 7);
    assert!(!map.contains_element(&2));
    assert!(map.contains_element(&3));
    assert!(!map.is_packed());

    map.pack(|old_id, new_id| {
        assert!([4, 5, 6].contains(&old_id.index_value())); // popped element indices
        assert!([1, 2, 4].contains(&new_id.index_value())); // previously empty slots
    });

    assert!(!map.contains_element(&2));
    assert!(map.contains_element(&0));
    assert!(map.contains_element(&3));

    assert!(map.is_packed());
    assert_eq!(map.len(), 4);
    assert_eq!(map.slot_count(), 4);
}
