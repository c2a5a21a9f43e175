use id_vec::{Id, IdVec};

#[test]
pub fn internal_index() {
    for index in 0..32 {
        let id: Id<f32> = Id::from_index(index);
        let eq_id: Id<f32> = Id::from_index(index);
        let non_eq_id: Id<f32> = Id::from_index(index + 1);

        assert_eq!(id, eq_id);
        assert_ne!(id, non_eq_id);
        assert_eq!(id.index_value(), index);
    }
}

#[test]
fn nodes() {
    #[derive(Debug)]
    struct Node {
        parent: Option<Id<Node>>,
        name: String,
    }

    let mut nodes = IdVec::new();

    let root: Id<Node> = nodes.insert(Node {
        parent: None,
        name: String::from("Root"),
    });

    let orphan = nodes.insert(Node {
        parent: None,
        name: String::from("Orphan"),
    });

    let child = nodes.insert(Node {
        parent: Some(root),
        name: String::from("Child"),
    });

    println!("{:?}", nodes);

    // run a basic garbage collector,
    // keeping all objects which have a parent, and the root itself
    {
        nodes.retain(|node_id, node| node_id == root || node.parent.is_some());

        // attention! the orphan was removed and thus its id becomes invalid!
        assert!(!nodes.contains_id(orphan));
        assert!(nodes.contains_id(root));
        assert!(nodes.contains_id(child));
        assert_eq!(nodes.get(root).unwrap().name, "Root");
    }

    // create a cyclic graph
    {
        // to dereference the node, we access through the id
        let root_mut = root.of_mut(&mut nodes);

        // creating a cycle is possible
        root_mut.parent = Some(child);
    }
    assert_eq!(root.of(&nodes).parent, Some(child));
}

#[test]
fn example1() {
    let map = IdVec::from_vec(vec!["hello", "world"]);
    assert!(map.contains_element(&"hello"));
    println!("{:?}", map);
}

#[test]
fn example2() {
    let mut words = IdVec::new();

    let id_hello = words.insert("hello");
    let _id_world = words.insert("world");

    println!("{:?} -> {:?}", id_hello, words.get(id_hello));
    assert_eq!(words.get(id_hello), Some(&"hello"));

    words.remove(id_hello);
    assert_eq!(words.get(id_hello), None);
}

/// Insert four elements from an initial sequence, remove the one at index 1,
/// and watch length, order and both directions of iteration.
#[test]
fn scenario_initial_sequence_and_removal() {
    let mut arena = IdVec::from_vec(vec![0, 1, 2, 5]);
    assert_eq!(arena.len(), 4);

    arena.remove(Id::from_index(1));
    assert_eq!(arena.len(), 3);

    let mut forward = Vec::new();
    let mut it = arena.elements();
    while let Some(e) = it.next() {
        forward.push(*e);
    }
    assert_eq!(forward, vec![0, 2, 5]);

    let mut backward = Vec::new();
    let mut it = arena.elements();
    while let Some(e) = it.next_back() {
        backward.push(*e);
    }
    assert_eq!(backward, vec![5, 2, 0]);

    let mut reversed = forward.clone();
    reversed.reverse();
    assert_eq!(reversed, backward);
}

/// Insert six elements, remove two by id, and pack: the arena ends with no
/// dead slots, the same count of elements, and every remap call names a
/// previously dead slot as the new id.
#[test]
fn scenario_pack_after_removals() {
    let mut arena = IdVec::from_vec(vec![1, 2, 3, 4, 5, 6]);
    assert_eq!(arena.len(), 6);

    arena.remove(Id::from_index(1));
    arena.remove(Id::from_index(3));
    assert_eq!(arena.len(), 4);
    assert!(!arena.is_packed());

    arena.pack(|old_id, new_id| {
        assert!(
            [1usize, 3].contains(&new_id.index_value()),
            "moved into a previously dead slot"
        );
        assert!(old_id.index_value() > new_id.index_value());
    });

    assert!(arena.is_packed());
    assert_eq!(arena.len(), 4);
    assert_eq!(arena.slot_count(), 4);

    // The surviving elements are exactly the ones that were alive.
    let mut survivors = Vec::new();
    let mut it = arena.elements();
    while let Some(e) = it.next() {
        survivors.push(*e);
    }
    survivors.sort();
    assert_eq!(survivors, vec![1, 3, 5, 6]);
}

/// An old id silently aliases a newly inserted value after remove-then-insert:
/// the index-reuse hazard of the no-generation design, asserted deliberately.
#[test]
fn scenario_stale_id_aliases_reused_slot() {
    let mut arena = IdVec::from_vec(vec![10, 20, 30]);
    let stale = Id::from_index(1);

    arena.remove(stale);
    assert_eq!(arena.get(stale), None);

    let fresh = arena.insert(99);
    assert_eq!(fresh.index_value(), 1, "the dead slot is reused");
    assert_eq!(arena.get(stale), Some(&99), "the stale id aliases the new value");
}

/// A partially consumed draining iterator still leaves the arena empty.
#[test]
fn scenario_drain_and_abort() {
    let mut arena = IdVec::from_vec(vec![7, 8, 9, 10]);
    {
        let mut drain = arena.drain_elements();
        assert_eq!(drain.next(), Some(7));
        assert_eq!(drain.next(), Some(8));
        // dropped here, only half consumed
    }
    assert!(arena.is_empty());
    assert_eq!(arena.len(), 0);
    assert!(arena.is_packed());
}

/// `get_mut`, `swap_elements`, `clear`, `shrink_to_fit` and `reserve` on a
/// small arena.
#[test]
fn mutation_round_trip() {
    let mut arena = IdVec::with_capacity(8);
    let a = arena.insert(String::from("a"));
    let b = arena.insert(String::from("b"));

    *arena.get_mut(a).unwrap() = String::from("z");
    assert_eq!(arena.get(a), Some(&String::from("z")));
    assert_eq!(arena.get_mut(Id::from_index(9)), None);

    arena.swap_elements(a, b);
    assert_eq!(arena.get(a), Some(&String::from("b")));
    assert_eq!(arena.get(b), Some(&String::from("z")));

    arena.reserve(100);
    arena.shrink_to_fit();
    assert_eq!(arena.len(), 2);

    let found = arena.find_id_of_element(&String::from("z")).unwrap();
    assert_eq!(found, b);
    assert_eq!(arena.find_id_of_element(&String::from("nope")), None);

    arena.clear();
    assert!(arena.is_empty());
    assert_eq!(arena.get(a), None);
    assert_eq!(arena.pop_element(), None);
}

/// Removing out-of-range or already-dead ids is a no-op, and removing the
/// last slot cascades over dead slots it guarded.
#[test]
fn remove_edge_cases() {
    let mut arena = IdVec::from_vec(vec![1, 2, 3]);

    arena.remove(Id::from_index(17));
    assert_eq!(arena.len(), 3);

    arena.remove(Id::from_index(1));
    arena.remove(Id::from_index(1));
    assert_eq!(arena.len(), 2);
    assert_eq!(arena.slot_count(), 3);

    // removing the guard at the end also reclaims the dead slot before it
    arena.remove(Id::from_index(2));
    assert_eq!(arena.slot_count(), 1);
    assert_eq!(arena.len(), 1);
    assert!(arena.is_packed());
}

#[test]
fn pop_element_returns_highest() {
    let mut arena = IdVec::from_vec(vec![4, 5, 6]);
    assert_eq!(arena.pop_element(), Some(6));
    assert_eq!(arena.pop_element(), Some(5));
    assert_eq!(arena.pop_element(), Some(4));
    assert_eq!(arena.pop_element(), None);
}

#[test]
fn try_of_access() {
    let mut arena = IdVec::from_vec(vec![100, 200]);
    let id = Id::from_index(0);
    assert_eq!(id.try_of(&arena), Some(&100));
    assert_eq!(id.of(&arena), &100);
    *id.try_of_mut(&mut arena).unwrap() = 101;
    assert_eq!(id.of(&arena), &101);
    assert_eq!(Id::from_index(5).try_of(&arena), None);
}

/// With several dead slots, an insert revives one of them (whichever the
/// strategy picks) rather than growing the vector.
#[test]
fn insert_reuses_some_dead_slot() {
    let mut arena = IdVec::from_vec(vec![1, 2, 3, 4]);
    arena.remove(Id::from_index(0));
    arena.remove(Id::from_index(2));
    assert_eq!(arena.len(), 2);

    let id = arena.insert(9);
    assert!(id.index_value() == 0 || id.index_value() == 2);
    assert_eq!(arena.get(id), Some(&9));
    assert_eq!(arena.len(), 3);
    assert_eq!(arena.slot_count(), 4, "no new slot was appended");
}
