use id_vec::{BitVecElementMarker, ElementMarker, HashSetElementMarker};

fn exercise_marker<M: ElementMarker>(mut marker: M)
where
    M: ElementMarker,
{
    // never-seen indices count as used
    assert!(marker.element_is_used(0));
    assert!(marker.element_is_used(7));
    assert_eq!(marker.unused_element_count(), 0);

    // mark three indices unused; the previous value comes back each time
    assert!(marker.mark_element_used(2, false));
    assert!(marker.mark_element_used(5, false));
    assert!(marker.mark_element_used(7, false));
    assert_eq!(marker.unused_element_count(), 3);
    assert!(!marker.element_is_used(2));
    assert!(marker.element_is_used(3));

    // marking with the same value twice is a no-op on state
    assert!(!marker.mark_element_used(5, false));
    assert_eq!(marker.unused_element_count(), 3);

    // revive one
    assert!(!marker.mark_element_used(5, true));
    assert!(marker.element_is_used(5));
    assert_eq!(marker.unused_element_count(), 2);

    // capacity hints change nothing
    marker.reserve_elements(100);
    marker.shrink_to_fit();
    assert_eq!(marker.unused_element_count(), 2);

    // clearing resets to everything used
    marker.clear();
    assert_eq!(marker.unused_element_count(), 0);
    assert!(marker.element_is_used(2));
    assert!(marker.element_is_used(7));
}

#[test]
fn hash_set_marker_lifecycle() {
    exercise_marker(HashSetElementMarker::with_element_capacity(4));
}

#[test]
fn bit_vec_marker_lifecycle() {
    exercise_marker(BitVecElementMarker::with_element_capacity(4));
}

#[test]
fn hash_set_marker_unused_iteration() {
    let mut marker = HashSetElementMarker::with_element_capacity(0);
    marker.mark_element_used(1, false);
    marker.mark_element_used(4, false);
    marker.mark_element_used(6, false);

    let mut seen = Vec::new();
    let mut it = marker.unused_elements();
    let hint = it.size_hint();
    assert_eq!(hint, (3, Some(3)));
    while let Some(index) = it.next() {
        seen.push(index);
    }
    seen.sort();
    assert_eq!(seen, vec![1, 4, 6]);
}

#[test]
fn bit_vec_marker_unused_iteration() {
    let mut marker = BitVecElementMarker::with_element_capacity(0);
    marker.mark_element_used(1, false);
    marker.mark_element_used(4, false);
    marker.mark_element_used(6, false);

    let mut seen = Vec::new();
    let mut it = marker.unused_elements();
    let hint = it.size_hint();
    assert_eq!(hint, (3, Some(3)));
    while let Some(index) = it.next() {
        seen.push(index);
    }
    // the bitmap scans in ascending order
    assert_eq!(seen, vec![1, 4, 6]);
    assert_eq!(it.next(), None);
}

#[test]
fn marker_clones_and_defaults() {
    let mut marker = HashSetElementMarker::default();
    marker.mark_element_used(3, false);
    let mut copy = marker.clone();
    assert!(!copy.element_is_used(3));
    copy.mark_element_used(3, true);
    assert!(copy.element_is_used(3));
    assert!(!marker.element_is_used(3));

    let mut bitmap = BitVecElementMarker::default();
    bitmap.mark_element_used(2, false);
    let mut bitmap_copy = bitmap.clone();
    assert!(!bitmap_copy.element_is_used(2));
    bitmap_copy.mark_element_used(2, true);
    assert!(bitmap_copy.element_is_used(2));
    assert!(!bitmap.element_is_used(2));
}
