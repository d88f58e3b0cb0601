use lib::map::{IdMap, Mappable, MappedItem, INVALID_ID};
use lib::queue::{Queue, SortedQueue};

fn item(v: u32) -> MappedItem<u32> {
    MappedItem::new(v)
}

#[test]
fn mapped_item_starts_without_an_identifier() {
    let mut a = item(7);
    assert_eq!(a.id(), INVALID_ID);
    assert_eq!(*a, 7);
    *a.data_mut() = 8;
    a.set_id(3);
    assert_eq!(a.id(), 3);
    assert_eq!(*a, 8);
}

#[test]
fn map_hands_out_increasing_identifiers() {
    let mut map: IdMap<MappedItem<u32>> = IdMap::new();
    assert_eq!(map.insert(item(10)), 0);
    assert_eq!(map.insert(item(11)), 1);
    assert_eq!(map.insert(item(12)), 2);
    assert_eq!(map.count(), 3);
    assert_eq!(**map.get(1).unwrap(), 11);
    assert_eq!(map.get(1).unwrap().id(), 1);
    assert!(map.get(5).is_none());
}

#[test]
fn map_with_starting_index() {
    let mut map: IdMap<MappedItem<u32>> = IdMap::with_starting_index(100);
    assert_eq!(map.insert(item(1)), 100);
    assert_eq!(map.insert(item(2)), 101);
    assert_eq!(map.ids(), vec![100, 101]);
}

#[test]
fn map_remove_then_get_is_none() {
    let mut map: IdMap<MappedItem<u32>> = IdMap::new();
    let a = map.insert(item(1));
    let b = map.insert(item(2));
    map.remove(a);
    assert!(map.get(a).is_none());
    assert_eq!(**map.get(b).unwrap(), 2);
    assert_eq!(map.count(), 1);
    // Identifiers are not reused.
    assert_eq!(map.insert(item(3)), 2);
}

#[test]
fn map_ids_go_bucket_by_bucket() {
    let mut map: IdMap<MappedItem<u32>> = IdMap::new();
    for v in 0..40 {
        map.insert(item(v));
    }
    let ids = map.ids();
    // Identifiers 0 and 32 share the first bucket.
    assert_eq!(&ids[0..4], &[0, 32, 1, 33]);
    assert_eq!(ids.len(), 40);
    let mut walked = Vec::new();
    let mut iter = map.iter();
    while let Some(x) = iter.next() {
        walked.push(x.id());
    }
    assert_eq!(walked, ids);
}

#[test]
fn map_get_mut_changes_in_place() {
    let mut map: IdMap<MappedItem<u32>> = IdMap::new();
    let a = map.insert(item(1));
    *map.get_mut(a).unwrap().data_mut() = 42;
    assert_eq!(**map.get(a).unwrap(), 42);
    assert!(map.get_mut(9).is_none());
}

#[test]
fn map_remove_all_except_keeps_one() {
    let mut map: IdMap<MappedItem<u32>> = IdMap::new();
    for v in 0..5 {
        map.insert(item(v));
    }
    map.remove_all_except(3);
    assert_eq!(map.ids(), vec![3]);
    assert_eq!(map.count(), 1);
    map.remove_all_except(99);
    assert_eq!(map.count(), 0);
}

#[test]
fn queue_is_first_in_first_out() {
    let mut q: Queue<u32> = Queue::new();
    assert!(!q.is_front());
    q.push(1);
    q.push(2);
    q.push(3);
    assert_eq!(q._len(), 3);
    assert!(q.is_front());
    assert_eq!(q.pop(), Some(1));
    assert_eq!(q.pop(), Some(2));
    q.push(4);
    assert_eq!(q.pop(), Some(3));
    assert_eq!(q.pop(), Some(4));
    assert_eq!(q.pop(), None);
}

#[test]
fn queue_remove_takes_first_match() {
    let mut q: Queue<u32> = Queue::new();
    q.push(5);
    q.push(6);
    q.push(5);
    assert_eq!(q.remove(5), Some(5));
    assert_eq!(q._len(), 2);
    assert_eq!(q.remove(9), None);
    assert_eq!(q.pop(), Some(6));
    assert_eq!(q.pop(), Some(5));
}

#[test]
fn sorted_queue_orders_by_key_stably() {
    let mut q: SortedQueue<u64, u32> = SortedQueue::new();
    q.insert(1, 30);
    q.insert(2, 10);
    q.insert(3, 20);
    q.insert(4, 10);
    assert_eq!(q.pop(), Some(2));
    assert_eq!(q.pop(), Some(4));
    assert_eq!(q.pop(), Some(3));
    assert_eq!(q.pop(), Some(1));
    assert_eq!(q.pop(), None);
}

#[test]
fn sorted_queue_pop_le_waits_for_the_key() {
    let mut q: SortedQueue<u64, u32> = SortedQueue::new();
    q.insert(7, 100);
    assert_eq!(q.pop_le(99), None);
    assert_eq!(q.pop_le(100), Some(7));
    assert_eq!(q.pop_le(1000), None);
}

#[test]
fn sorted_queue_remove_cuts_the_queue() {
    let mut q: SortedQueue<u64, u32> = SortedQueue::new();
    q.insert(1, 1);
    q.insert(2, 2);
    q.insert(3, 3);
    // Removing an item keeps those before it and hands back the data of the next one.
    assert_eq!(q.remove(1), Some(2));
    assert_eq!(q.pop(), None);
    let mut q: SortedQueue<u64, u32> = SortedQueue::new();
    q.insert(1, 1);
    q.insert(2, 2);
    q.insert(3, 3);
    assert_eq!(q.remove(2), Some(3));
    assert_eq!(q.pop(), Some(1));
    assert_eq!(q.pop(), None);
    assert_eq!(q.remove(9), None);
}

#[test]
fn map_ids_after_a_full_round_of_buckets() {
    let mut map: IdMap<MappedItem<u32>> = IdMap::new();
    for v in 0..33 {
        assert_eq!(map.insert(item(v)), v as isize);
    }
    let mut expected = vec![0, 32];
    expected.extend(1..32);
    assert_eq!(map.ids(), expected);
    assert_eq!(map.count(), 33);
}

#[test]
fn map_count_follows_insert_and_remove() {
    let mut map: IdMap<MappedItem<u32>> = IdMap::with_starting_index(5);
    assert_eq!(map.count(), 0);
    assert!(map.ids().is_empty());
    let a = map.insert(item(1));
    assert_eq!(map.count(), 1);
    map.remove(a + 1);
    assert_eq!(map.count(), 1);
    map.remove(INVALID_ID);
    assert_eq!(map.count(), 1);
    map.remove(a);
    assert_eq!(map.count(), 0);
    // Identifiers keep rising after a removal.
    assert_eq!(map.insert(item(2)), 6);
}

#[test]
fn map_get_mut_finds_what_get_finds() {
    let mut map: IdMap<MappedItem<u32>> = IdMap::new();
    let a = map.insert(item(4));
    let b = map.insert(item(5));
    assert_eq!(map.get_mut(a).map(|x| x.id()), Some(a));
    assert!(map.get_mut(b + 1).is_none() && map.get(b + 1).is_none());
    *map.get_mut(b).unwrap().data_mut() = 50;
    assert_eq!(**map.get(b).unwrap(), 50);
    assert_eq!(**map.get(a).unwrap(), 4);
    assert_eq!(map.count(), 2);
    assert_eq!(map.ids(), vec![a, b]);
}

#[test]
fn set_id_keeps_the_wrapped_data() {
    let mut a = item(9);
    a.set_id(12);
    assert_eq!(a.id(), 12);
    assert_eq!(*a, 9);
}
