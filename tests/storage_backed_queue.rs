use primer::dao::I64PrioQueueStorage;
use primer::prio_queue::PriorityQueue;
use primer::sqlite_dao::SqlitePrioQueueDao;
use primer::storage_backed_queue::{
    StorageBackedI64PriorityQueue, DEFAULT_OFFLOAD_TO_STORAGE_THRESHOLD,
};
use std::cmp::Reverse;
use std::collections::BinaryHeap;

type Queue = StorageBackedI64PriorityQueue<SqlitePrioQueueDao>;

fn get_dao() -> SqlitePrioQueueDao {
    SqlitePrioQueueDao::new(":memory:").expect("should be able to open the store")
}

fn new_queue(dao: SqlitePrioQueueDao) -> Queue {
    StorageBackedI64PriorityQueue::new(dao).expect("should be able to open the queue")
}

#[test]
fn queue_starts_empty() {
    let dao = get_dao();
    let queue = new_queue(dao);

    assert!(queue.is_empty());
    assert!(!queue.is_not_empty());
    assert_eq!(queue.len(), 0);
    assert_eq!(queue.hot_len(), 0);
}

#[test]
fn insert_one() {
    let dao = get_dao();
    let mut queue = new_queue(dao);

    queue.insert((100, 200)).unwrap();

    assert!(!queue.is_empty());
    assert!(queue.is_not_empty());
    assert_eq!(queue.len(), 1);
    assert_eq!(queue.hot_len(), 1);
}

#[test]
fn insert_multiple_one_by_one() {
    let inserts = 100usize;
    assert!(inserts < DEFAULT_OFFLOAD_TO_STORAGE_THRESHOLD);

    let dao = get_dao();
    let mut queue = new_queue(dao);

    for i in 0..inserts {
        queue.insert((i as i64, 100 + i as i64)).unwrap();
        assert!(!queue.is_empty());
        assert!(queue.is_not_empty());
        assert_eq!(queue.len(), i + 1);
        assert_eq!(queue.hot_len(), i + 1);
    }
}

#[test]
fn insert_duplicate_priority() {
    let dao = get_dao();
    let mut queue = new_queue(dao);

    queue.insert((100, 200)).unwrap();
    queue.insert((100, 400)).unwrap();

    assert!(!queue.is_empty());
    assert!(queue.is_not_empty());
    assert_eq!(queue.len(), 2);
    assert_eq!(queue.hot_len(), 2);
}

#[test]
fn insert_all_multiple_one_by_one() {
    let inserts = 100usize;
    assert!(inserts < DEFAULT_OFFLOAD_TO_STORAGE_THRESHOLD);

    let dao = get_dao();
    let mut queue = new_queue(dao);

    for i in 0..inserts {
        queue.insert_all(&vec![(i as i64, 100 + i as i64)]).unwrap();
        assert!(!queue.is_empty());
        assert!(queue.is_not_empty());
        assert_eq!(queue.len(), i + 1);
        assert_eq!(queue.hot_len(), i + 1);
    }
}

#[test]
fn insert_multiple_at_once() {
    let inserts = 100usize;
    assert!(inserts < DEFAULT_OFFLOAD_TO_STORAGE_THRESHOLD);

    let dao = get_dao();
    let mut queue = new_queue(dao);

    queue.insert_all(&(0..inserts).map(|i| (i as i64, 100 + i as i64)).collect()).unwrap();

    assert!(!queue.is_empty());
    assert!(queue.is_not_empty());
    assert_eq!(queue.len(), inserts);
    assert_eq!(queue.hot_len(), inserts);
}

#[test]
fn peek() {
    let dao = get_dao();
    let mut queue = new_queue(dao);

    queue.insert_all(&vec![(900, 900), (100, 200), (500, 600), (300, 400), (700, 800)]).unwrap();

    assert_eq!(queue.len(), 5);
    assert_eq!(queue.peek().unwrap(), Some((100, 200)));
    assert_eq!(queue.len(), 5, "Peek must not remove items");
    assert_eq!(queue.hot_len(), 5);
}

#[test]
fn poll() {
    let dao = get_dao();
    let mut queue = new_queue(dao);

    queue.insert_all(&vec![(900, 900), (100, 200), (500, 600), (300, 400), (700, 800)]).unwrap();

    for i in 0..5 {
        let item = queue.poll().unwrap().expect("queue should not be empty");
        assert_eq!(queue.len(), 4 - i);
        assert_eq!(queue.hot_len(), 4 - i);
        assert_eq!(
            item,
            *vec![(100, 200), (300, 400), (500, 600), (700, 800), (900, 900)].get(i).unwrap()
        );

        if i < 4 {
            assert!(!queue.is_empty());
            assert!(queue.is_not_empty());
        } else {
            assert!(queue.is_empty());
            assert!(!queue.is_not_empty());
        }
    }

    assert!(queue.poll().unwrap().is_none());
}

#[test]
fn is_empty_false_when_items_exist_in_storage() {
    let mut dao = get_dao();
    dao.insert(&vec![(900, 900), (100, 200), (500, 600), (300, 400), (700, 800)])
        .expect("dao should accept inserts");

    let queue = new_queue(dao);
    assert!(!queue.is_empty());
}

#[test]
fn is_not_empty_true_when_items_exist_in_storage() {
    let mut dao = get_dao();
    dao.insert(&vec![(900, 900), (100, 200), (500, 600), (300, 400), (700, 800)])
        .expect("dao should accept inserts");

    let queue = new_queue(dao);
    assert!(queue.is_not_empty());
}

#[test]
fn correct_len_when_items_exist_in_storage() {
    let mut dao = get_dao();
    dao.insert(&vec![(900, 900), (100, 200), (500, 600), (300, 400), (700, 800)])
        .expect("dao should accept inserts");

    let queue = new_queue(dao);
    assert_eq!(queue.len(), 5);
}

#[test]
fn offloads_to_storage() {
    let inserts = DEFAULT_OFFLOAD_TO_STORAGE_THRESHOLD * 2;
    assert!(inserts > DEFAULT_OFFLOAD_TO_STORAGE_THRESHOLD);

    let dao = get_dao();
    let mut queue = new_queue(dao);

    queue.insert_all(&(0..inserts).map(|i| (i as i64, 100 + i as i64)).collect()).unwrap();

    assert!(!queue.is_empty());
    assert!(queue.is_not_empty());
    assert_eq!(queue.len(), inserts);
    assert_eq!(queue.hot_len(), DEFAULT_OFFLOAD_TO_STORAGE_THRESHOLD);
}

#[test]
fn polls_in_correct_order() {
    let inserts = DEFAULT_OFFLOAD_TO_STORAGE_THRESHOLD * 2;
    assert!(inserts > DEFAULT_OFFLOAD_TO_STORAGE_THRESHOLD);

    let dao = get_dao();
    let mut queue = new_queue(dao);

    // Insert in reverse order to ensure sorting takes place on retrieval
    queue
        .insert_all(&(0..inserts).rev().map(|i| (i as i64, 100 + i as i64)).collect())
        .unwrap();

    for i in 0..inserts {
        let item = queue.poll().unwrap().expect("queue should not be empty");
        assert_eq!(item.0, i as i64);
        assert_eq!(queue.len(), inserts - i - 1);
        assert!(queue.hot_len() <= DEFAULT_OFFLOAD_TO_STORAGE_THRESHOLD);
        assert!(queue.storage().len().unwrap() <= DEFAULT_OFFLOAD_TO_STORAGE_THRESHOLD);
    }

    assert!(queue.is_empty());
    assert_eq!(queue.hot_len(), 0);
    assert!(queue.storage().is_empty().unwrap());
}

#[test]
fn asdf() {
    let dao = get_dao();
    let mut queue = StorageBackedI64PriorityQueue::new_with_thresholds(dao, 2, 1).unwrap();

    queue.insert_all(&vec![(1, 0), (3, 0)]).unwrap();

    queue.insert((2, 0)).unwrap();
    queue.poll().unwrap().expect("queue should not be empty");
    queue.insert((4, 0)).unwrap();

    assert_eq!(queue.hot_items(), vec![(2, 0), (3, 0)]);
}

#[test]
fn small_thresholds_poll_sequence() {
    let mut queue = StorageBackedI64PriorityQueue::new_with_thresholds(get_dao(), 2, 1).unwrap();

    queue.insert_all(&vec![(1, 0), (3, 0)]).unwrap();
    queue.insert((2, 0)).unwrap();
    assert_eq!(queue.poll().unwrap().map(|p| p.0), Some(1));
    queue.insert((4, 0)).unwrap();

    let mut polled = Vec::new();
    while let Some((priority, _)) = queue.poll().unwrap() {
        polled.push(priority);
    }
    assert_eq!(polled, vec![2, 3, 4]);
}

#[test]
fn empty_queue_has_nothing_to_give() {
    let mut queue = new_queue(get_dao());
    assert_eq!(queue.poll().unwrap(), None);
    assert_eq!(queue.peek().unwrap(), None);
    assert_eq!(queue.len(), 0);
}

#[test]
fn len_counts_pairs_held_in_the_store() {
    let mut dao = get_dao();
    dao.insert(&vec![(4, 0), (2, 0), (9, 0), (7, 0), (5, 0)]).unwrap();
    let mut queue = StorageBackedI64PriorityQueue::new_with_thresholds(dao, 2, 1).unwrap();
    assert_eq!(queue.len(), 5);
    assert!(!queue.is_empty());
    assert!(queue.hot_len() <= 2);
    assert_eq!(queue.storage().len().unwrap(), 5 - queue.hot_len());
    assert_eq!(queue.peek().unwrap(), Some((2, 0)));
    assert_eq!(queue.len(), 5);
}

#[test]
fn two_peeks_agree_and_keep_len() {
    let mut queue = StorageBackedI64PriorityQueue::new_with_thresholds(get_dao(), 2, 1).unwrap();
    queue.insert_all(&vec![(5, 1), (5, 0), (3, 7), (8, 8)]).unwrap();
    let first = queue.peek().unwrap();
    let len = queue.len();
    let second = queue.peek().unwrap();
    assert_eq!(first, second);
    assert_eq!(first, Some((3, 7)));
    assert_eq!(queue.len(), len);
}

/// A small deterministic generator, so that the schedules below are reproducible.
fn next(seed: &mut u64) -> u64 {
    *seed = seed.wrapping_mul(6364136223846793005).wrapping_add(1442695040888963407);
    *seed >> 33
}

#[test]
fn tiered_queue_matches_in_memory_heap() {
    let mut queue = StorageBackedI64PriorityQueue::new_with_thresholds(get_dao(), 2, 1).unwrap();
    let mut heap: BinaryHeap<Reverse<i64>> = BinaryHeap::new();
    let mut seed = 7u64;
    for step in 0..600 {
        let r = next(&mut seed) % 10;
        if r < 6 {
            let priority = (next(&mut seed) % 50) as i64 - 10;
            if r == 0 {
                let batch = vec![(priority, step), (priority + 3, step), (priority - 2, step)];
                for p in &batch {
                    heap.push(Reverse(p.0));
                }
                queue.insert_all(&batch).unwrap();
            } else {
                heap.push(Reverse(priority));
                queue.insert((priority, step)).unwrap();
            }
        } else {
            let expected = heap.pop().map(|Reverse(p)| p);
            let got = queue.poll().unwrap().map(|p| p.0);
            assert_eq!(got, expected);
        }
        assert_eq!(queue.len(), heap.len());
        assert!(queue.hot_len() <= 2);
    }
}

#[test]
fn polls_ascend_without_smaller_arrivals() {
    let mut queue = StorageBackedI64PriorityQueue::new_with_thresholds(get_dao(), 4, 2).unwrap();
    let mut seed = 11u64;
    queue
        .insert_all(&(0..40).map(|i| ((next(&mut seed) % 100) as i64, i)).collect())
        .unwrap();
    let mut last = i64::MIN;
    while let Some((priority, _)) = queue.poll().unwrap() {
        assert!(priority >= last);
        last = priority;
        if next(&mut seed) % 3 == 0 {
            queue.insert((last + (next(&mut seed) % 20) as i64, 0)).unwrap();
        }
        assert!(queue.hot_len() <= 4);
    }
}

#[test]
fn hot_tier_stays_bounded_under_inserts() {
    let mut queue = StorageBackedI64PriorityQueue::new_with_thresholds(get_dao(), 8, 3).unwrap();
    for i in 0..100i64 {
        queue.insert(((i * 37) % 101, i)).unwrap();
        assert!(queue.hot_len() <= 8);
    }
    queue.insert_all(&(0..50).map(|i| (i, i)).collect()).unwrap();
    assert!(queue.hot_len() <= 8);
    assert_eq!(queue.len(), 150);
    assert_eq!(queue.storage().len().unwrap(), 150 - queue.hot_len());
}
