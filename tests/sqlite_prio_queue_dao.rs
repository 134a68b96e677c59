use primer::dao::I64PrioQueueStorage;
use primer::sqlite_dao::{sort_by_priority, SqlitePrioQueueDao};

fn get_dao() -> SqlitePrioQueueDao {
    SqlitePrioQueueDao::new(":memory:").expect("should be able to open the store")
}

#[test]
fn db_starts_empty() {
    let dao = get_dao();
    assert!(dao.is_empty().unwrap());
    assert!(!dao.is_not_empty().unwrap());
    assert_eq!(dao.len().unwrap(), 0);
}

#[test]
fn retrieve_from_empty() {
    let mut dao = get_dao();

    let data = dao.retrieve(1).expect("dao should retrieve empty data");
    assert_eq!(data, vec![]);
    assert!(dao.is_empty().unwrap());
    assert!(!dao.is_not_empty().unwrap());
    assert_eq!(dao.len().unwrap(), 0);
}

#[test]
fn insert_and_retrieve_one() {
    let mut dao = get_dao();

    dao.insert(&vec![(100, 200)]).expect("dao should accept inserts");

    assert!(!dao.is_empty().unwrap());
    assert!(dao.is_not_empty().unwrap());
    assert_eq!(dao.len().unwrap(), 1);

    let data = dao.retrieve(1).expect("dao should retrieve data");
    assert_eq!(data, vec![(100, 200)]);
    assert!(dao.is_empty().unwrap());
    assert!(!dao.is_not_empty().unwrap());
    assert_eq!(dao.len().unwrap(), 0);
}

#[test]
fn insert_and_retrieve_multiple() {
    let mut dao = get_dao();

    dao.insert(&vec![(900, 900), (100, 200), (500, 600), (300, 400), (700, 800)])
        .expect("dao should accept inserts");

    assert!(!dao.is_empty().unwrap());
    assert!(dao.is_not_empty().unwrap());
    assert_eq!(dao.len().unwrap(), 5);

    let data = dao.retrieve(5).expect("dao should retrieve data");
    // Additionally ensure that data was returned in ascending key order
    assert_eq!(data, vec![(100, 200), (300, 400), (500, 600), (700, 800), (900, 900)]);
    assert!(dao.is_empty().unwrap());
    assert!(!dao.is_not_empty().unwrap());
}

#[test]
fn insert_and_retrieve_duplicate_priority() {
    let mut dao = get_dao();

    dao.insert(&vec![(100, 400), (100, 200)]).expect("dao should accept inserts");

    assert!(!dao.is_empty().unwrap());
    assert!(dao.is_not_empty().unwrap());
    assert_eq!(dao.len().unwrap(), 2);

    let mut data = dao.retrieve(2).expect("dao should retrieve data");
    data.sort_by_key(|(_, value)| *value);

    assert_eq!(data, vec![(100, 200), (100, 400)]);
    assert!(dao.is_empty().unwrap());
    assert!(!dao.is_not_empty().unwrap());
}

#[test]
fn insert_and_retrieve_multiple_one_by_one() {
    let mut dao = get_dao();

    // Insert one by one
    for i in 0..5 {
        dao.insert(&vec![*vec![(900, 900), (100, 200), (500, 600), (300, 400), (700, 800)]
            .get(i)
            .unwrap()])
            .expect("dao should accept inserts");

        assert!(!dao.is_empty().unwrap());
        assert!(dao.is_not_empty().unwrap());
        assert_eq!(dao.len().unwrap(), i + 1);
    }

    // Retrieve one by one
    for i in 0..5 {
        let data = dao.retrieve(1).expect("dao should retrieve data");
        assert_eq!(data.len(), 1);
        assert_eq!(dao.len().unwrap(), 4 - i);
        // Additionally ensure that data was returned in ascending key order
        assert_eq!(
            data.first().unwrap(),
            vec![(100, 200), (300, 400), (500, 600), (700, 800), (900, 900)].get(i).unwrap()
        );
        if i < 4 {
            assert!(!dao.is_empty().unwrap());
            assert!(dao.is_not_empty().unwrap());
        } else {
            assert!(dao.is_empty().unwrap());
            assert!(!dao.is_not_empty().unwrap());
        }
    }
}

#[test]
fn retrieve_more_than_len() {
    let mut dao = get_dao();

    dao.insert(&vec![(900, 900), (100, 200), (500, 600), (300, 400), (700, 800)])
        .expect("dao should accept inserts");

    assert!(!dao.is_empty().unwrap());
    assert!(dao.is_not_empty().unwrap());
    assert_eq!(dao.len().unwrap(), 5);

    let data = dao.retrieve(dao.len().unwrap() + 10).expect("dao should retrieve data");
    // Additionally ensure that data was returned in ascending key order
    assert_eq!(data, vec![(100, 200), (300, 400), (500, 600), (700, 800), (900, 900)]);
    assert!(dao.is_empty().unwrap());
    assert!(!dao.is_not_empty().unwrap());
}

#[test]
fn retrieve_takes_the_lowest_and_leaves_the_rest() {
    let mut dao = get_dao();
    dao.insert(&vec![(5, 1), (-3, 2), (8, 3), (0, 4), (5, 5)]).unwrap();

    let data = dao.retrieve(2).unwrap();
    assert_eq!(data, vec![(-3, 2), (0, 4)]);
    assert_eq!(dao.len().unwrap(), 3);
    assert_eq!(dao.lowest_priority().unwrap(), Some(5));
}

#[test]
fn lowest_priority_of_empty_and_filled_store() {
    let mut dao = get_dao();
    assert_eq!(dao.lowest_priority().unwrap(), None);
    dao.insert(&vec![(42, 0), (7, 1), (99, 2)]).unwrap();
    assert_eq!(dao.lowest_priority().unwrap(), Some(7));
    assert_eq!(dao.len().unwrap(), 3);
}

#[test]
fn two_stores_do_not_share_pairs() {
    let mut a = get_dao();
    let b = get_dao();
    a.insert(&vec![(1, 1)]).unwrap();
    assert_eq!(a.len().unwrap(), 1);
    assert_eq!(b.len().unwrap(), 0);
}

#[test]
fn sort_by_priority_orders_and_keeps_ties_stable() {
    let v = vec![(3, 0), (1, 1), (2, 2), (1, 3), (-5, 4)];
    assert_eq!(sort_by_priority(&v), vec![(-5, 4), (1, 1), (1, 3), (2, 2), (3, 0)]);
    assert_eq!(sort_by_priority(&vec![]), vec![]);
}
