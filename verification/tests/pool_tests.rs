use block_builder::pool::{Pool, MAX_POOL_LEN};
use block_builder::transaction::Transaction;

fn tx(id: &str, fee: u32, weight: u32, deps: Option<&str>) -> Transaction {
    Transaction::new(id.to_string(), fee, weight, deps)
}

#[test]
fn pool_capacity() {
    assert_eq!(MAX_POOL_LEN as u64, u32::MAX as u64);
}

#[test]
fn new_pool_is_empty() {
    let pool = Pool::new();
    assert_eq!(pool.len(), 0);
    assert!(pool.get("T1").is_none());
    assert_eq!(pool.position("T1"), None);
}

#[test]
fn inserted_transactions_are_found_by_identifier() {
    let mut pool = Pool::new();
    pool.insert(tx("T1", 100, 1000, None));
    pool.insert(tx("T2", 90, 2000, Some("T1")));
    assert_eq!(pool.len(), 2);
    let t2 = pool.get("T2").unwrap();
    assert_eq!(t2.id, "T2");
    assert_eq!(t2.fee, 90);
    assert_eq!(t2.weight, 2000);
    assert_eq!(t2.deps, vec!["T1".to_string()]);
    assert!(pool.get("T3").is_none());
}

#[test]
fn transactions_keep_the_order_of_insertion() {
    let mut pool = Pool::new();
    pool.insert(tx("b", 1, 1, None));
    pool.insert(tx("a", 2, 2, None));
    pool.insert(tx("c", 3, 3, None));
    assert_eq!(pool.position("b"), Some(0));
    assert_eq!(pool.position("a"), Some(1));
    assert_eq!(pool.position("c"), Some(2));
    assert_eq!(pool.transaction(0).id, "b");
    assert_eq!(pool.transaction(1).id, "a");
    assert_eq!(pool.transaction(2).id, "c");
}

#[test]
fn last_write_wins_for_a_repeated_identifier() {
    let mut pool = Pool::new();
    pool.insert(tx("T1", 100, 1000, None));
    pool.insert(tx("T2", 90, 1000, None));
    pool.insert(tx("T1", 5, 7, Some("T2")));
    assert_eq!(pool.len(), 2);
    let t1 = pool.get("T1").unwrap();
    assert_eq!(t1.fee, 5);
    assert_eq!(t1.weight, 7);
    assert_eq!(t1.deps, vec!["T2".to_string()]);
    assert_eq!(pool.position("T1"), Some(0));
    assert_eq!(pool.position("T2"), Some(1));
}

#[test]
fn identifiers_are_compared_exactly() {
    let mut pool = Pool::new();
    pool.insert(tx("t1", 1, 1, None));
    assert!(pool.get("T1").is_none());
    assert!(pool.get("t1 ").is_none());
    assert!(pool.get("").is_none());
    assert!(pool.get("t1").is_some());
}

#[test]
fn the_empty_identifier_is_an_identifier() {
    let mut pool = Pool::new();
    pool.insert(tx("", 3, 4, None));
    assert_eq!(pool.len(), 1);
    assert_eq!(pool.get("").unwrap().fee, 3);
}
