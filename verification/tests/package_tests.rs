use block_builder::package::{build_package, build_packages, contains_id, BuildError, Package};
use block_builder::pool::Pool;
use block_builder::transaction::Transaction;

fn tx(id: &str, fee: u32, weight: u32, deps: Option<&str>) -> Transaction {
    Transaction::new(id.to_string(), fee, weight, deps)
}

fn pool_of(txs: Vec<Transaction>) -> Pool {
    let mut pool = Pool::new();
    for t in txs {
        pool.insert(t);
    }
    pool
}

fn strings(items: &[&str]) -> Vec<String> {
    items.iter().map(|s| s.to_string()).collect()
}

fn package(fee: u64, weight: u64, txs: &[&str]) -> Package {
    Package { fee, weight, txs: strings(txs) }
}

#[test]
fn contains_id_finds_members_only() {
    let ids = strings(&["a", "b", "c"]);
    assert!(contains_id(&ids, &"a".to_string()));
    assert!(contains_id(&ids, &"c".to_string()));
    assert!(!contains_id(&ids, &"d".to_string()));
    assert!(!contains_id(&Vec::new(), &"a".to_string()));
}

#[test]
fn transaction_without_dependencies_is_its_own_package() {
    let pool = pool_of(vec![tx("T1", 100, 1000, None)]);
    assert_eq!(build_package(&pool, 0), Ok(package(100, 1000, &["T1"])));
}

#[test]
fn package_of_a_dependent_transaction_holds_its_dependency_first() {
    let pool = pool_of(vec![tx("T1", 100, 1000, None), tx("T2", 90, 1000, Some("T1"))]);
    assert_eq!(build_package(&pool, 1), Ok(package(190, 2000, &["T1", "T2"])));
}

#[test]
fn packages_of_the_example_pool() {
    let pool = pool_of(vec![
        tx("T1", 100, 1000, None),
        tx("T2", 90, 1000, Some("T1")),
        tx("T3", 80, 1000, None),
    ]);
    assert_eq!(
        build_packages(&pool),
        Ok(vec![
            package(100, 1000, &["T1"]),
            package(190, 2000, &["T1", "T2"]),
            package(80, 1000, &["T3"]),
        ])
    );
}

#[test]
fn chain_is_emitted_from_the_deepest_dependency_up() {
    let pool = pool_of(vec![
        tx("a", 1, 10, Some("b")),
        tx("b", 2, 20, Some("c")),
        tx("c", 4, 40, Some("d")),
        tx("d", 8, 80, None),
    ]);
    assert_eq!(build_package(&pool, 0), Ok(package(15, 150, &["d", "c", "b", "a"])));
    assert_eq!(build_package(&pool, 2), Ok(package(12, 120, &["d", "c"])));
}

#[test]
fn dependencies_are_visited_breadth_first() {
    let pool = pool_of(vec![
        tx("r", 1, 1, Some("a;b")),
        tx("a", 2, 2, Some("c")),
        tx("b", 4, 4, Some("d")),
        tx("c", 8, 8, None),
        tx("d", 16, 16, None),
    ]);
    // visited: r, a, b, c, d
    assert_eq!(build_package(&pool, 0), Ok(package(31, 31, &["d", "c", "b", "a", "r"])));
}

#[test]
fn shared_dependency_is_counted_once() {
    let pool = pool_of(vec![
        tx("r", 1, 1, Some("a;b")),
        tx("a", 10, 10, Some("s")),
        tx("b", 100, 100, Some("s")),
        tx("s", 1000, 1000, None),
    ]);
    assert_eq!(build_package(&pool, 0), Ok(package(1111, 1111, &["s", "b", "a", "r"])));
}

#[test]
fn dependency_named_twice_is_counted_once() {
    let pool = pool_of(vec![tx("r", 1, 1, Some("a;a;a")), tx("a", 10, 10, None)]);
    assert_eq!(build_package(&pool, 0), Ok(package(11, 11, &["a", "r"])));
}

#[test]
fn self_reference_is_already_in_the_closure() {
    let pool = pool_of(vec![tx("r", 5, 6, Some("r"))]);
    assert_eq!(build_package(&pool, 0), Ok(package(5, 6, &["r"])));
}

#[test]
fn cycle_is_included_exactly_once() {
    let pool = pool_of(vec![
        tx("a", 1, 10, Some("b")),
        tx("b", 2, 20, Some("c")),
        tx("c", 4, 40, Some("a")),
    ]);
    assert_eq!(build_package(&pool, 0), Ok(package(7, 70, &["c", "b", "a"])));
    assert_eq!(build_package(&pool, 1), Ok(package(7, 70, &["a", "c", "b"])));
    assert_eq!(build_package(&pool, 2), Ok(package(7, 70, &["b", "a", "c"])));
}

#[test]
fn member_may_stand_before_a_dependency_it_shares_with_the_root() {
    // r names a and b, and b names a: a is visited before b, so it is
    // emitted after b although b depends on it.
    let pool = pool_of(vec![
        tx("r", 1, 1, Some("a;b")),
        tx("a", 2, 2, None),
        tx("b", 4, 4, Some("a")),
    ]);
    assert_eq!(build_package(&pool, 0), Ok(package(7, 7, &["b", "a", "r"])));
}

#[test]
fn missing_direct_dependency_is_reported() {
    let pool = pool_of(vec![tx("T1", 1, 1, Some("T9"))]);
    assert_eq!(
        build_package(&pool, 0),
        Err(BuildError::MissingDependency("T9".to_string()))
    );
}

#[test]
fn missing_indirect_dependency_is_reported() {
    let pool = pool_of(vec![
        tx("a", 1, 1, Some("b")),
        tx("b", 1, 1, Some("c")),
        tx("c", 1, 1, Some("gone")),
    ]);
    assert_eq!(
        build_package(&pool, 0),
        Err(BuildError::MissingDependency("gone".to_string()))
    );
    assert_eq!(
        build_package(&pool, 2),
        Err(BuildError::MissingDependency("gone".to_string()))
    );
}

#[test]
fn first_missing_dependency_in_visit_order_is_reported() {
    let pool = pool_of(vec![
        tx("r", 1, 1, Some("a;x")),
        tx("a", 1, 1, Some("y")),
    ]);
    // visited: r, a, then x is taken from the queue before y
    assert_eq!(build_package(&pool, 0), Err(BuildError::MissingDependency("x".to_string())));
    assert_eq!(build_package(&pool, 1), Err(BuildError::MissingDependency("y".to_string())));
}

#[test]
fn empty_piece_of_a_dependency_list_is_a_missing_identifier() {
    let pool = pool_of(vec![tx("a", 1, 1, Some("b;")), tx("b", 1, 1, None)]);
    assert_eq!(build_package(&pool, 0), Err(BuildError::MissingDependency("".to_string())));
}

#[test]
fn build_packages_reports_the_first_transaction_that_fails() {
    let pool = pool_of(vec![
        tx("ok", 1, 1, None),
        tx("bad1", 1, 1, Some("m1")),
        tx("bad2", 1, 1, Some("m2")),
    ]);
    assert_eq!(build_packages(&pool), Err(BuildError::MissingDependency("m1".to_string())));
}

#[test]
fn build_packages_of_an_empty_pool() {
    let pool = Pool::new();
    assert_eq!(build_packages(&pool), Ok(Vec::new()));
}

#[test]
fn package_totals_do_not_overflow_thirty_two_bits() {
    let pool = pool_of(vec![
        tx("a", u32::MAX, u32::MAX, Some("b;c")),
        tx("b", u32::MAX, u32::MAX, None),
        tx("c", u32::MAX, u32::MAX, None),
    ]);
    let total = 3 * (u32::MAX as u64);
    assert_eq!(build_package(&pool, 0), Ok(package(total, total, &["c", "b", "a"])));
}

#[test]
fn package_holds_exactly_what_its_transaction_reaches() {
    let pool = pool_of(vec![
        tx("r", 1, 1, Some("a")),
        tx("a", 1, 1, Some("b")),
        tx("b", 1, 1, None),
        tx("other", 1, 1, Some("r")),
        tx("alone", 1, 1, None),
    ]);
    let package = build_package(&pool, 0).unwrap();
    let mut members = package.txs.clone();
    members.sort();
    assert_eq!(members, strings(&["a", "b", "r"]));
    assert_eq!(package.txs.last().unwrap(), "r");
}
