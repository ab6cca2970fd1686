use block_builder::block::{
    build_block, select, select_in_order, txs_in_block, Block, MAX_WEIGHT,
};
use block_builder::package::{BuildError, Package};
use block_builder::pool::Pool;
use block_builder::transaction::Transaction;

fn tx(id: &str, fee: u32, weight: u32, deps: Option<&str>) -> Transaction {
    Transaction::new(id.to_string(), fee, weight, deps)
}

fn pool_of(txs: Vec<Transaction>) -> Pool {
    let mut pool = Pool::new();
    for t in txs {
        pool.insert(t);
    }
    pool
}

fn strings(items: &[&str]) -> Vec<String> {
    items.iter().map(|s| s.to_string()).collect()
}

fn package(fee: u64, weight: u64, txs: &[&str]) -> Package {
    Package { fee, weight, txs: strings(txs) }
}

fn block(selected: &[&str], total_weight: u64, total_fee: u128) -> Block {
    Block { selected: strings(selected), total_weight, total_fee }
}

#[test]
fn capacity_constant() {
    assert_eq!(MAX_WEIGHT, 4_000_000);
}

#[test]
fn txs_in_block_finds_a_shared_transaction() {
    let in_block = strings(&["a", "b", "c"]);
    assert!(txs_in_block(&strings(&["x", "b"]), &in_block));
    assert!(txs_in_block(&strings(&["c"]), &in_block));
    assert!(!txs_in_block(&strings(&["x", "y"]), &in_block));
}

#[test]
fn txs_in_block_of_empty_lists() {
    assert!(!txs_in_block(&Vec::new(), &strings(&["a"])));
    assert!(!txs_in_block(&strings(&["a"]), &Vec::new()));
    assert!(!txs_in_block(&Vec::new(), &Vec::new()));
}

#[test]
fn example_scenario() {
    let pool = pool_of(vec![
        tx("T1", 100, 1000, None),
        tx("T2", 90, 1000, Some("T1")),
        tx("T3", 80, 1000, None),
    ]);
    assert_eq!(build_block(&pool, 2500), Ok(block(&["T1", "T2"], 2000, 190)));
}

#[test]
fn example_pool_under_the_standard_capacity() {
    let pool = pool_of(vec![
        tx("T1", 100, 1000, None),
        tx("T2", 90, 1000, Some("T1")),
        tx("T3", 80, 1000, None),
    ]);
    assert_eq!(build_block(&pool, MAX_WEIGHT), Ok(block(&["T1", "T2", "T3"], 3000, 270)));
}

#[test]
fn empty_pool_gives_an_empty_block() {
    assert_eq!(build_block(&Pool::new(), MAX_WEIGHT), Ok(block(&[], 0, 0)));
}

#[test]
fn nothing_is_selected_under_capacity_zero() {
    let pool = pool_of(vec![tx("T1", 100, 1, None)]);
    assert_eq!(build_block(&pool, 0), Ok(block(&[], 0, 0)));
}

#[test]
fn weightless_packages_fit_under_capacity_zero() {
    let pool = pool_of(vec![tx("T1", 100, 0, None), tx("T2", 1, 1, None)]);
    assert_eq!(build_block(&pool, 0), Ok(block(&["T1"], 0, 100)));
}

#[test]
fn package_that_fills_the_capacity_exactly_is_admitted() {
    let packages = vec![package(10, 2500, &["a"])];
    assert_eq!(select(packages, 2500), block(&["a"], 2500, 10));
}

#[test]
fn package_one_over_the_capacity_is_passed_over() {
    let packages = vec![package(10, 2501, &["a"])];
    assert_eq!(select(packages, 2500), block(&[], 0, 0));
}

#[test]
fn scan_goes_on_after_a_package_that_does_not_fit() {
    let packages = vec![
        package(50, 60, &["a"]),
        package(40, 50, &["b"]),
        package(30, 40, &["c"]),
        package(20, 10, &["d"]),
    ];
    assert_eq!(select(packages, 100), block(&["a", "c"], 100, 80));
}

#[test]
fn conflicting_package_is_rejected_whole() {
    // the second package shares `s` with the first and is passed over with
    // `b`, which is in no package of the block
    let packages = vec![
        package(100, 10, &["s", "a"]),
        package(90, 10, &["s", "b"]),
        package(80, 10, &["c"]),
    ];
    assert_eq!(select(packages, 1000), block(&["s", "a", "c"], 20, 180));
}

#[test]
fn rejected_package_leaves_no_trace_for_later_ones() {
    // `b` was in a rejected package only, so the package of `b` alone still
    // joins
    let packages = vec![
        package(100, 10, &["s", "a"]),
        package(90, 10, &["s", "b"]),
        package(5, 10, &["b"]),
    ];
    assert_eq!(select(packages, 1000), block(&["s", "a", "b"], 20, 105));
}

#[test]
fn select_in_order_does_not_sort() {
    let packages = vec![package(1, 60, &["a"]), package(100, 60, &["b"])];
    assert_eq!(select_in_order(packages, 100), block(&["a"], 60, 1));
}

#[test]
fn select_sorts_by_fee_first() {
    let packages = vec![package(1, 60, &["a"]), package(100, 60, &["b"])];
    assert_eq!(select(packages, 100), block(&["b"], 60, 100));
}

#[test]
fn ties_go_to_the_package_given_first() {
    let packages = vec![package(7, 60, &["first"]), package(7, 60, &["second"])];
    assert_eq!(select(packages, 100), block(&["first"], 60, 7));
    let packages = vec![package(7, 60, &["second"]), package(7, 60, &["first"])];
    assert_eq!(select(packages, 100), block(&["second"], 60, 7));
}

#[test]
fn ties_between_transactions_go_by_the_order_of_the_pool() {
    let pool = pool_of(vec![tx("x", 7, 60, None), tx("y", 7, 60, None)]);
    assert_eq!(build_block(&pool, 100), Ok(block(&["x"], 60, 7)));
    let pool = pool_of(vec![tx("y", 7, 60, None), tx("x", 7, 60, None)]);
    assert_eq!(build_block(&pool, 100), Ok(block(&["y"], 60, 7)));
}

#[test]
fn dependency_selected_with_its_dependant_is_not_selected_again() {
    let pool = pool_of(vec![
        tx("parent", 10, 10, None),
        tx("child", 10, 10, Some("parent")),
    ]);
    // packages: parent alone (fee 10), child with parent (fee 20)
    assert_eq!(build_block(&pool, 100), Ok(block(&["parent", "child"], 20, 20)));
}

#[test]
fn two_dependants_of_one_transaction_exclude_each_other() {
    let pool = pool_of(vec![
        tx("base", 1, 10, None),
        tx("left", 50, 10, Some("base")),
        tx("right", 40, 10, Some("base")),
    ]);
    // left with base is admitted; right with base and base alone conflict
    assert_eq!(build_block(&pool, 100), Ok(block(&["base", "left"], 20, 51)));
}

#[test]
fn block_holds_the_dependencies_of_each_of_its_transactions() {
    let pool = pool_of(vec![
        tx("a", 100, 10, Some("b")),
        tx("b", 1, 10, Some("c")),
        tx("c", 1, 10, None),
        tx("d", 50, 10, Some("e")),
        tx("e", 1, 10, None),
    ]);
    assert_eq!(
        build_block(&pool, 100),
        Ok(block(&["c", "b", "a", "e", "d"], 50, 153))
    );
}

#[test]
fn no_transaction_is_selected_twice() {
    let pool = pool_of(vec![
        tx("a", 9, 1, Some("s")),
        tx("b", 8, 1, Some("s")),
        tx("c", 7, 1, Some("s;a")),
        tx("s", 1, 1, None),
    ]);
    let built = build_block(&pool, 1_000).unwrap();
    let mut seen = built.selected.clone();
    seen.sort();
    seen.dedup();
    assert_eq!(seen.len(), built.selected.len());
    // the package of `c` has the highest fee; its visit goes c, s, a
    assert_eq!(built, block(&["a", "s", "c"], 3, 17));
}

#[test]
fn total_weight_stays_within_the_capacity() {
    let pool = pool_of(vec![
        tx("a", 9, 400, None),
        tx("b", 8, 300, None),
        tx("c", 7, 300, None),
        tx("d", 6, 1, None),
    ]);
    let built = build_block(&pool, 1_000).unwrap();
    assert!(built.total_weight <= 1_000);
    assert_eq!(built, block(&["a", "b", "c"], 1_000, 24));
}

#[test]
fn repeated_runs_give_the_same_block() {
    let make = || {
        pool_of(vec![
            tx("a", 5, 10, Some("b")),
            tx("b", 5, 10, None),
            tx("c", 5, 10, None),
            tx("d", 10, 15, Some("c")),
        ])
    };
    let first = build_block(&make(), 30);
    let second = build_block(&make(), 30);
    assert_eq!(first, second);
    assert_eq!(first, Ok(block(&["c", "d"], 25, 15)));
}

#[test]
fn missing_dependency_fails_the_block() {
    let pool = pool_of(vec![tx("T1", 100, 1000, None), tx("T2", 90, 1000, Some("T0"))]);
    assert_eq!(
        build_block(&pool, MAX_WEIGHT),
        Err(BuildError::MissingDependency("T0".to_string()))
    );
}

#[test]
fn total_fee_does_not_overflow_sixty_four_bits() {
    let packages = vec![
        package(u64::MAX, 1, &["a"]),
        package(u64::MAX, 1, &["b"]),
        package(u64::MAX, 1, &["c"]),
    ];
    assert_eq!(
        select(packages, u64::MAX),
        block(&["a", "b", "c"], 3, 3 * (u64::MAX as u128))
    );
}

#[test]
fn weight_check_does_not_overflow() {
    let packages = vec![package(2, u64::MAX, &["a"]), package(1, u64::MAX, &["b"])];
    assert_eq!(select(packages, u64::MAX), block(&["a"], u64::MAX, 2));
}

#[test]
fn package_without_transactions_only_adds_its_totals() {
    let packages = vec![package(3, 4, &[]), package(2, 1, &["a"])];
    assert_eq!(select(packages, 10), block(&["a"], 5, 5));
}

#[test]
fn block_text_has_one_identifier_per_line() {
    assert_eq!(block(&["T1", "T2"], 2000, 190).to_text(), "T1\nT2");
    assert_eq!(block(&[], 0, 0).to_text(), "");
}
