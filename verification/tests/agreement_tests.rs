use std::collections::{HashMap, VecDeque};

use block_builder::block::{build_block, Block};
use block_builder::package::BuildError;
use block_builder::pool::Pool;
use block_builder::transaction::Transaction;

/// A transaction as the plain computation below sees it.
struct Plain {
    id: String,
    fee: u64,
    weight: u64,
    deps: Vec<String>,
}

/// The selection computed in the plainest way: closures by a queue, a
/// stable sort by fee, one greedy pass.
fn plain_block(txs: &[Plain], max_weight: u64) -> Result<Block, BuildError> {
    let by_id: HashMap<&str, &Plain> = txs.iter().map(|t| (t.id.as_str(), t)).collect();
    let mut packages: Vec<(u64, u64, Vec<String>)> = Vec::new();
    for root in txs {
        let root = by_id[root.id.as_str()];
        let mut fee = root.fee;
        let mut weight = root.weight;
        let mut closure = vec![root.id.clone()];
        let mut queue: VecDeque<&String> = root.deps.iter().collect();
        while let Some(id) = queue.pop_front() {
            if closure.contains(id) {
                continue;
            }
            let Some(tx) = by_id.get(id.as_str()) else {
                return Err(BuildError::MissingDependency(id.clone()));
            };
            fee += tx.fee;
            weight += tx.weight;
            closure.push(id.clone());
            for dep in &tx.deps {
                if !closure.contains(dep) && !queue.contains(&dep) {
                    queue.push_back(dep);
                }
            }
        }
        closure.reverse();
        packages.push((fee, weight, closure));
    }
    packages.sort_by_key(|p| std::cmp::Reverse(p.0));
    let mut selected: Vec<String> = Vec::new();
    let mut total_weight: u64 = 0;
    let mut total_fee: u128 = 0;
    for (fee, weight, txs) in packages {
        if total_weight + weight > max_weight || txs.iter().any(|t| selected.contains(t)) {
            continue;
        }
        total_fee += u128::from(fee);
        total_weight += weight;
        selected.extend(txs);
    }
    Ok(Block { selected, total_weight, total_fee })
}

struct Lcg(u64);

impl Lcg {
    fn next(&mut self, bound: u64) -> u64 {
        self.0 = self.0.wrapping_mul(6364136223846793005).wrapping_add(1442695040888963407);
        (self.0 >> 33) % bound
    }
}

/// A pool of `count` transactions whose dependencies point anywhere in the
/// pool, and now and then outside of it when `complete` is false.
fn random_pool(seed: u64, count: u64, complete: bool) -> Vec<Plain> {
    let mut rng = Lcg(seed);
    let mut txs = Vec::new();
    let mut number: u64 = 0;
    while number < count {
        let mut deps = Vec::new();
        let wanted = rng.next(4);
        let mut made: u64 = 0;
        while made < wanted {
            let target = rng.next(if complete { count } else { count + 1 });
            deps.push(format!("t{}", target));
            made += 1;
        }
        txs.push(Plain {
            id: format!("t{}", number),
            fee: rng.next(20),
            weight: rng.next(300),
            deps,
        });
        number += 1;
    }
    txs
}

fn pool_of(txs: &[Plain]) -> Pool {
    let mut pool = Pool::new();
    for t in txs {
        let deps = if t.deps.is_empty() { None } else { Some(t.deps.join(";")) };
        pool.insert(Transaction::new(
            t.id.clone(),
            u32::try_from(t.fee).unwrap(),
            u32::try_from(t.weight).unwrap(),
            deps.as_deref(),
        ));
    }
    pool
}

#[test]
fn agrees_with_the_plain_computation_on_complete_pools() {
    let mut seed: u64 = 1;
    while seed <= 40 {
        let txs = random_pool(seed, 5 + seed, true);
        let expected = plain_block(&txs, 1_500);
        assert!(expected.is_ok());
        assert_eq!(build_block(&pool_of(&txs), 1_500), expected);
        seed += 1;
    }
}

#[test]
fn agrees_with_the_plain_computation_on_pools_with_gaps() {
    let mut failures: u64 = 0;
    let mut seed: u64 = 100;
    while seed <= 140 {
        let txs = random_pool(seed, 12, false);
        let expected = plain_block(&txs, 1_500);
        if expected.is_err() {
            failures += 1;
        }
        assert_eq!(build_block(&pool_of(&txs), 1_500), expected);
        seed += 1;
    }
    assert!(failures > 0);
}

#[test]
fn selection_of_a_larger_pool_keeps_its_promises() {
    let txs = random_pool(7, 400, true);
    let block = build_block(&pool_of(&txs), 20_000).unwrap();
    assert!(block.total_weight <= 20_000);
    let mut seen = block.selected.clone();
    seen.sort();
    seen.dedup();
    assert_eq!(seen.len(), block.selected.len());
    let by_id: HashMap<&str, &Plain> = txs.iter().map(|t| (t.id.as_str(), t)).collect();
    let mut weight: u64 = 0;
    let mut fee: u128 = 0;
    for id in &block.selected {
        let tx = by_id[id.as_str()];
        weight += tx.weight;
        fee += u128::from(tx.fee);
        for dep in &tx.deps {
            assert!(block.selected.contains(dep));
        }
    }
    assert_eq!(weight, block.total_weight);
    assert_eq!(fee, block.total_fee);
    assert_eq!(Ok(block), plain_block(&txs, 20_000));
}
