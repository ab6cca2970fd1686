use crate::block_lemmas::{lemma_selection_holds_dependencies, lemma_selection_is_sound};
use crate::closure::reaches;
use crate::order::{fee_order, sort_by_fee};
use crate::package::{
    all_closed, build_packages, contains_id, first_missing, package_views, packages_of,
    BuildError, Package, PackageView,
};
use crate::pool::{by_id, Pool};
use crate::text::{join_lines, join_with, LINE_BREAK};
use crate::transaction::{Id, TransactionView};
use vstd::prelude::*;

verus! {

/// The capacity of a block: the highest total weight it may carry.
pub const MAX_WEIGHT: u64 = 4_000_000;

/// The transactions chosen for a block, with their totals.
#[derive(Debug, PartialEq, Eq)]
pub struct Block {
    /// The identifiers of the chosen transactions, in the order in which
    /// they are to be published.
    pub selected: Vec<String>,
    /// Sum of the weights of the admitted packages.
    pub total_weight: u64,
    /// Sum of the fees of the admitted packages, in a type wide enough for
    /// the fees of any number of packages.
    pub total_fee: u128,
}

/// The mathematical content of a [`Block`].
pub struct BlockView {
    pub selected: Seq<Id>,
    pub total_weight: nat,
    pub total_fee: nat,
}

impl View for Block {
    type V = BlockView;

    open spec fn view(&self) -> BlockView {
        BlockView {
            selected: self.selected.deep_view(),
            total_weight: self.total_weight as nat,
            total_fee: self.total_fee as nat,
        }
    }
}

/// Some identifier of `txs` also occurs in `block`.
pub open spec fn shares_id(txs: Seq<Id>, block: Seq<Id>) -> bool {
    exists|i: int, j: int|
        0 <= i < txs.len() && 0 <= j < block.len() && #[trigger] txs[i] == #[trigger] block[j]
}

/// The block before any package is considered.
pub open spec fn empty_block() -> BlockView {
    BlockView { selected: Seq::<Id>::empty(), total_weight: 0, total_fee: 0 }
}

/// `package` can join `block`: its weight still fits under `max_weight`, and
/// none of its transactions is in the block already.
pub open spec fn admits(block: BlockView, package: PackageView, max_weight: nat) -> bool {
    block.total_weight + package.weight <= max_weight && !shares_id(package.txs, block.selected)
}

/// `block` with all of `package` added at its end.
pub open spec fn extended(block: BlockView, package: PackageView) -> BlockView {
    BlockView {
        selected: block.selected + package.txs,
        total_weight: block.total_weight + package.weight,
        total_fee: block.total_fee + package.fee,
    }
}

/// `block` after `package` was considered: with the whole package where it
/// can join, unchanged where it cannot.
pub open spec fn consider(block: BlockView, package: PackageView, max_weight: nat) -> BlockView {
    if admits(block, package, max_weight) {
        extended(block, package)
    } else {
        block
    }
}

/// The block that results from considering `packages` one after the other,
/// each once, starting from the empty block.
pub open spec fn scan(packages: Seq<PackageView>, max_weight: nat) -> BlockView
    decreases packages.len(),
{
    if packages.len() == 0 {
        empty_block()
    } else {
        consider(scan(packages.drop_last(), max_weight), packages.last(), max_weight)
    }
}

/// The block selected from `packages`: they are considered by descending
/// fee, those of equal fee in the order in which they are given.
pub open spec fn selection(packages: Seq<PackageView>, max_weight: nat) -> BlockView {
    scan(fee_order(packages), max_weight)
}

/// What building a block for `pool` gives: the selection among the packages
/// of the pool where every transaction has one, the missing identifier
/// otherwise.
pub open spec fn block_of(pool: Seq<TransactionView>, max_weight: nat) -> Result<BlockView, Id> {
    if all_closed(pool) {
        Ok(selection(packages_of(pool), max_weight))
    } else {
        Err(first_missing(pool))
    }
}

/// The package at position `k` is admitted when its turn comes.
pub open spec fn admitted_at(packages: Seq<PackageView>, max_weight: nat, k: int) -> bool {
    admits(scan(packages.take(k), max_weight), packages[k], max_weight)
}

impl Block {
    /// The identifiers of the block as they are published: one per line, in
    /// the order of the block.
    pub fn to_text(&self) -> (text: String)
        ensures
            text@ == join_with(self@.selected, LINE_BREAK),
    {
        join_lines(&self.selected)
    }
}

/// Whether any transaction of `txs` is in `block` already.
pub fn txs_in_block(txs: &Vec<String>, block: &Vec<String>) -> (conflict: bool)
    ensures
        conflict == shares_id(txs.deep_view(), block.deep_view()),
{
    let mut i: usize = 0;
    while i < txs.len()
        invariant
            i <= txs.len(),
            forall|k: int, j: int|
                0 <= k < i && 0 <= j < block.len() ==> #[trigger] txs.deep_view()[k]
                    != #[trigger] block.deep_view()[j],
        decreases txs.len() - i,
    {
        if contains_id(block, &txs[i]) {
            proof {
                let j: int = block.deep_view().index_of(txs[i as int]@);
                assert(txs.deep_view()[i as int] == block.deep_view()[j]);
            }
            return true;
        }
        i += 1;
    }
    false
}

/// Considers the packages in the order given, each once, and admits each
/// that fits under `max_weight` and shares no transaction with the block so
/// far. A package that is not admitted is passed over whole.
pub fn select_in_order(packages: Vec<Package>, max_weight: u64) -> (block: Block)
    ensures
        block@ == scan(package_views(packages@), max_weight as nat),
        block.total_weight <= max_weight,
{
    let ghost given = package_views(packages@);
    let mut selected: Vec<String> = Vec::new();
    let mut total_weight: u64 = 0;
    let mut total_fee: u128 = 0;
    proof {
        assert(selected.deep_view() =~= Seq::<Id>::empty());
        assert(given.len() == packages.len());
    }
    for package in it: packages
        invariant
            given == package_views(it.seq()),
            given.len() <= usize::MAX,
            (BlockView {
                selected: selected.deep_view(),
                total_weight: total_weight as nat,
                total_fee: total_fee as nat,
            }) == scan(given.take(it.index() as int), max_weight as nat),
            total_weight <= max_weight,
            total_fee <= it.index() * u64::MAX,
    {
        let ghost count = it.index() as int;
        let ghost before = selected.deep_view();
        proof {
            let taken = given.take(count + 1);
            assert(taken.drop_last() =~= given.take(count));
            assert((count + 1) * u64::MAX == count * u64::MAX + u64::MAX) by (nonlinear_arith);
            assert((count + 1) * u64::MAX <= usize::MAX * u64::MAX) by (nonlinear_arith)
                requires
                    count + 1 <= usize::MAX,
            ;
        }
        if package.weight <= max_weight - total_weight && !txs_in_block(&package.txs, &selected) {
            total_fee = total_fee + package.fee as u128;
            total_weight = total_weight + package.weight;
            let mut txs = package.txs;
            selected.append(&mut txs);
            proof {
                assert(selected.deep_view() =~= before + package@.txs);
            }
        }
    }
    proof {
        assert(given.take(given.len() as int) =~= given);
    }
    Block { selected, total_weight, total_fee }
}

/// Selects a block from `packages`: sorts them by descending fee, ties in
/// the order given, and admits greedily whatever fits under `max_weight`
/// without a transaction that the block already holds.
pub fn select(packages: Vec<Package>, max_weight: u64) -> (block: Block)
    ensures
        block@ == selection(package_views(packages@), max_weight as nat),
        block.total_weight <= max_weight,
{
    select_in_order(sort_by_fee(packages), max_weight)
}

/// Builds the block for a pool: the package of every transaction, then the
/// selection among them under `max_weight`. Fails where a transaction of
/// the pool has no package. The block is within the capacity, holds no
/// transaction twice, and holds with each transaction everything that the
/// transaction depends on.
pub fn build_block(pool: &Pool, max_weight: u64) -> (built: Result<Block, BuildError>)
    requires
        pool.wf(),
    ensures
        match built {
            Ok(block) => {
                &&& block_of(pool@, max_weight as nat) == Ok::<BlockView, Id>(block@)
                &&& block.total_weight <= max_weight
                &&& block@.selected.no_duplicates()
                &&& forall|id: Id, dep: Id|
                    block@.selected.contains(id) && #[trigger] reaches(by_id(pool@), id, dep)
                        ==> block@.selected.contains(dep)
            },
            Err(BuildError::MissingDependency(id)) => block_of(pool@, max_weight as nat) == Err::<
                BlockView,
                Id,
            >(id@),
        },
{
    match build_packages(pool) {
        Ok(packages) => {
            let block = select(packages, max_weight);
            proof {
                lemma_selection_is_sound(pool@, max_weight as nat);
                assert forall|id: Id, dep: Id|
                    block@.selected.contains(id) && #[trigger] reaches(
                        by_id(pool@),
                        id,
                        dep,
                    ) implies block@.selected.contains(dep) by {
                    lemma_selection_holds_dependencies(pool@, max_weight as nat, id, dep);
                }
            }
            Ok(block)
        },
        Err(error) => Err(error),
    }
}

} // verus!
