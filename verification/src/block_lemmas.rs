use crate::block::{admits, admitted_at, block_of, scan, selection, shares_id, BlockView};
use crate::closure::{lemma_reaches_in_compose, reaches, reaches_in};
use crate::order::{fee_order, lemma_fee_order_member};
use crate::package::{
    all_closed, lemma_totals_of_concat, package_at, packages_of, total_fee, total_weight,
    PackageView,
};
use crate::package_lemmas::lemma_package_is_closure;
use crate::pool::{by_id, lemma_by_id_at, lemma_by_id_finite, unique_ids};
use crate::transaction::{Id, TransactionView};
use vstd::prelude::*;

verus! {

/// A block only grows: after the first `k` packages it holds a beginning of
/// what it holds in the end, with totals that are no higher.
pub proof fn lemma_scan_grows(packages: Seq<PackageView>, max_weight: nat, k: int)
    requires
        0 <= k <= packages.len(),
    ensures
        scan(packages.take(k), max_weight).selected.is_prefix_of(
            scan(packages, max_weight).selected,
        ),
        scan(packages.take(k), max_weight).total_weight <= scan(packages, max_weight).total_weight,
        scan(packages.take(k), max_weight).total_fee <= scan(packages, max_weight).total_fee,
    decreases packages.len(),
{
    if k == packages.len() {
        assert(packages.take(k) =~= packages);
    } else {
        let front = packages.drop_last();
        lemma_scan_grows(front, max_weight, k);
        assert(front.take(k) =~= packages.take(k));
    }
}

/// The weight of a block never exceeds the capacity.
pub proof fn lemma_scan_within_capacity(packages: Seq<PackageView>, max_weight: nat)
    ensures
        scan(packages, max_weight).total_weight <= max_weight,
    decreases packages.len(),
{
    if packages.len() > 0 {
        lemma_scan_within_capacity(packages.drop_last(), max_weight);
    }
}

/// A package that was passed over when its turn came could not be added to
/// the finished block either: it would still exceed the capacity, or still
/// share a transaction with the block.
pub proof fn lemma_rejected_stays_out(packages: Seq<PackageView>, max_weight: nat, k: int)
    requires
        0 <= k < packages.len(),
        !admitted_at(packages, max_weight, k),
    ensures
        !admits(scan(packages, max_weight), packages[k], max_weight),
{
    let early = scan(packages.take(k), max_weight);
    let late = scan(packages, max_weight);
    lemma_scan_grows(packages, max_weight, k);
    if shares_id(packages[k].txs, early.selected) {
        let (i, j) = choose|i: int, j: int|
            0 <= i < packages[k].txs.len() && 0 <= j < early.selected.len()
                && #[trigger] packages[k].txs[i] == #[trigger] early.selected[j];
        assert(packages[k].txs[i] == late.selected[j]);
    }
}

/// Where no package names a transaction twice, no block does.
pub proof fn lemma_scan_selects_each_once(packages: Seq<PackageView>, max_weight: nat)
    requires
        forall|k: int| 0 <= k < packages.len() ==> (#[trigger] packages[k]).txs.no_duplicates(),
    ensures
        scan(packages, max_weight).selected.no_duplicates(),
    decreases packages.len(),
{
    if packages.len() > 0 {
        let front = packages.drop_last();
        let block = scan(front, max_weight);
        let package = packages.last();
        assert forall|k: int| 0 <= k < front.len() implies (
        #[trigger] front[k]).txs.no_duplicates() by {
            assert(front[k] == packages[k]);
        }
        lemma_scan_selects_each_once(front, max_weight);
        if admits(block, package, max_weight) {
            assert(packages[packages.len() - 1].txs.no_duplicates());
            vstd::seq_lib::lemma_no_dup_in_concat(block.selected, package.txs);
        }
    }
}

/// A package that shares a transaction with a package admitted before it is
/// passed over whole: the block is the same after its turn as before, also
/// where some of its transactions are not in the block.
pub proof fn lemma_conflict_rejects_whole(
    packages: Seq<PackageView>,
    max_weight: nat,
    earlier: int,
    later: int,
)
    requires
        0 <= earlier < later < packages.len(),
        admitted_at(packages, max_weight, earlier),
        shares_id(packages[later].txs, packages[earlier].txs),
    ensures
        !admitted_at(packages, max_weight, later),
        scan(packages.take(later + 1), max_weight) == scan(packages.take(later), max_weight),
{
    let upto = packages.take(later);
    let before = scan(upto.take(earlier), max_weight);
    let with_earlier = scan(upto.take(earlier + 1), max_weight);
    let at_turn = scan(upto, max_weight);
    assert(upto.take(earlier) =~= packages.take(earlier));
    assert(upto.take(earlier + 1).drop_last() =~= packages.take(earlier));
    assert(upto.take(earlier + 1).last() == packages[earlier]);
    assert(with_earlier.selected == before.selected + packages[earlier].txs);
    lemma_scan_grows(upto, max_weight, earlier + 1);
    let (i, j) = choose|i: int, j: int|
        0 <= i < packages[later].txs.len() && 0 <= j < packages[earlier].txs.len()
            && #[trigger] packages[later].txs[i] == #[trigger] packages[earlier].txs[j];
    let at = before.selected.len() + j;
    assert(with_earlier.selected[at] == packages[earlier].txs[j]);
    assert(packages[later].txs[i] == at_turn.selected[at]);
    assert(shares_id(packages[later].txs, at_turn.selected));
    assert(packages.take(later + 1).drop_last() =~= upto);
    assert(packages.take(later + 1).last() == packages[later]);
}

/// Every transaction of a block came in with a package that was admitted
/// whole: all transactions of that package are in the block.
pub proof fn lemma_selected_with_package(packages: Seq<PackageView>, max_weight: nat, id: Id) -> (k:
    int)
    requires
        scan(packages, max_weight).selected.contains(id),
    ensures
        0 <= k < packages.len(),
        packages[k].txs.contains(id),
        forall|other: Id| #[trigger]
            packages[k].txs.contains(other) ==> scan(packages, max_weight).selected.contains(
                other,
            ),
    decreases packages.len(),
{
    let front = packages.drop_last();
    let block = scan(front, max_weight);
    let package = packages.last();
    let grown = scan(packages, max_weight);
    let at = grown.selected.index_of(id);
    if admits(block, package, max_weight) && at >= block.selected.len() {
        assert(package.txs[at - block.selected.len()] == id);
        assert forall|other: Id| #[trigger]
            package.txs.contains(other) implies grown.selected.contains(other) by {
            let i = package.txs.index_of(other);
            assert(grown.selected[block.selected.len() + i] == other);
        }
        packages.len() - 1
    } else {
        assert(block.selected[at] == id);
        let k = lemma_selected_with_package(front, max_weight, id);
        assert(front[k] == packages[k]);
        assert forall|other: Id| #[trigger]
            packages[k].txs.contains(other) implies grown.selected.contains(other) by {
            let i = block.selected.index_of(other);
            assert(grown.selected[i] == other);
        }
        k
    }
}

/// The totals of a block are the fees and the weights of its transactions,
/// where those of each package are the fees and the weights of its own.
pub proof fn lemma_scan_totals(
    txs: Map<Id, TransactionView>,
    packages: Seq<PackageView>,
    max_weight: nat,
)
    requires
        forall|k: int|
            0 <= k < packages.len() ==> (#[trigger] packages[k]).fee == total_fee(
                txs,
                packages[k].txs,
            ) && packages[k].weight == total_weight(txs, packages[k].txs),
    ensures
        scan(packages, max_weight).total_fee == total_fee(
            txs,
            scan(packages, max_weight).selected,
        ),
        scan(packages, max_weight).total_weight == total_weight(
            txs,
            scan(packages, max_weight).selected,
        ),
    decreases packages.len(),
{
    if packages.len() > 0 {
        let front = packages.drop_last();
        assert forall|k: int| 0 <= k < front.len() implies (#[trigger] front[k]).fee == total_fee(
            txs,
            front[k].txs,
        ) && front[k].weight == total_weight(txs, front[k].txs) by {
            assert(front[k] == packages[k]);
        }
        lemma_scan_totals(txs, front, max_weight);
        assert(packages[packages.len() - 1].fee == total_fee(txs, packages.last().txs));
        lemma_totals_of_concat(txs, scan(front, max_weight).selected, packages.last().txs);
    }
}

/// The weight of a selection never exceeds the capacity, and the selection
/// cannot be added to: a package that was passed over when its turn came
/// would still exceed the capacity of the finished block, or still share a
/// transaction with it.
pub proof fn lemma_selection_within_capacity(packages: Seq<PackageView>, max_weight: nat)
    ensures
        selection(packages, max_weight).total_weight <= max_weight,
        forall|k: int|
            0 <= k < fee_order(packages).len() && !#[trigger] admitted_at(
                fee_order(packages),
                max_weight,
                k,
            ) ==> !admits(selection(packages, max_weight), fee_order(packages)[k], max_weight),
{
    let sorted = fee_order(packages);
    lemma_scan_within_capacity(sorted, max_weight);
    assert forall|k: int|
        0 <= k < sorted.len() && !#[trigger] admitted_at(sorted, max_weight, k) implies !admits(
        selection(packages, max_weight),
        sorted[k],
        max_weight,
    ) by {
        lemma_rejected_stays_out(sorted, max_weight, k);
    }
}

/// Where no package names a transaction twice, no transaction is selected
/// twice.
pub proof fn lemma_selection_selects_each_once(packages: Seq<PackageView>, max_weight: nat)
    requires
        forall|k: int| 0 <= k < packages.len() ==> (#[trigger] packages[k]).txs.no_duplicates(),
    ensures
        selection(packages, max_weight).selected.no_duplicates(),
{
    let sorted = fee_order(packages);
    assert forall|k: int| 0 <= k < sorted.len() implies (
    #[trigger] sorted[k]).txs.no_duplicates() by {
        let m = lemma_fee_order_member(packages, k);
        assert(packages[m].txs.no_duplicates());
    }
    lemma_scan_selects_each_once(sorted, max_weight);
}

/// What holds of the block selected for a pool in which every transaction
/// has a package: its weight is within the capacity; no transaction is in
/// it twice; each of its transactions is in the pool; its totals are the
/// fees and the weights of its transactions.
pub proof fn lemma_selection_is_sound(pool: Seq<TransactionView>, max_weight: nat)
    requires
        unique_ids(pool),
        all_closed(pool),
    ensures
        selection(packages_of(pool), max_weight).total_weight <= max_weight,
        selection(packages_of(pool), max_weight).selected.no_duplicates(),
        forall|id: Id| #[trigger]
            selection(packages_of(pool), max_weight).selected.contains(id) ==> by_id(
                pool,
            ).contains_key(id),
        selection(packages_of(pool), max_weight).total_fee == total_fee(
            by_id(pool),
            selection(packages_of(pool), max_weight).selected,
        ),
        selection(packages_of(pool), max_weight).total_weight == total_weight(
            by_id(pool),
            selection(packages_of(pool), max_weight).selected,
        ),
{
    let txs = by_id(pool);
    let sorted = fee_order(packages_of(pool));
    let block = scan(sorted, max_weight);
    lemma_by_id_finite(pool);
    lemma_scan_within_capacity(sorted, max_weight);
    assert forall|k: int| 0 <= k < sorted.len() implies {
        &&& (#[trigger] sorted[k]).txs.no_duplicates()
        &&& sorted[k].fee == total_fee(txs, sorted[k].txs)
        &&& sorted[k].weight == total_weight(txs, sorted[k].txs)
        &&& forall|i: int|
            0 <= i < sorted[k].txs.len() ==> txs.contains_key(#[trigger] sorted[k].txs[i])
    } by {
        let m = lemma_fee_order_member(packages_of(pool), k);
        lemma_by_id_at(pool, m);
        lemma_package_is_closure(txs, pool[m].id);
        assert(package_at(pool, m) is Ok);
    }
    lemma_scan_selects_each_once(sorted, max_weight);
    lemma_scan_totals(txs, sorted, max_weight);
    assert forall|id: Id| #[trigger] block.selected.contains(id) implies txs.contains_key(id) by {
        let k = lemma_selected_with_package(sorted, max_weight, id);
        let i = sorted[k].txs.index_of(id);
        assert(txs.contains_key(sorted[k].txs[i]));
    }
}

/// A block holds, with each of its transactions, everything that the
/// transaction depends on, directly or indirectly.
pub proof fn lemma_selection_holds_dependencies(
    pool: Seq<TransactionView>,
    max_weight: nat,
    id: Id,
    dep: Id,
)
    requires
        unique_ids(pool),
        all_closed(pool),
        selection(packages_of(pool), max_weight).selected.contains(id),
        reaches(by_id(pool), id, dep),
    ensures
        selection(packages_of(pool), max_weight).selected.contains(dep),
{
    let txs = by_id(pool);
    let sorted = fee_order(packages_of(pool));
    lemma_by_id_finite(pool);
    let k = lemma_selected_with_package(sorted, max_weight, id);
    let m = lemma_fee_order_member(packages_of(pool), k);
    lemma_by_id_at(pool, m);
    lemma_package_is_closure(txs, pool[m].id);
    assert(package_at(pool, m) is Ok);
    let root = pool[m].id;
    assert(reaches(txs, root, id));
    let first = choose|steps: nat| reaches_in(txs, root, id, steps);
    let second = choose|steps: nat| reaches_in(txs, id, dep, steps);
    lemma_reaches_in_compose(txs, root, id, dep, first, second);
    assert(reaches(txs, root, dep));
    assert(sorted[k].txs.contains(dep));
}

/// Building a block twice for the same pool under the same capacity gives
/// the same selection and the same totals, or the same missing identifier:
/// the outcome is a function of the pool, in its order, and of the capacity.
pub proof fn lemma_repeated_runs_agree(
    pool: Seq<TransactionView>,
    max_weight: nat,
    first: Result<BlockView, Id>,
    second: Result<BlockView, Id>,
)
    requires
        first == block_of(pool, max_weight),
        second == block_of(pool, max_weight),
    ensures
        first == second,
{
}

} // verus!
