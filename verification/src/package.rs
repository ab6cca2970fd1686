use crate::closure::{enqueue_unseen, lemma_unvisited_shrinks, unvisited, visit, visit_order};
use crate::pool::{by_id, lemma_by_id_at, lemma_by_id_finite, Pool, MAX_POOL_LEN};
use crate::transaction::{Id, TransactionView};
use std::collections::VecDeque;
use vstd::prelude::*;

verus! {

/// A transaction together with everything it depends on, directly or
/// indirectly: the unit that is admitted to a block or left out of it.
#[derive(Debug, PartialEq, Eq)]
pub struct Package {
    /// Sum of the fees of the transactions in `txs`. The fees and the
    /// weights of all transactions of a pool add up within `u64`.
    pub fee: u64,
    /// Sum of the weights of the transactions in `txs`.
    pub weight: u64,
    /// The identifiers of the closure in the order of emission, which is the
    /// order of the visit reversed: the transaction the package was built
    /// for comes last.
    pub txs: Vec<String>,
}

/// The mathematical content of a [`Package`].
pub struct PackageView {
    pub fee: nat,
    pub weight: nat,
    pub txs: Seq<Id>,
}

impl View for Package {
    type V = PackageView;

    open spec fn view(&self) -> PackageView {
        PackageView { fee: self.fee as nat, weight: self.weight as nat, txs: self.txs.deep_view() }
    }
}

/// The sequence of the views of `packages`.
pub open spec fn package_views(packages: Seq<Package>) -> Seq<PackageView> {
    packages.map_values(|p: Package| p@)
}

/// Why no package could be built.
#[derive(Debug, PartialEq, Eq)]
pub enum BuildError {
    /// A transaction names a dependency, given here, that is not in the pool.
    MissingDependency(String),
}

/// The fees of the transactions named by `ids`, added up.
pub open spec fn total_fee(txs: Map<Id, TransactionView>, ids: Seq<Id>) -> nat
    decreases ids.len(),
{
    if ids.len() == 0 {
        0
    } else {
        total_fee(txs, ids.drop_last()) + txs[ids.last()].fee
    }
}

/// The weights of the transactions named by `ids`, added up.
pub open spec fn total_weight(txs: Map<Id, TransactionView>, ids: Seq<Id>) -> nat
    decreases ids.len(),
{
    if ids.len() == 0 {
        0
    } else {
        total_weight(txs, ids.drop_last()) + txs[ids.last()].weight
    }
}

/// The package of the transaction `root`: its closure in the order of
/// emission with the totals over it, or the identifier that the traversal
/// found missing.
pub open spec fn package_of(txs: Map<Id, TransactionView>, root: Id) -> Result<PackageView, Id> {
    match visit_order(txs, root) {
        Ok(order) => Ok(
            PackageView {
                fee: total_fee(txs, order.reverse()),
                weight: total_weight(txs, order.reverse()),
                txs: order.reverse(),
            },
        ),
        Err(id) => Err(id),
    }
}

/// The package of the transaction at position `i` of the pool.
pub open spec fn package_at(pool: Seq<TransactionView>, i: int) -> Result<PackageView, Id> {
    package_of(by_id(pool), pool[i].id)
}

/// Every transaction of the pool has a package.
pub open spec fn all_closed(pool: Seq<TransactionView>) -> bool {
    forall|i: int| 0 <= i < pool.len() ==> #[trigger] package_at(pool, i) is Ok
}

/// The packages of the transactions of the pool, in the order of the pool.
pub open spec fn packages_of(pool: Seq<TransactionView>) -> Seq<PackageView> {
    Seq::new(pool.len(), |i: int| package_at(pool, i)->Ok_0)
}

/// The first position of the pool whose transaction has no package.
pub open spec fn first_unclosed(pool: Seq<TransactionView>) -> int {
    choose|i: int|
        0 <= i < pool.len() && #[trigger] package_at(pool, i) is Err && forall|j: int|
            0 <= j < i ==> #[trigger] package_at(pool, j) is Ok
}

/// The identifier that is reported missing for a pool in which some
/// transaction has no package: the one that the traversal from the first
/// such transaction runs into.
pub open spec fn first_missing(pool: Seq<TransactionView>) -> Id {
    package_at(pool, first_unclosed(pool))->Err_0
}

/// The totals of a single identifier are the fee and the weight of its
/// transaction.
pub proof fn lemma_totals_of_one(txs: Map<Id, TransactionView>, id: Id)
    ensures
        total_fee(txs, seq![id]) == txs[id].fee,
        total_weight(txs, seq![id]) == txs[id].weight,
{
    let one = seq![id];
    assert(total_fee(txs, one.drop_last()) == 0);
    assert(total_weight(txs, one.drop_last()) == 0);
}

/// The totals do not depend on the direction in which the identifiers are
/// listed.
pub proof fn lemma_totals_of_reverse(txs: Map<Id, TransactionView>, ids: Seq<Id>)
    ensures
        total_fee(txs, ids.reverse()) == total_fee(txs, ids),
        total_weight(txs, ids.reverse()) == total_weight(txs, ids),
    decreases ids.len(),
{
    if ids.len() > 0 {
        let front = ids.drop_last();
        let one = seq![ids.last()];
        lemma_totals_of_reverse(txs, front);
        assert(ids.reverse() =~= one + front.reverse());
        lemma_totals_of_concat(txs, one, front.reverse());
        lemma_totals_of_one(txs, ids.last());
    }
}

/// The totals of two lists written one after the other are the sums of
/// their totals.
pub proof fn lemma_totals_of_concat(txs: Map<Id, TransactionView>, a: Seq<Id>, b: Seq<Id>)
    ensures
        total_fee(txs, a + b) == total_fee(txs, a) + total_fee(txs, b),
        total_weight(txs, a + b) == total_weight(txs, a) + total_weight(txs, b),
    decreases b.len(),
{
    if b.len() > 0 {
        lemma_totals_of_concat(txs, a, b.drop_last());
        assert((a + b).drop_last() =~= a + b.drop_last());
    }
}

/// A list without repetition whose members all lie in a finite set is no
/// longer than the set is large.
pub proof fn lemma_distinct_members_bounded(ids: Seq<Id>, among: Set<Id>)
    requires
        ids.no_duplicates(),
        among.finite(),
        forall|k: int| 0 <= k < ids.len() ==> among.contains(#[trigger] ids[k]),
    ensures
        ids.len() <= among.len(),
{
    ids.unique_seq_to_set();
    assert(ids.to_set().subset_of(among)) by {
        assert forall|id: Id| ids.to_set().contains(id) implies among.contains(id) by {
            assert(among.contains(ids[ids.index_of(id)]));
        }
    }
    vstd::set_lib::lemma_len_subset(ids.to_set(), among);
}

/// Whether `id` is one of `ids`.
pub fn contains_id(ids: &Vec<String>, id: &String) -> (found: bool)
    ensures
        found == ids.deep_view().contains(id@),
{
    let mut i: usize = 0;
    while i < ids.len()
        invariant
            i <= ids.len(),
            forall|k: int| 0 <= k < i ==> ids.deep_view()[k] != id@,
        decreases ids.len() - i,
    {
        if ids[i] == *id {
            assert(ids.deep_view()[i as int] == id@);
            return true;
        }
        i += 1;
    }
    false
}

fn queue_contains(queue: &VecDeque<&String>, id: &String) -> (found: bool)
    ensures
        found == queue.deep_view().contains(id@),
{
    let mut i: usize = 0;
    while i < queue.len()
        invariant
            i <= queue.len(),
            forall|k: int| 0 <= k < i ==> queue.deep_view()[k] != id@,
        decreases queue.len() - i,
    {
        if *queue[i] == *id {
            assert(queue.deep_view()[i as int] == id@);
            return true;
        }
        i += 1;
    }
    false
}

fn enqueue_unseen_deps<'a>(
    queue: &mut VecDeque<&'a String>,
    closure: &Vec<String>,
    deps: &'a Vec<String>,
)
    ensures
        final(queue).deep_view() == enqueue_unseen(
            old(queue).deep_view(),
            closure.deep_view(),
            deps.deep_view(),
        ),
{
    let mut i: usize = 0;
    while i < deps.len()
        invariant
            i <= deps.len(),
            queue.deep_view() == enqueue_unseen(
                old(queue).deep_view(),
                closure.deep_view(),
                deps.deep_view().take(i as int),
            ),
        decreases deps.len() - i,
    {
        let dep: &'a String = &deps[i];
        proof {
            let offered = deps.deep_view().take(i + 1);
            assert(offered.drop_last() =~= deps.deep_view().take(i as int));
        }
        if !contains_id(closure, dep) && !queue_contains(queue, dep) {
            queue.push_back(dep);
        }
        i += 1;
    }
    proof {
        assert(deps.deep_view().take(i as int) =~= deps.deep_view());
    }
}

fn reversed(ids: Vec<String>) -> (out: Vec<String>)
    ensures
        out.deep_view() == ids.deep_view().reverse(),
{
    let ghost given = ids.deep_view();
    let mut ids = ids;
    let mut out: Vec<String> = Vec::new();
    while ids.len() > 0
        invariant
            ids.len() + out.len() == given.len(),
            forall|k: int| 0 <= k < ids.len() ==> ids.deep_view()[k] == given[k],
            forall|k: int| 0 <= k < out.len() ==> out.deep_view()[k] == given[given.len() - 1 - k],
        decreases ids.len(),
    {
        let ghost last = ids.deep_view()[ids.len() - 1];
        let ghost moved = out.deep_view();
        let id = ids.pop().unwrap();
        out.push(id);
        assert(out.deep_view() =~= moved.push(last));
    }
    out
}

/// Builds the package of the transaction at position `root` of the pool by
/// a breadth-first traversal of its dependencies.
pub fn build_package(pool: &Pool, root: usize) -> (built: Result<Package, BuildError>)
    requires
        pool.wf(),
        root < pool@.len(),
    ensures
        match built {
            Ok(package) => package_of(by_id(pool@), pool@[root as int].id) == Ok::<PackageView, Id>(
                package@,
            ),
            Err(BuildError::MissingDependency(id)) => package_of(
                by_id(pool@),
                pool@[root as int].id,
            ) == Err::<PackageView, Id>(id@),
        },
{
    let ghost txs = by_id(pool@);
    let ghost root_id = pool@[root as int].id;
    let root_tx = pool.transaction(root);
    let mut fee: u64 = root_tx.fee as u64;
    let mut weight: u64 = root_tx.weight as u64;
    let mut closure: Vec<String> = Vec::new();
    closure.push(root_tx.id.clone());
    let mut queue: VecDeque<&String> = VecDeque::new();
    proof {
        lemma_by_id_finite(pool@);
        lemma_by_id_at(pool@, root as int);
        assert(closure.deep_view() =~= seq![root_id]);
        assert(queue.deep_view() =~= Seq::<Id>::empty());
    }
    enqueue_unseen_deps(&mut queue, &closure, &root_tx.deps);
    proof {
        lemma_totals_of_one(txs, root_id);
    }
    while queue.len() > 0
        invariant
            pool.wf(),
            root < pool@.len(),
            root_id == pool@[root as int].id,
            txs == by_id(pool@),
            txs.dom().finite(),
            txs.dom().len() <= MAX_POOL_LEN,
            visit(txs, closure.deep_view(), queue.deep_view()) == visit_order(txs, root_id),
            closure.deep_view().no_duplicates(),
            forall|k: int|
                0 <= k < closure.len() ==> txs.contains_key(#[trigger] closure.deep_view()[k]),
            fee == total_fee(txs, closure.deep_view()),
            weight == total_weight(txs, closure.deep_view()),
            fee <= closure.len() * u32::MAX,
            weight <= closure.len() * u32::MAX,
        decreases unvisited(txs, closure.deep_view()).len(), queue.len(),
    {
        let ghost visited = closure.deep_view();
        let ghost waiting = queue.deep_view();
        let id: &String = queue.pop_front().unwrap();
        proof {
            assert(queue.deep_view() =~= waiting.drop_first());
        }
        if !contains_id(&closure, id) {
            match pool.get(id.as_str()) {
                None => {
                    return Err(BuildError::MissingDependency(id.clone()));
                },
                Some(tx) => {
                    proof {
                        lemma_unvisited_shrinks(txs, visited, id@);
                        let grown = visited.push(id@);
                        lemma_distinct_members_bounded(grown, txs.dom());
                        assert((visited.len() + 1) * u32::MAX <= u32::MAX * u32::MAX)
                            by (nonlinear_arith)
                            requires
                                visited.len() + 1 <= u32::MAX,
                        ;
                        assert((visited.len() + 1) * u32::MAX == visited.len() * u32::MAX
                            + u32::MAX) by (nonlinear_arith);
                    }
                    fee = fee + tx.fee as u64;
                    weight = weight + tx.weight as u64;
                    closure.push(id.clone());
                    proof {
                        assert(closure.deep_view() =~= visited.push(id@));
                        assert(closure.deep_view().drop_last() =~= visited);
                    }
                    enqueue_unseen_deps(&mut queue, &closure, &tx.deps);
                },
            }
        }
    }
    proof {
        lemma_totals_of_reverse(txs, closure.deep_view());
    }
    Ok(Package { fee, weight, txs: reversed(closure) })
}

/// Builds the package of every transaction of the pool, in the order of the
/// pool. Fails at the first transaction whose closure runs into an
/// identifier that is not in the pool, and reports that identifier.
pub fn build_packages(pool: &Pool) -> (built: Result<Vec<Package>, BuildError>)
    requires
        pool.wf(),
    ensures
        match built {
            Ok(packages) => all_closed(pool@) && package_views(packages@) == packages_of(pool@),
            Err(BuildError::MissingDependency(id)) => !all_closed(pool@) && id@ == first_missing(
                pool@,
            ),
        },
{
    let mut packages: Vec<Package> = Vec::new();
    let mut i: usize = 0;
    let n: usize = pool.len();
    while i < n
        invariant
            pool.wf(),
            n == pool@.len(),
            i <= n,
            packages.len() == i,
            forall|j: int|
                0 <= j < i ==> #[trigger] package_at(pool@, j) == Ok::<PackageView, Id>(
                    packages[j]@,
                ),
        decreases n - i,
    {
        match build_package(pool, i) {
            Ok(package) => {
                packages.push(package);
            },
            Err(BuildError::MissingDependency(id)) => {
                proof {
                    // `i` is the first position without a package, and there
                    // is one such position only
                    let first = first_unclosed(pool@);
                    assert(package_at(pool@, i as int) is Err);
                    assert(package_at(pool@, first) is Err && forall|j: int|
                        0 <= j < first ==> #[trigger] package_at(pool@, j) is Ok);
                    assert(first == i);
                }
                return Err(BuildError::MissingDependency(id));
            },
        }
        i += 1;
    }
    proof {
        assert(package_views(packages@) =~= packages_of(pool@));
    }
    Ok(packages)
}

} // verus!
