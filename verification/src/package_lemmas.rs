use crate::closure::{
    depends_on, is_closure_order, lemma_reaches_in_extend, lemma_visit_order, named_before,
    reaches, reaches_in, requires_transitively, visit_order,
};
use crate::package::{all_closed, package_at, package_of};
use crate::pool::{by_id, holds_id, lemma_by_id_at, lemma_by_id_finite, position_of, unique_ids};
use crate::transaction::{Id, TransactionView};
use vstd::prelude::*;

verus! {

/// Every dependency that a transaction of the pool names is in the pool.
pub open spec fn deps_resolved(pool: Seq<TransactionView>) -> bool {
    forall|i: int, d: Id|
        0 <= i < pool.len() && #[trigger] pool[i].deps.contains(d) ==> holds_id(pool, d)
}

/// The identifier `wanted` stands in `emitted` at a position before `k`.
pub open spec fn emitted_before(emitted: Seq<Id>, wanted: Id, k: int) -> bool {
    exists|j: int| 0 <= j < k && #[trigger] emitted[j] == wanted
}

/// The identifier at position `k` of `emitted` is named as a dependency by
/// one at a later position.
pub open spec fn named_after(txs: Map<Id, TransactionView>, emitted: Seq<Id>, k: int) -> bool {
    exists|j: int| k < j < emitted.len() && #[trigger] depends_on(txs, emitted[j], emitted[k])
}

/// In `emitted`, every direct dependency of a member stands before the
/// member.
pub open spec fn direct_deps_first(txs: Map<Id, TransactionView>, emitted: Seq<Id>) -> bool {
    forall|k: int, d: Id|
        0 <= k < emitted.len() && #[trigger] depends_on(txs, emitted[k], d) ==> emitted_before(
            emitted,
            d,
            k,
        )
}

/// A package holds the closure of its transaction and nothing else. The
/// package of a transaction of the pool exists exactly when the pool holds
/// everything that the transaction reaches. Its identifiers are then those
/// that the transaction reaches, each once and each in the pool; the
/// transaction itself comes last, and every other member is a dependency of
/// a member that comes after it. Where there is no package, the identifier
/// reported is one that the transaction reaches and the pool lacks.
pub proof fn lemma_package_is_closure(txs: Map<Id, TransactionView>, root: Id)
    requires
        txs.dom().finite(),
        txs.contains_key(root),
    ensures
        match package_of(txs, root) {
            Ok(package) => {
                &&& package.txs.len() >= 1
                &&& package.txs.last() == root
                &&& package.txs.no_duplicates()
                &&& forall|id: Id| #[trigger] package.txs.contains(id) <==> reaches(txs, root, id)
                &&& forall|k: int|
                    0 <= k < package.txs.len() ==> txs.contains_key(#[trigger] package.txs[k])
                &&& forall|k: int|
                    0 <= k < package.txs.len() - 1 ==> #[trigger] named_after(txs, package.txs, k)
            },
            Err(id) => reaches(txs, root, id) && !txs.contains_key(id),
        },
        package_of(txs, root) is Ok <==> forall|id: Id| #[trigger]
            reaches(txs, root, id) ==> txs.contains_key(id),
{
    lemma_visit_order(txs, root);
    if let Ok(order) = visit_order(txs, root) {
        let emitted = order.reverse();
        let n = order.len() as int;
        assert(is_closure_order(txs, root, order));
        assert forall|id: Id| #[trigger] emitted.contains(id) <==> reaches(txs, root, id) by {
            if emitted.contains(id) {
                let k = emitted.index_of(id);
                assert(order[n - 1 - k] == id);
                assert(order.contains(id));
            }
            if reaches(txs, root, id) {
                assert(order.contains(id));
                let k = order.index_of(id);
                assert(emitted[n - 1 - k] == id);
            }
        }
        assert forall|k: int| 0 <= k < emitted.len() implies txs.contains_key(
            #[trigger] emitted[k],
        ) by {
            assert(emitted[k] == order[n - 1 - k]);
        }
        assert forall|k: int| 0 <= k < emitted.len() - 1 implies #[trigger] named_after(
            txs,
            emitted,
            k,
        ) by {
            let at = n - 1 - k;
            assert(named_before(txs, order, at));
            let j = choose|j: int| 0 <= j < at && #[trigger] depends_on(txs, order[j], order[at]);
            assert(emitted[n - 1 - j] == order[j]);
            assert(depends_on(txs, emitted[n - 1 - j], emitted[k]));
        }
        assert(emitted.no_duplicates()) by {
            assert forall|i: int, j: int|
                0 <= i < emitted.len() && 0 <= j < emitted.len() && i != j implies emitted[i]
                != emitted[j] by {
                assert(emitted[i] == order[n - 1 - i]);
                assert(emitted[j] == order[n - 1 - j]);
            }
        }
    }
}

proof fn lemma_chain_comes_first(
    txs: Map<Id, TransactionView>,
    emitted: Seq<Id>,
    k: int,
    wanted: Id,
    steps: nat,
)
    requires
        direct_deps_first(txs, emitted),
        0 <= k < emitted.len(),
        steps >= 1,
        reaches_in(txs, emitted[k], wanted, steps),
    ensures
        emitted_before(emitted, wanted, k),
    decreases steps,
{
    let mid = choose|mid: Id| #[trigger]
        depends_on(txs, emitted[k], mid) && reaches_in(txs, mid, wanted, (steps - 1) as nat);
    assert(emitted_before(emitted, mid, k));
    let j = choose|j: int| 0 <= j < k && #[trigger] emitted[j] == mid;
    if steps > 1 {
        lemma_chain_comes_first(txs, emitted, j, wanted, (steps - 1) as nat);
        let i = choose|i: int| 0 <= i < j && #[trigger] emitted[i] == wanted;
        assert(emitted[i] == wanted);
    }
}

/// A package whose members each stand after their direct dependencies has
/// each member after all of its dependencies, direct and indirect. This
/// leaves out the packages in which some member stands before one of its
/// direct dependencies, which can happen where a dependency is named by two
/// members or the dependencies run in a circle.
pub proof fn lemma_dependencies_come_first(
    txs: Map<Id, TransactionView>,
    root: Id,
    k: int,
    wanted: Id,
)
    requires
        package_of(txs, root) is Ok,
        direct_deps_first(txs, package_of(txs, root)->Ok_0.txs),
        0 <= k < package_of(txs, root)->Ok_0.txs.len(),
        requires_transitively(txs, package_of(txs, root)->Ok_0.txs[k], wanted),
    ensures
        emitted_before(package_of(txs, root)->Ok_0.txs, wanted, k),
{
    let emitted = package_of(txs, root)->Ok_0.txs;
    let steps = choose|steps: nat| steps >= 1 && reaches_in(txs, emitted[k], wanted, steps);
    lemma_chain_comes_first(txs, emitted, k, wanted, steps);
}

/// Among `members`, no identifier is named as a dependency by two members,
/// and `root` is named by none.
pub open spec fn named_at_most_once(
    txs: Map<Id, TransactionView>,
    root: Id,
    members: Seq<Id>,
) -> bool {
    &&& forall|a: Id, b: Id, d: Id|
        members.contains(a) && members.contains(b) && #[trigger] depends_on(txs, a, d)
            && #[trigger] depends_on(txs, b, d) ==> a == b
    &&& forall|a: Id| members.contains(a) ==> !#[trigger] depends_on(txs, a, root)
}

/// A package in which every member but the transaction it was built for is
/// named by exactly one member, and that transaction by none, has each
/// member after its direct dependencies.
pub proof fn lemma_tree_has_direct_deps_first(txs: Map<Id, TransactionView>, root: Id)
    requires
        txs.dom().finite(),
        txs.contains_key(root),
        package_of(txs, root) is Ok,
        named_at_most_once(txs, root, package_of(txs, root)->Ok_0.txs),
    ensures
        direct_deps_first(txs, package_of(txs, root)->Ok_0.txs),
{
    let emitted = package_of(txs, root)->Ok_0.txs;
    lemma_package_is_closure(txs, root);
    assert forall|k: int, d: Id|
        0 <= k < emitted.len() && #[trigger] depends_on(txs, emitted[k], d) implies emitted_before(
        emitted,
        d,
        k,
    ) by {
        let c = emitted[k];
        assert(emitted.contains(c));
        assert(reaches(txs, root, c));
        let steps = choose|steps: nat| reaches_in(txs, root, c, steps);
        lemma_reaches_in_extend(txs, root, c, d, steps);
        assert(reaches(txs, root, d));
        assert(emitted.contains(d));
        let j = emitted.index_of(d);
        assert(d != root);
        assert(named_after(txs, emitted, j));
        let i = choose|i: int|
            j < i < emitted.len() && #[trigger] depends_on(txs, emitted[i], emitted[j]);
        assert(emitted.contains(emitted[i]));
        assert(emitted[i] == c);
        assert(emitted[j] == d);
    }
}

proof fn lemma_resolved_reaches_within(
    pool: Seq<TransactionView>,
    from: Id,
    to: Id,
    steps: nat,
)
    requires
        unique_ids(pool),
        deps_resolved(pool),
        holds_id(pool, from),
        reaches_in(by_id(pool), from, to, steps),
    ensures
        holds_id(pool, to),
    decreases steps,
{
    if steps > 0 {
        let txs = by_id(pool);
        let mid = choose|mid: Id| #[trigger]
            depends_on(txs, from, mid) && reaches_in(txs, mid, to, (steps - 1) as nat);
        let i = position_of(pool, from);
        lemma_by_id_at(pool, i);
        assert(pool[i].deps.contains(mid));
        lemma_resolved_reaches_within(pool, mid, to, (steps - 1) as nat);
    }
}

/// Every transaction of a pool has a package exactly when every dependency
/// named in the pool is in the pool.
pub proof fn lemma_all_closed_iff_resolved(pool: Seq<TransactionView>)
    requires
        unique_ids(pool),
    ensures
        all_closed(pool) <==> deps_resolved(pool),
{
    let txs = by_id(pool);
    lemma_by_id_finite(pool);
    if all_closed(pool) {
        assert forall|i: int, d: Id|
            0 <= i < pool.len() && #[trigger] pool[i].deps.contains(d) implies holds_id(
            pool,
            d,
        ) by {
            lemma_by_id_at(pool, i);
            lemma_package_is_closure(txs, pool[i].id);
            assert(package_at(pool, i) is Ok);
            assert(depends_on(txs, pool[i].id, d) && reaches_in(txs, d, d, 0));
            assert(reaches_in(txs, pool[i].id, d, 1));
            assert(reaches(txs, pool[i].id, d));
        }
    }
    if deps_resolved(pool) {
        assert forall|i: int| 0 <= i < pool.len() implies #[trigger] package_at(pool, i) is Ok by {
            lemma_by_id_at(pool, i);
            lemma_package_is_closure(txs, pool[i].id);
            assert forall|id: Id| #[trigger] reaches(txs, pool[i].id, id) implies txs.contains_key(
                id,
            ) by {
                let steps = choose|steps: nat| reaches_in(txs, pool[i].id, id, steps);
                lemma_resolved_reaches_within(pool, pool[i].id, id, steps);
            }
        }
    }
}

} // verus!
