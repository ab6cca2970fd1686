use crate::transaction::{Id, TransactionView};
use vstd::prelude::*;

verus! {

/// `a` is in the pool and names `b` among its dependencies.
pub open spec fn depends_on(txs: Map<Id, TransactionView>, a: Id, b: Id) -> bool {
    txs.contains_key(a) && txs[a].deps.contains(b)
}

/// A chain of exactly `steps` dependencies leads from `from` to `to`.
pub open spec fn reaches_in(txs: Map<Id, TransactionView>, from: Id, to: Id, steps: nat) -> bool
    decreases steps,
{
    if steps == 0 {
        from == to
    } else {
        exists|mid: Id| #[trigger]
            depends_on(txs, from, mid) && reaches_in(txs, mid, to, (steps - 1) as nat)
    }
}

/// `to` is `from` itself or one of its direct or indirect dependencies.
pub open spec fn reaches(txs: Map<Id, TransactionView>, from: Id, to: Id) -> bool {
    exists|steps: nat| reaches_in(txs, from, to, steps)
}

/// `to` is a direct or indirect dependency of `from`.
pub open spec fn requires_transitively(txs: Map<Id, TransactionView>, from: Id, to: Id) -> bool {
    exists|steps: nat| steps >= 1 && reaches_in(txs, from, to, steps)
}

/// The identifiers of the pool that `closure` does not hold yet.
pub open spec fn unvisited(txs: Map<Id, TransactionView>, closure: Seq<Id>) -> Set<Id> {
    txs.dom().difference(closure.to_set())
}

/// The work queue after the identifiers of `deps` were offered to it in
/// order: one that is already in `closure` or already waiting is passed
/// over, any other joins at the back.
pub open spec fn enqueue_unseen(queue: Seq<Id>, closure: Seq<Id>, deps: Seq<Id>) -> Seq<Id>
    decreases deps.len(),
{
    if deps.len() == 0 {
        queue
    } else {
        let waiting = enqueue_unseen(queue, closure, deps.drop_last());
        let dep = deps.last();
        if closure.contains(dep) || waiting.contains(dep) {
            waiting
        } else {
            waiting.push(dep)
        }
    }
}

/// The breadth-first traversal from the state (`closure`, `queue`) to its
/// end. Each step takes the identifier at the front of the queue. One that
/// `closure` holds already is dropped. One that is not in the pool ends the
/// traversal with that identifier as the error. Any other is appended to
/// `closure`, and its dependencies are offered to the queue. With the queue
/// empty, `closure` is the result: the identifiers in the order of their
/// visit.
pub open spec fn visit(txs: Map<Id, TransactionView>, closure: Seq<Id>, queue: Seq<Id>) -> Result<
    Seq<Id>,
    Id,
>
    decreases unvisited(txs, closure).len(), queue.len(),
    when txs.dom().finite()
    via visit_decreases
{
    if queue.len() == 0 {
        Ok(closure)
    } else {
        let id = queue[0];
        let rest = queue.drop_first();
        if closure.contains(id) {
            visit(txs, closure, rest)
        } else if !txs.contains_key(id) {
            Err(id)
        } else {
            let grown = closure.push(id);
            visit(txs, grown, enqueue_unseen(rest, grown, txs[id].deps))
        }
    }
}

#[via_fn]
proof fn visit_decreases(txs: Map<Id, TransactionView>, closure: Seq<Id>, queue: Seq<Id>) {
    if queue.len() != 0 {
        let id = queue[0];
        if !closure.contains(id) && txs.contains_key(id) {
            lemma_unvisited_shrinks(txs, closure, id);
        }
    }
}

/// The order in which the traversal from `root` visits the closure of
/// `root`, or the first identifier it meets that is not in the pool.
pub open spec fn visit_order(txs: Map<Id, TransactionView>, root: Id) -> Result<Seq<Id>, Id> {
    visit(txs, seq![root], enqueue_unseen(Seq::<Id>::empty(), seq![root], txs[root].deps))
}

/// Visiting one more identifier of the pool leaves fewer unvisited.
pub proof fn lemma_unvisited_shrinks(txs: Map<Id, TransactionView>, closure: Seq<Id>, id: Id)
    requires
        txs.dom().finite(),
        txs.contains_key(id),
        !closure.contains(id),
    ensures
        unvisited(txs, closure).finite(),
        unvisited(txs, closure.push(id)).len() + 1 == unvisited(txs, closure).len(),
{
    let before = unvisited(txs, closure);
    assert(before.contains(id));
    assert(unvisited(txs, closure.push(id)) =~= before.remove(id)) by {
        assert forall|x: Id| closure.push(id).contains(x) <==> (x == id || closure.contains(x)) by {
            if closure.contains(x) {
                let k = closure.index_of(x);
                assert(closure.push(id)[k] == x);
            }
            if x == id {
                assert(closure.push(id)[closure.len() as int] == x);
            }
        }
    }
}

/// What offering `deps` to the queue does: those that waited still wait in
/// their places, each newcomer is one of `deps` that `closure` lacks, and
/// every one of `deps` is now in `closure` or waiting.
pub proof fn lemma_enqueue_unseen(queue: Seq<Id>, closure: Seq<Id>, deps: Seq<Id>)
    ensures
        queue.len() <= enqueue_unseen(queue, closure, deps).len(),
        forall|k: int|
            0 <= k < queue.len() ==> #[trigger] enqueue_unseen(queue, closure, deps)[k] == queue[k],
        forall|k: int|
            queue.len() <= k < enqueue_unseen(queue, closure, deps).len() ==> deps.contains(
                #[trigger] enqueue_unseen(queue, closure, deps)[k],
            ) && !closure.contains(enqueue_unseen(queue, closure, deps)[k]),
        forall|d: Id| #[trigger]
            deps.contains(d) ==> closure.contains(d) || enqueue_unseen(
                queue,
                closure,
                deps,
            ).contains(d),
    decreases deps.len(),
{
    if deps.len() > 0 {
        let front = deps.drop_last();
        let dep = deps.last();
        let waiting = enqueue_unseen(queue, closure, front);
        let after = enqueue_unseen(queue, closure, deps);
        lemma_enqueue_unseen(queue, closure, front);
        assert forall|k: int| queue.len() <= k < after.len() implies deps.contains(
            #[trigger] after[k],
        ) && !closure.contains(after[k]) by {
            if k < waiting.len() {
                assert(after[k] == waiting[k]);
                let i = front.index_of(waiting[k]);
                assert(deps[i] == waiting[k]);
            } else {
                assert(after[k] == dep);
                assert(deps[deps.len() - 1] == dep);
            }
        }
        assert forall|d: Id| #[trigger] deps.contains(d) implies closure.contains(d)
            || after.contains(d) by {
            let i = deps.index_of(d);
            if i < front.len() {
                assert(front[i] == d);
                assert(front.contains(d));
                if !closure.contains(d) {
                    let k = waiting.index_of(d);
                    assert(after[k] == d);
                }
            } else if !closure.contains(d) {
                if waiting.contains(d) {
                    let k = waiting.index_of(d);
                    assert(after[k] == d);
                } else {
                    assert(after[waiting.len() as int] == d);
                }
            }
        }
    }
}

/// A chain of dependencies can be continued by one more dependency.
pub proof fn lemma_reaches_in_extend(
    txs: Map<Id, TransactionView>,
    from: Id,
    via: Id,
    to: Id,
    steps: nat,
)
    requires
        reaches_in(txs, from, via, steps),
        depends_on(txs, via, to),
    ensures
        reaches_in(txs, from, to, steps + 1),
    decreases steps,
{
    if steps == 0 {
        assert(depends_on(txs, from, to) && reaches_in(txs, to, to, 0));
    } else {
        let mid = choose|mid: Id| #[trigger]
            depends_on(txs, from, mid) && reaches_in(txs, mid, via, (steps - 1) as nat);
        lemma_reaches_in_extend(txs, mid, via, to, (steps - 1) as nat);
        assert(depends_on(txs, from, mid) && reaches_in(txs, mid, to, steps));
    }
}

/// Dependency chains compose.
pub proof fn lemma_reaches_in_compose(
    txs: Map<Id, TransactionView>,
    from: Id,
    via: Id,
    to: Id,
    first: nat,
    second: nat,
)
    requires
        reaches_in(txs, from, via, first),
        reaches_in(txs, via, to, second),
    ensures
        reaches_in(txs, from, to, first + second),
    decreases first,
{
    if first > 0 {
        let mid = choose|mid: Id| #[trigger]
            depends_on(txs, from, mid) && reaches_in(txs, mid, via, (first - 1) as nat);
        lemma_reaches_in_compose(txs, mid, via, to, (first - 1) as nat, second);
        assert(depends_on(txs, from, mid) && reaches_in(
            txs,
            mid,
            to,
            (first + second - 1) as nat,
        ));
    }
}

/// Every dependency that a member of `members` names is a member too.
pub open spec fn closed_under_deps(txs: Map<Id, TransactionView>, members: Seq<Id>) -> bool {
    forall|c: Id, d: Id|
        members.contains(c) && #[trigger] depends_on(txs, c, d) ==> members.contains(d)
}

/// A set of identifiers that holds the dependencies of each of its members
/// holds all that its members reach.
pub proof fn lemma_closed_holds_reached(
    txs: Map<Id, TransactionView>,
    members: Seq<Id>,
    from: Id,
    to: Id,
    steps: nat,
)
    requires
        closed_under_deps(txs, members),
        members.contains(from),
        reaches_in(txs, from, to, steps),
    ensures
        members.contains(to),
    decreases steps,
{
    if steps > 0 {
        let mid = choose|mid: Id| #[trigger]
            depends_on(txs, from, mid) && reaches_in(txs, mid, to, (steps - 1) as nat);
        lemma_closed_holds_reached(txs, members, mid, to, (steps - 1) as nat);
    }
}

/// The identifier at position `k` of `order` is named as a dependency by one
/// at an earlier position.
pub open spec fn named_before(txs: Map<Id, TransactionView>, order: Seq<Id>, k: int) -> bool {
    exists|j: int| 0 <= j < k && #[trigger] depends_on(txs, order[j], order[k])
}

/// `order` lists the closure of `root` as a traversal visits it: `root`
/// first, then exactly the identifiers that `root` reaches, each once, each
/// in the pool, and each but `root` after some member that names it.
pub open spec fn is_closure_order(txs: Map<Id, TransactionView>, root: Id, order: Seq<Id>) -> bool {
    &&& order.len() >= 1
    &&& order[0] == root
    &&& order.no_duplicates()
    &&& forall|id: Id| #[trigger] order.contains(id) <==> reaches(txs, root, id)
    &&& forall|k: int| 0 <= k < order.len() ==> txs.contains_key(#[trigger] order[k])
    &&& forall|k: int| 1 <= k < order.len() ==> #[trigger] named_before(txs, order, k)
}

// Some member of `closure` names `id` as a dependency.
spec fn named_by_member(txs: Map<Id, TransactionView>, closure: Seq<Id>, id: Id) -> bool {
    exists|j: int| 0 <= j < closure.len() && #[trigger] depends_on(txs, closure[j], id)
}

// What holds of `closure` and `queue` at every step of the traversal from
// `root`.
spec fn visiting(
    txs: Map<Id, TransactionView>,
    root: Id,
    closure: Seq<Id>,
    queue: Seq<Id>,
) -> bool {
    &&& closure.len() >= 1
    &&& closure[0] == root
    &&& closure.no_duplicates()
    &&& forall|k: int|
        0 <= k < closure.len() ==> txs.contains_key(#[trigger] closure[k]) && reaches(
            txs,
            root,
            closure[k],
        )
    &&& forall|k: int| 0 <= k < queue.len() ==> reaches(txs, root, #[trigger] queue[k])
    &&& forall|c: Id, d: Id|
        closure.contains(c) && #[trigger] depends_on(txs, c, d) ==> closure.contains(d)
            || queue.contains(d)
    &&& forall|k: int| 1 <= k < closure.len() ==> #[trigger] named_before(txs, closure, k)
    &&& forall|k: int| 0 <= k < queue.len() ==> named_by_member(txs, closure, #[trigger] queue[k])
}

proof fn lemma_visit(txs: Map<Id, TransactionView>, root: Id, closure: Seq<Id>, queue: Seq<Id>)
    requires
        txs.dom().finite(),
        visiting(txs, root, closure, queue),
    ensures
        match visit(txs, closure, queue) {
            Ok(order) => is_closure_order(txs, root, order),
            Err(id) => reaches(txs, root, id) && !txs.contains_key(id),
        },
    decreases unvisited(txs, closure).len(), queue.len(),
{
    if queue.len() == 0 {
        assert(closed_under_deps(txs, closure));
        assert forall|id: Id| #[trigger] closure.contains(id) <==> reaches(txs, root, id) by {
            if reaches(txs, root, id) {
                let steps = choose|steps: nat| reaches_in(txs, root, id, steps);
                lemma_closed_holds_reached(txs, closure, root, id, steps);
            }
        }
    } else {
        let id = queue[0];
        let rest = queue.drop_first();
        if closure.contains(id) {
            assert forall|c: Id, d: Id|
                closure.contains(c) && #[trigger] depends_on(txs, c, d) implies closure.contains(d)
                || rest.contains(d) by {
                if !closure.contains(d) {
                    let k = queue.index_of(d);
                    assert(rest[k - 1] == d);
                }
            }
            assert forall|k: int| 0 <= k < rest.len() implies reaches(txs, root, #[trigger] rest[k])
                && named_by_member(txs, closure, rest[k]) by {
                assert(rest[k] == queue[k + 1]);
            }
            lemma_visit(txs, root, closure, rest);
        } else if txs.contains_key(id) {
            let grown = closure.push(id);
            let deps = txs[id].deps;
            let next = enqueue_unseen(rest, grown, deps);
            lemma_unvisited_shrinks(txs, closure, id);
            lemma_enqueue_unseen(rest, grown, deps);
            assert(visiting(txs, root, grown, next)) by {
                assert forall|k: int| 0 <= k < next.len() implies reaches(
                    txs,
                    root,
                    #[trigger] next[k],
                ) && named_by_member(txs, grown, next[k]) by {
                    if k < rest.len() {
                        assert(next[k] == rest[k]);
                        assert(rest[k] == queue[k + 1]);
                        assert(named_by_member(txs, closure, queue[k + 1]));
                        let j = choose|j: int|
                            0 <= j < closure.len() && #[trigger] depends_on(
                                txs,
                                closure[j],
                                queue[k + 1],
                            );
                        assert(depends_on(txs, grown[j], next[k]));
                    } else {
                        assert(deps.contains(next[k]));
                        assert(depends_on(txs, grown[closure.len() as int], next[k]));
                        let steps = choose|steps: nat| reaches_in(txs, root, id, steps);
                        lemma_reaches_in_extend(txs, root, id, next[k], steps);
                    }
                }
                assert forall|c: Id, d: Id|
                    grown.contains(c) && #[trigger] depends_on(txs, c, d) implies grown.contains(d)
                    || next.contains(d) by {
                    if c == id {
                        assert(deps.contains(d));
                    } else {
                        let i = grown.index_of(c);
                        assert(closure[i] == c);
                        if closure.contains(d) {
                            let k = closure.index_of(d);
                            assert(grown[k] == d);
                        } else {
                            let k = queue.index_of(d);
                            if k == 0 {
                                assert(grown[closure.len() as int] == d);
                            } else {
                                assert(rest[k - 1] == d);
                                assert(next[k - 1] == d);
                            }
                        }
                    }
                }
                assert forall|k: int| 1 <= k < grown.len() implies #[trigger] named_before(
                    txs,
                    grown,
                    k,
                ) by {
                    if k < closure.len() {
                        assert(named_before(txs, closure, k));
                        let j = choose|j: int|
                            0 <= j < k && #[trigger] depends_on(txs, closure[j], closure[k]);
                        assert(depends_on(txs, grown[j], grown[k]));
                    } else {
                        assert(named_by_member(txs, closure, queue[0]));
                        let j = choose|j: int|
                            0 <= j < closure.len() && #[trigger] depends_on(
                                txs,
                                closure[j],
                                queue[0],
                            );
                        assert(depends_on(txs, grown[j], grown[k]));
                    }
                }
                assert(grown.no_duplicates());
            }
            lemma_visit(txs, root, grown, next);
        }
    }
}

/// The traversal from a transaction of the pool succeeds exactly when the
/// pool holds everything the transaction reaches. Its result then lists the
/// closure of the transaction; its error is otherwise an identifier that the
/// transaction reaches and the pool lacks.
pub proof fn lemma_visit_order(txs: Map<Id, TransactionView>, root: Id)
    requires
        txs.dom().finite(),
        txs.contains_key(root),
    ensures
        match visit_order(txs, root) {
            Ok(order) => is_closure_order(txs, root, order),
            Err(id) => reaches(txs, root, id) && !txs.contains_key(id),
        },
        visit_order(txs, root) is Ok <==> forall|id: Id| #[trigger]
            reaches(txs, root, id) ==> txs.contains_key(id),
{
    let closure = seq![root];
    let deps = txs[root].deps;
    let queue = enqueue_unseen(Seq::<Id>::empty(), closure, deps);
    lemma_enqueue_unseen(Seq::<Id>::empty(), closure, deps);
    assert(reaches_in(txs, root, root, 0));
    assert(visiting(txs, root, closure, queue)) by {
        assert forall|k: int| 0 <= k < queue.len() implies reaches(txs, root, #[trigger] queue[k])
            && named_by_member(txs, closure, queue[k]) by {
            assert(deps.contains(queue[k]));
            assert(depends_on(txs, closure[0], queue[k]));
            lemma_reaches_in_extend(txs, root, root, queue[k], 0);
        }
        assert forall|c: Id, d: Id|
            closure.contains(c) && #[trigger] depends_on(txs, c, d) implies closure.contains(d)
            || queue.contains(d) by {
            assert(c == root);
            assert(deps.contains(d));
        }
    }
    lemma_visit(txs, root, closure, queue);
    match visit_order(txs, root) {
        Ok(order) => {
            assert forall|id: Id| #[trigger] reaches(txs, root, id) implies txs.contains_key(
                id,
            ) by {
                assert(order.contains(id));
                let k = order.index_of(id);
                assert(txs.contains_key(order[k]));
            }
        },
        Err(id) => {},
    }
}

} // verus!
