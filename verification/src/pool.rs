use crate::transaction::{Id, Transaction, TransactionView};
use vstd::hash_map::StringHashMap;
use vstd::prelude::*;

verus! {

/// The largest number of transactions a [`Pool`] holds. With at most this
/// many members, the fees and weights of any set of distinct transactions
/// add up within `u64`.
pub const MAX_POOL_LEN: usize = 0xffff_ffff;

/// Some transaction of `txs` has the identifier `id`.
pub open spec fn holds_id(txs: Seq<TransactionView>, id: Id) -> bool {
    exists|i: int| 0 <= i < txs.len() && (#[trigger] txs[i]).id == id
}

/// A position in `txs` at which the identifier is `id`, if there is one.
pub open spec fn position_of(txs: Seq<TransactionView>, id: Id) -> int {
    choose|i: int| 0 <= i < txs.len() && (#[trigger] txs[i]).id == id
}

/// No two transactions of `txs` have the same identifier.
pub open spec fn unique_ids(txs: Seq<TransactionView>) -> bool {
    forall|i: int, j: int|
        0 <= i < j < txs.len() ==> (#[trigger] txs[i]).id != (#[trigger] txs[j]).id
}

/// The transactions of `txs`, each under its identifier.
pub open spec fn by_id(txs: Seq<TransactionView>) -> Map<Id, TransactionView> {
    Map::new(|id: Id| holds_id(txs, id), |id: Id| txs[position_of(txs, id)])
}

/// `txs` after `tx` was put in: in the place of the transaction with the
/// same identifier if there is one, at the end otherwise.
pub open spec fn with_transaction(txs: Seq<TransactionView>, tx: TransactionView) -> Seq<
    TransactionView,
> {
    if holds_id(txs, tx.id) {
        txs.update(position_of(txs, tx.id), tx)
    } else {
        txs.push(tx)
    }
}

/// Among transactions with unique identifiers, each is found under its own
/// identifier, at its own position.
pub proof fn lemma_by_id_at(txs: Seq<TransactionView>, i: int)
    requires
        unique_ids(txs),
        0 <= i < txs.len(),
    ensures
        holds_id(txs, txs[i].id),
        position_of(txs, txs[i].id) == i,
        by_id(txs).contains_key(txs[i].id),
        by_id(txs)[txs[i].id] == txs[i],
{
    let found = position_of(txs, txs[i].id);
    assert(txs[found].id == txs[i].id);
}

/// The identifiers of a pool are finitely many: as many as its transactions
/// when no identifier occurs twice.
pub proof fn lemma_by_id_finite(txs: Seq<TransactionView>)
    ensures
        by_id(txs).dom().finite(),
        by_id(txs).dom().len() <= txs.len(),
        unique_ids(txs) ==> by_id(txs).dom().len() == txs.len(),
{
    let ids = txs.map_values(|t: TransactionView| t.id);
    assert(by_id(txs).dom() =~= ids.to_set()) by {
        assert forall|id: Id| by_id(txs).dom().contains(id) implies ids.to_set().contains(id) by {
            assert(ids[position_of(txs, id)] == id);
        }
        assert forall|id: Id| ids.to_set().contains(id) implies by_id(txs).dom().contains(id) by {
            assert(txs[ids.index_of(id)].id == id);
        }
    }
    vstd::seq_lib::seq_to_set_is_finite(ids);
    ids.lemma_cardinality_of_set();
    if unique_ids(txs) {
        assert forall|i: int, j: int|
            0 <= i < ids.len() && 0 <= j < ids.len() && i != j implies ids[i] != ids[j] by {
            assert(txs[i].id != txs[j].id);
        }
        ids.unique_seq_to_set();
    }
}

/// Putting a transaction in is an insertion under its identifier: the last
/// one written under an identifier is the one found there. It keeps
/// identifiers unique.
pub proof fn lemma_with_transaction(txs: Seq<TransactionView>, tx: TransactionView)
    requires
        unique_ids(txs),
    ensures
        unique_ids(with_transaction(txs, tx)),
        by_id(with_transaction(txs, tx)) == by_id(txs).insert(tx.id, tx),
{
    let after = with_transaction(txs, tx);
    let place = if holds_id(txs, tx.id) {
        position_of(txs, tx.id)
    } else {
        txs.len() as int
    };
    assert(after[place] == tx);
    assert forall|k: int| 0 <= k < txs.len() && k != place implies after[k] == txs[k] by {}
    assert forall|k: int| 0 <= k < after.len() && k != place implies after[k].id != tx.id by {
        assert(after[k] == txs[k]);
    }
    assert(unique_ids(after)) by {
        assert forall|i: int, j: int| 0 <= i < j < after.len() implies (#[trigger] after[i]).id != (
        #[trigger] after[j]).id by {
            if i != place && j != place {
                assert(txs[i].id != txs[j].id);
            }
        }
    }
    assert forall|id: Id| holds_id(after, id) <==> (id == tx.id || holds_id(txs, id)) by {
        if holds_id(after, id) && id != tx.id {
            assert(txs[position_of(after, id)].id == id);
        }
        if id == tx.id {
            assert(after[place].id == id);
        } else if holds_id(txs, id) {
            assert(after[position_of(txs, id)].id == id);
        }
    }
    assert forall|id: Id| holds_id(after, id) implies #[trigger] by_id(after)[id] == by_id(
        txs,
    ).insert(tx.id, tx)[id] by {
        if id == tx.id {
            lemma_by_id_at(after, place);
        } else {
            let k = position_of(txs, id);
            lemma_by_id_at(txs, k);
            lemma_by_id_at(after, k);
        }
    }
}

/// The pending transactions, each under its unique identifier, in the order
/// in which their identifiers first came in.
pub struct Pool {
    txs: Vec<Transaction>,
    index: StringHashMap<usize>,
}

impl View for Pool {
    type V = Seq<TransactionView>;

    closed spec fn view(&self) -> Seq<TransactionView> {
        self.txs@.map_values(|t: Transaction| t@)
    }
}

impl Pool {
    /// The lookup table gives, for each identifier in the pool and for no
    /// other, the position of its transaction.
    pub closed spec fn indexed(&self) -> bool {
        &&& forall|i: int|
            0 <= i < self.txs.len() ==> self.index@.contains_key((#[trigger] self.txs[i]).id@)
                && self.index@[self.txs[i].id@] == i
        &&& forall|id: Id| #[trigger]
            self.index@.contains_key(id) ==> 0 <= self.index@[id] < self.txs.len()
                && self.txs[self.index@[id] as int].id@ == id
    }

    /// What every pool satisfies: unique identifiers, a bounded length and a
    /// faithful lookup table.
    pub open spec fn wf(&self) -> bool {
        &&& unique_ids(self@)
        &&& self@.len() <= MAX_POOL_LEN
        &&& self.indexed()
    }

    proof fn lemma_indexed_unique(&self)
        requires
            self.indexed(),
        ensures
            unique_ids(self@),
            forall|id: Id| holds_id(self@, id) <==> self.index@.contains_key(id),
            forall|id: Id| holds_id(self@, id) ==> position_of(self@, id) == self.index@[id],
    {
        assert forall|i: int, j: int| 0 <= i < j < self@.len() implies (#[trigger] self@[i]).id != (
        #[trigger] self@[j]).id by {
            assert(self.index@[self.txs[i].id@] == i);
            assert(self.index@[self.txs[j].id@] == j);
        }
        assert forall|id: Id| holds_id(self@, id) <==> self.index@.contains_key(id) by {
            if holds_id(self@, id) {
                assert(self.txs[position_of(self@, id)].id@ == id);
            }
            if self.index@.contains_key(id) {
                assert(self@[self.index@[id] as int].id == id);
            }
        }
        assert forall|id: Id| holds_id(self@, id) implies position_of(self@, id)
            == self.index@[id] by {
            lemma_by_id_at(self@, self.index@[id] as int);
        }
    }

    /// An empty pool.
    pub fn new() -> (pool: Pool)
        ensures
            pool.wf(),
            pool@ == Seq::<TransactionView>::empty(),
    {
        Pool { txs: Vec::new(), index: StringHashMap::new() }
    }

    /// The number of transactions.
    pub fn len(&self) -> (n: usize)
        ensures
            n == self@.len(),
    {
        self.txs.len()
    }

    /// The position of the transaction with the identifier `id`.
    pub fn position(&self, id: &str) -> (found: Option<usize>)
        requires
            self.wf(),
        ensures
            match found {
                Some(i) => holds_id(self@, id@) && i == position_of(self@, id@),
                None => !holds_id(self@, id@),
            },
    {
        proof {
            self.lemma_indexed_unique();
        }
        match self.index.get(id) {
            Some(i) => Some(*i),
            None => None,
        }
    }

    /// The transaction at position `i`.
    pub fn transaction(&self, i: usize) -> (tx: &Transaction)
        requires
            i < self@.len(),
        ensures
            tx@ == self@[i as int],
    {
        &self.txs[i]
    }

    /// The transaction with the identifier `id`.
    pub fn get(&self, id: &str) -> (found: Option<&Transaction>)
        requires
            self.wf(),
        ensures
            match found {
                Some(tx) => by_id(self@).contains_key(id@) && tx@ == by_id(self@)[id@],
                None => !by_id(self@).contains_key(id@),
            },
    {
        match self.position(id) {
            Some(i) => Some(&self.txs[i]),
            None => None,
        }
    }

    /// Puts `tx` in the pool. A transaction that is already there under the
    /// same identifier is replaced, and keeps its place in the order.
    pub fn insert(&mut self, tx: Transaction)
        requires
            old(self).wf(),
            old(self)@.len() < MAX_POOL_LEN || holds_id(old(self)@, tx@.id),
        ensures
            final(self).wf(),
            final(self)@ == with_transaction(old(self)@, tx@),
    {
        proof {
            self.lemma_indexed_unique();
            lemma_with_transaction(self@, tx@);
        }
        match self.position(tx.id.as_str()) {
            Some(i) => {
                self.txs.set(i, tx);
            },
            None => {
                let i: usize = self.txs.len();
                self.index.insert(tx.id.clone(), i);
                self.txs.push(tx);
            },
        }
    }
}

} // verus!
