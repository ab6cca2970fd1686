use crate::text::{split, split_on};
use vstd::prelude::*;

verus! {

/// A transaction identifier, seen as the sequence of its characters.
pub type Id = Seq<char>;

/// The character that separates identifiers in a dependency list.
pub const DEPS_SEPARATOR: char = ';';

/// A pending transaction.
#[derive(Debug, PartialEq, Eq)]
pub struct Transaction {
    /// Unique identifier, the key of the transaction in a pool.
    pub id: String,
    /// Fee offered for inclusion.
    pub fee: u32,
    /// Capacity used by this transaction alone.
    pub weight: u32,
    /// Identifiers of the transactions this one directly depends on.
    pub deps: Vec<String>,
}

/// The mathematical content of a [`Transaction`].
pub struct TransactionView {
    pub id: Id,
    pub fee: nat,
    pub weight: nat,
    pub deps: Seq<Id>,
}

impl View for Transaction {
    type V = TransactionView;

    open spec fn view(&self) -> TransactionView {
        TransactionView {
            id: self.id@,
            fee: self.fee as nat,
            weight: self.weight as nat,
            deps: self.deps.deep_view(),
        }
    }
}

impl Transaction {
    /// Builds a transaction from the fields of one record. An absent
    /// dependency list means no dependencies; a present one is split at each
    /// [`DEPS_SEPARATOR`].
    pub fn new(id: String, fee: u32, weight: u32, deps: Option<&str>) -> (tx: Transaction)
        ensures
            tx@.id == id@,
            tx@.fee == fee,
            tx@.weight == weight,
            tx@.deps == match deps {
                Some(list) => split_on(list@, DEPS_SEPARATOR),
                None => Seq::<Id>::empty(),
            },
    {
        let deps = match deps {
            Some(list) => split(list, DEPS_SEPARATOR),
            None => Vec::new(),
        };
        Transaction { id, fee, weight, deps }
    }
}

} // verus!
