//! Selection of a block of transactions from a pool of pending ones.
//!
//! A [`pool::Pool`] holds the pending transactions. Each transaction has a
//! [`package::Package`]: the transaction together with everything it
//! depends on, found by a breadth-first traversal of its dependencies.
//! [`block::select`] considers the packages by descending fee and admits
//! each that still fits under the capacity and shares no transaction with
//! the block so far; [`block::build_block`] does both steps for a pool.
//!
//! Packages with equal fees are considered in the order of the pool, which
//! is the order in which the identifiers first came in.

pub mod block;
pub mod block_lemmas;
pub mod closure;
pub mod order;
pub mod package;
pub mod package_lemmas;
pub mod pool;
pub mod text;
pub mod transaction;
