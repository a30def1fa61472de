//! What the library takes from the `stm` crate: its types, and the
//! transactional-variable operations that the containers call.
//!
//! A transactional variable is shared with other threads and transactions.
//! Two names describe what can be known of one: the value it was created
//! with, and what a transaction holds for it in its log. A transaction that
//! has not touched a variable holds nothing for it (`None`); its first read
//! may see any value that some other transaction committed.
use crate::shard::with_value;
use std::any::Any;
use std::collections::{HashMap, HashSet};
use stm::{StmError, StmResult, TVar, Transaction};
use vstd::prelude::*;

verus! {

/// `stm::TVar`: a handle to one shared transactional variable.
#[verifier::external_type_specification]
#[verifier::external_body]
#[verifier::reject_recursive_types(T)]
pub struct ExTVar<T>(TVar<T>);

/// `stm::Transaction`: the log of one running transaction.
#[verifier::external_type_specification]
#[verifier::external_body]
pub struct ExTransaction(Transaction);

/// `stm::StmError`: the engine's signal that a transaction must run again.
#[verifier::external_type_specification]
#[verifier::external_body]
pub struct ExStmError(StmError);

/// The set that a set variable was created with.
pub uninterp spec fn made_with_set(v: TVar<HashSet<u64>>) -> Set<u64>;

/// The map that a map variable was created with.
pub uninterp spec fn made_with_map(v: TVar<HashMap<u64, u64>>) -> Map<u64, u64>;

/// What transaction `t` holds in its log for set variable `v`.
pub uninterp spec fn tx_set(t: Transaction, v: TVar<HashSet<u64>>) -> Option<Set<u64>>;

/// What transaction `t` holds in its log for map variable `v`.
pub uninterp spec fn tx_map(t: Transaction, v: TVar<HashMap<u64, u64>>) -> Option<Map<u64, u64>>;

/// Relies on `stm::TVar::new`: a fresh variable holding `set`.
#[verifier::external_body]
pub(crate) fn new_set_var(set: HashSet<u64>) -> (v: TVar<HashSet<u64>>)
    ensures
        made_with_set(v) == set@,
{
    TVar::new(set)
}

/// Relies on `stm::TVar::new`: a fresh variable holding `map`.
#[verifier::external_body]
pub(crate) fn new_map_var(map: HashMap<u64, u64>) -> (v: TVar<HashMap<u64, u64>>)
    ensures
        made_with_map(v) == map@,
{
    TVar::new(map)
}

/// Relies on `stm::TVar::read_atomic`: a snapshot of the variable, read
/// outside any transaction.
pub assume_specification<T>[ TVar::<T>::read_atomic ](var: &TVar<T>) -> T
    where
        T: Any + Sync + Send + Clone,
;

/// Relies on `stm::TVar::read` (`Transaction::read`): the value the log holds
/// for `var` if it holds one, else a value read from the variable, which the
/// log then keeps. No other variable's entry changes. (A read may still
/// change how the log records `var`, never the value it holds.)
#[verifier::external_body]
pub(crate) fn read_set_var(var: &TVar<HashSet<u64>>, transaction: &mut Transaction) -> (r:
    StmResult<HashSet<u64>>)
    ensures
        r is Ok ==> tx_set(*final(transaction), *var) == Some(r->Ok_0@),
        r is Ok && tx_set(*old(transaction), *var) is Some ==> tx_set(*old(transaction), *var)
            == Some(r->Ok_0@),
        r is Ok ==> forall|w: TVar<HashSet<u64>>|
            w != *var ==> #[trigger] tx_set(*final(transaction), w) == tx_set(
                *old(transaction),
                w,
            ),
{
    var.read(transaction)
}

/// Relies on `stm::TVar::read` (`Transaction::read`), as `read_set_var`, for
/// a map variable.
#[verifier::external_body]
pub(crate) fn read_map_var(var: &TVar<HashMap<u64, u64>>, transaction: &mut Transaction) -> (r:
    StmResult<HashMap<u64, u64>>)
    ensures
        r is Ok ==> tx_map(*final(transaction), *var) == Some(r->Ok_0@),
        r is Ok && tx_map(*old(transaction), *var) is Some ==> tx_map(*old(transaction), *var)
            == Some(r->Ok_0@),
        r is Ok ==> forall|w: TVar<HashMap<u64, u64>>|
            w != *var ==> #[trigger] tx_map(*final(transaction), w) == tx_map(
                *old(transaction),
                w,
            ),
{
    var.read(transaction)
}

/// Relies on `stm::TVar::replace`: reads `var` as `read_set_var` does, then
/// logs `value` for it; returns what was read.
#[verifier::external_body]
pub(crate) fn replace_set_var(
    var: &TVar<HashSet<u64>>,
    transaction: &mut Transaction,
    value: HashSet<u64>,
) -> (r: StmResult<HashSet<u64>>)
    ensures
        r is Ok ==> tx_set(*final(transaction), *var) == Some(value@),
        r is Ok && tx_set(*old(transaction), *var) is Some ==> tx_set(*old(transaction), *var)
            == Some(r->Ok_0@),
        r is Ok ==> forall|w: TVar<HashSet<u64>>|
            w != *var ==> #[trigger] tx_set(*final(transaction), w) == tx_set(
                *old(transaction),
                w,
            ),
{
    var.replace(transaction, value)
}

/// Relies on `stm::TVar::modify`: reads `var` as `read_set_var` does, then
/// logs the set read with `value` added (the update is `with_value`).
#[verifier::external_body]
pub(crate) fn add_to_var(var: &TVar<HashSet<u64>>, transaction: &mut Transaction, value: u64) -> (r:
    StmResult<()>)
    ensures
        r is Ok ==> exists|s: Set<u64>|
            tx_set(*final(transaction), *var) == Some(#[trigger] s.insert(value)) && (tx_set(
                *old(transaction),
                *var,
            ) is Some ==> tx_set(*old(transaction), *var) == Some(s)),
        r is Ok ==> forall|w: TVar<HashSet<u64>>|
            w != *var ==> #[trigger] tx_set(*final(transaction), w) == tx_set(
                *old(transaction),
                w,
            ),
{
    var.modify(transaction, |set| with_value(set, value))
}

} // verus!
