//! A transactional hash map whose entries are spread over a fixed number of
//! independently transactable buckets.
use crate::router::{bucket_index, bucket_of};
use crate::model::{all_empty, union_maps};
use crate::shard::{partition, routed_part, union_buckets};
use crate::stm_specs::{made_with_map, new_map_var, read_map_var, tx_map};
use std::collections::HashMap;
use stm::{StmError, StmResult, TVar, Transaction};
use vstd::prelude::*;

verus! {

broadcast use vstd::std_specs::hash::group_hash_axioms;

/// A transaction-ready hash map with a configurable but fixed number of buckets.
///
/// Key `k` lives in bucket `bucket_of(k, bucket_count)`; the buckets are
/// never added to, removed or merged.
#[derive(Clone)]
pub struct THashMap {
    contents: Vec<TVar<HashMap<u64, u64>>>,
}

impl THashMap {
    /// The number of buckets.
    pub closed spec fn bucket_count(&self) -> nat {
        self.contents@.len()
    }

    /// The variable of bucket `i`.
    pub closed spec fn bucket(&self, i: int) -> TVar<HashMap<u64, u64>> {
        self.contents@[i]
    }

    /// A map has at least one bucket.
    pub open spec fn wf(&self) -> bool {
        self.bucket_count() >= 1
    }

    /// The buckets as transaction `t` holds them (meaningful where every
    /// bucket has an entry in `t`).
    pub open spec fn seen(&self, t: Transaction) -> Seq<Map<u64, u64>> {
        Seq::new(self.bucket_count(), |i: int| tx_map(t, self.bucket(i))->Some_0)
    }

    /// `w` is none of the buckets.
    pub open spec fn foreign(&self, w: TVar<HashMap<u64, u64>>) -> bool {
        forall|i: int| 0 <= i < self.bucket_count() ==> self.bucket(i) != w
    }

    /// Creates a map of `bucket_count` buckets, each created with an empty map.
    pub fn new(bucket_count: usize) -> (m: Self)
        requires
            bucket_count >= 1,
        ensures
            m.wf(),
            m.bucket_count() == bucket_count,
            forall|i: int|
                0 <= i < bucket_count ==> made_with_map(#[trigger] m.bucket(i)) == Map::<
                    u64,
                    u64,
                >::empty(),
    {
        let mut hs: Vec<TVar<HashMap<u64, u64>>> = Vec::with_capacity(bucket_count);
        for _i in 0..bucket_count
            invariant
                hs@.len() == _i,
                forall|j: int|
                    0 <= j < hs@.len() ==> made_with_map(#[trigger] hs@[j]) == Map::<
                        u64,
                        u64,
                    >::empty(),
        {
            hs.push(new_map_var(HashMap::new()));
        }
        THashMap { contents: hs }
    }

    /// Builds a map of `bucket_count` buckets from `map`, outside any
    /// transaction: the entries are first split by bucket (`partition`), then
    /// each part becomes one variable.
    pub fn from_hashmap(map: HashMap<u64, u64>, bucket_count: usize) -> (m: Self)
        requires
            bucket_count >= 1,
        ensures
            m.wf(),
            m.bucket_count() == bucket_count,
            forall|i: int|
                0 <= i < bucket_count ==> made_with_map(#[trigger] m.bucket(i)) == routed_part(
                    map@,
                    bucket_count as nat,
                    i as nat,
                ),
    {
        let parts = partition(&map, bucket_count);
        let mut hs: Vec<TVar<HashMap<u64, u64>>> = Vec::with_capacity(bucket_count);
        for i in 0..bucket_count
            invariant
                parts@.len() == bucket_count,
                forall|j: int|
                    0 <= j < bucket_count ==> #[trigger] parts@[j]@ == routed_part(
                        map@,
                        bucket_count as nat,
                        j as nat,
                    ),
                hs@.len() == i,
                forall|j: int|
                    0 <= j < i ==> made_with_map(#[trigger] hs@[j]) == routed_part(
                        map@,
                        bucket_count as nat,
                        j as nat,
                    ),
        {
            hs.push(new_map_var(parts[i].clone()));
        }
        THashMap { contents: hs }
    }

    /// The number of buckets, as fixed at construction.
    pub fn buckets(&self) -> (n: usize)
        ensures
            n == self.bucket_count(),
    {
        self.contents.len()
    }

    /// The variable of the bucket that owns `item`, for transactions of the
    /// caller's own making.
    pub fn get_bucket(&self, item: &u64) -> (var: &TVar<HashMap<u64, u64>>)
        requires
            self.wf(),
        ensures
            *var == self.bucket(bucket_of(*item, self.bucket_count()) as int),
    {
        let i = bucket_index(*item, self.contents.len());
        &self.contents[i]
    }

    /// Reads the buckets within the transaction `trans`, in ascending order,
    /// and returns `false` at the first that is not empty, `true` when none
    /// is. Nothing is written; an `Err` from the engine is passed on.
    pub fn is_empty(&self, trans: &mut Transaction) -> (r: StmResult<bool>)
        ensures
            r == Ok::<bool, StmError>(true) ==> forall|i: int|
                0 <= i < self.bucket_count() ==> #[trigger] tx_map(*final(trans), self.bucket(i))
                    == Some(Map::<u64, u64>::empty()),
            r == Ok::<bool, StmError>(true) ==> all_empty(self.seen(*final(trans))),
            r == Ok::<bool, StmError>(false) ==> exists|i: int|
                0 <= i < self.bucket_count() && (#[trigger] tx_map(*final(trans), self.bucket(i)))
                    is Some && tx_map(*final(trans), self.bucket(i))->Some_0 != Map::<
                    u64,
                    u64,
                >::empty(),
            r == Ok::<bool, StmError>(false) ==> !all_empty(self.seen(*final(trans))),
            r is Ok ==> forall|w: TVar<HashMap<u64, u64>>|
                (#[trigger] tx_map(*old(trans), w)) is Some ==> tx_map(*final(trans), w) == tx_map(
                    *old(trans),
                    w,
                ),
            r is Ok ==> forall|w: TVar<HashMap<u64, u64>>|
                self.foreign(w) ==> #[trigger] tx_map(*final(trans), w) == tx_map(*old(trans), w),
    {
        let ghost t0 = *trans;
        for i in 0..self.contents.len()
            invariant
                t0 == *old(trans),
                forall|j: int|
                    0 <= j < i ==> #[trigger] tx_map(*trans, self.bucket(j)) == Some(
                        Map::<u64, u64>::empty(),
                    ),
                forall|w: TVar<HashMap<u64, u64>>|
                    (#[trigger] tx_map(t0, w)) is Some ==> tx_map(*trans, w) == tx_map(t0, w),
                forall|w: TVar<HashMap<u64, u64>>|
                    self.foreign(w) ==> #[trigger] tx_map(*trans, w) == tx_map(t0, w),
        {
            let ghost t1 = *trans;
            let content = read_map_var(&self.contents[i], trans)?;
            proof {
                assert forall|j: int| 0 <= j < i implies #[trigger] tx_map(*trans, self.bucket(j))
                    == Some(Map::<u64, u64>::empty()) by {
                    assert(tx_map(t1, self.bucket(j)) == Some(Map::<u64, u64>::empty()));
                }
                assert forall|w: TVar<HashMap<u64, u64>>| (#[trigger] tx_map(t0, w)) is Some implies tx_map(
                    *trans,
                    w,
                ) == tx_map(t0, w) by {
                    assert(tx_map(t1, w) == tx_map(t0, w));
                }
                assert forall|w: TVar<HashMap<u64, u64>>| self.foreign(w) implies #[trigger] tx_map(
                    *trans,
                    w,
                ) == tx_map(t0, w) by {
                    assert(self.bucket(i as int) != w);
                    assert(tx_map(t1, w) == tx_map(t0, w));
                }
            }
            if !content.is_empty() {
                proof {
                    assert(tx_map(*trans, self.bucket(i as int)) is Some);
                    assert(self.seen(*trans)[i as int] != Map::<u64, u64>::empty());
                    assert(t0 == *old(trans));
                    assert forall|w: TVar<HashMap<u64, u64>>| (#[trigger] tx_map(*old(trans), w)) is Some
                        implies tx_map(*trans, w) == tx_map(*old(trans), w) by {
                        assert(tx_map(t0, w) is Some);
                    }
                    assert forall|w: TVar<HashMap<u64, u64>>| self.foreign(w) implies #[trigger] tx_map(
                        *trans,
                        w,
                    ) == tx_map(*old(trans), w) by {}
                }
                return Ok(false);
            }
        }
        Ok(true)
    }

    /// The union of a snapshot of each bucket, each read on its own outside
    /// any transaction: consistent within a bucket, not across buckets.
    pub fn get_contents(&self) -> (all: HashMap<u64, u64>)
        ensures
            exists|b: Seq<Map<u64, u64>>| b.len() == self.bucket_count() && all@ == union_maps(b),
    {
        let mut snapshots: Vec<HashMap<u64, u64>> = Vec::with_capacity(self.contents.len());
        for i in 0..self.contents.len()
            invariant
                snapshots@.len() == i,
                i <= self.contents@.len(),
        {
            snapshots.push(self.contents[i].read_atomic());
        }
        let all = union_buckets(&snapshots);
        assert(snapshots@.map_values(|m: HashMap<u64, u64>| m@).len() == self.bucket_count());
        all
    }
}

} // verus!
