//! A transactional hash set whose elements are spread over a fixed number of
//! independently transactable buckets.
use crate::router::{bucket_index, bucket_of};
use crate::model::{insert_step, is_drain_of};
use crate::shard::drain_buckets;
use crate::stm_specs::{add_to_var, made_with_set, new_set_var, read_set_var, replace_set_var, tx_set};
use std::collections::HashSet;
use stm::{StmError, StmResult, TVar, Transaction};
use vstd::prelude::*;

verus! {

broadcast use vstd::std_specs::hash::group_hash_axioms;

/// A transaction-ready hash set with a configurable but fixed number of buckets.
///
/// Value `v` lives in bucket `bucket_of(v, bucket_count)`; the buckets are
/// never added to, removed or merged.
#[derive(Clone)]
pub struct THashSet {
    contents: Vec<TVar<HashSet<u64>>>,
}

impl THashSet {
    /// The number of buckets.
    pub closed spec fn bucket_count(&self) -> nat {
        self.contents@.len()
    }

    /// The variable of bucket `i`.
    pub closed spec fn bucket(&self, i: int) -> TVar<HashSet<u64>> {
        self.contents@[i]
    }

    /// A set has at least one bucket.
    pub open spec fn wf(&self) -> bool {
        self.bucket_count() >= 1
    }

    /// No two buckets share a variable.
    pub open spec fn distinct(&self) -> bool {
        forall|i: int, j: int|
            0 <= i < self.bucket_count() && 0 <= j < self.bucket_count() && i != j ==> self.bucket(i)
                != self.bucket(j)
    }

    /// Transaction `t` holds an entry for every bucket.
    pub open spec fn logged(&self, t: Transaction) -> bool {
        forall|i: int| 0 <= i < self.bucket_count() ==> (#[trigger] tx_set(t, self.bucket(i))) is Some
    }

    /// The buckets as transaction `t` holds them (meaningful where `logged`).
    pub open spec fn seen(&self, t: Transaction) -> Seq<Set<u64>> {
        Seq::new(self.bucket_count(), |i: int| tx_set(t, self.bucket(i))->Some_0)
    }

    /// `w` is none of the buckets.
    pub open spec fn foreign(&self, w: TVar<HashSet<u64>>) -> bool {
        forall|i: int| 0 <= i < self.bucket_count() ==> self.bucket(i) != w
    }

    /// `all` drains `b`, one set per bucket; where no two buckets share a
    /// variable, each set is what `t` held for its bucket, if it held one.
    pub open spec fn drained_from(&self, t: Transaction, all: Seq<u64>, b: Seq<Set<u64>>) -> bool {
        &&& b.len() == self.bucket_count()
        &&& is_drain_of(all, b)
        &&& self.distinct() ==> forall|i: int|
            0 <= i < self.bucket_count() && (#[trigger] tx_set(t, self.bucket(i))) is Some
                ==> tx_set(t, self.bucket(i)) == Some(b[i])
    }

    /// The variable of the bucket that owns `value`.
    pub open spec fn owner(&self, value: u64) -> TVar<HashSet<u64>> {
        self.bucket(bucket_of(value, self.bucket_count()) as int)
    }

    /// Creates a set of `bucket_count` buckets, each created with an empty set.
    pub fn new(bucket_count: usize) -> (s: Self)
        requires
            bucket_count >= 1,
        ensures
            s.wf(),
            s.bucket_count() == bucket_count,
            forall|i: int|
                0 <= i < bucket_count ==> made_with_set(#[trigger] s.bucket(i)) == Set::<u64>::empty(),
    {
        let mut hs: Vec<TVar<HashSet<u64>>> = Vec::with_capacity(bucket_count);
        for _i in 0..bucket_count
            invariant
                hs@.len() == _i,
                forall|j: int| 0 <= j < hs@.len() ==> made_with_set(#[trigger] hs@[j]) == Set::<u64>::empty(),
        {
            hs.push(new_set_var(HashSet::new()));
        }
        THashSet { contents: hs }
    }

    /// The number of buckets, as fixed at construction.
    pub fn buckets(&self) -> (n: usize)
        ensures
            n == self.bucket_count(),
    {
        self.contents.len()
    }

    /// The variable of the bucket that owns `value`.
    pub fn bucket_for(&self, value: u64) -> (var: &TVar<HashSet<u64>>)
        requires
            self.wf(),
        ensures
            *var == self.owner(value),
    {
        let i = bucket_index(value, self.contents.len());
        &self.contents[i]
    }

    /// Adds a value to the set, inside the transaction `trans`.
    ///
    /// The owning bucket is read within the transaction; when it holds the
    /// value nothing is written (the transaction holds the same values as
    /// before, once it held that bucket) and `false` is returned, otherwise the value
    /// is added to that bucket and `true` is returned. No other bucket is
    /// touched. An `Err` from the engine is passed on.
    pub fn insert(&self, trans: &mut Transaction, value: u64) -> (r: StmResult<bool>)
        requires
            self.wf(),
        ensures
            r is Ok ==> exists|s: Set<u64>|
                (tx_set(*old(trans), self.owner(value)) is Some ==> tx_set(
                    *old(trans),
                    self.owner(value),
                ) == Some(s)) && r->Ok_0 == !s.contains(value) && tx_set(
                    *final(trans),
                    self.owner(value),
                ) == Some(#[trigger] s.insert(value)),
            r is Ok ==> forall|w: TVar<HashSet<u64>>|
                w != self.owner(value) ==> #[trigger] tx_set(*final(trans), w) == tx_set(
                    *old(trans),
                    w,
                ),
            r == Ok::<bool, StmError>(false) && tx_set(*old(trans), self.owner(value)) is Some
                ==> forall|w: TVar<HashSet<u64>>|
                #[trigger] tx_set(*final(trans), w) == tx_set(*old(trans), w),
            r is Ok && self.distinct() && self.logged(*old(trans)) ==> self.logged(*final(trans))
                && (self.seen(*final(trans)), r->Ok_0) == insert_step(self.seen(*old(trans)), value),
    {
        let ghost t0 = *trans;
        let var = self.bucket_for(value);
        let probe = read_set_var(var, trans)?;
        let r = self.insert_probed(trans, value, &probe);
        proof {
            if r is Ok {
                let s = probe@;
                assert(tx_set(*trans, *var) == Some(s.insert(value)));
                if self.distinct() && self.logged(t0) {
                    let i = bucket_of(value, self.bucket_count()) as int;
                    assert(0 <= i < self.bucket_count()) by {
                        vstd::arithmetic::div_mod::lemma_mod_bound(
                            crate::router::key_hash(value) as int,
                            self.bucket_count() as int,
                        );
                    }
                    assert forall|j: int| 0 <= j < self.bucket_count() implies (#[trigger] tx_set(
                        *trans,
                        self.bucket(j),
                    )) is Some by {
                        if j != i {
                            assert(self.bucket(j) != self.bucket(i));
                        }
                    }
                    assert(self.seen(*trans) =~= insert_step(self.seen(t0), value).0);
                }
            }
        }
        r
    }

    /// Adds a value to the set, given `probe`, a read of its owning bucket.
    ///
    /// When the probe holds the value nothing is written and `false` is
    /// returned. Otherwise the value is added to the owning bucket within the
    /// transaction and `true` is returned, unless the engine answers with an
    /// `Err`, which is passed on.
    pub fn insert_probed(&self, trans: &mut Transaction, value: u64, probe: &HashSet<u64>) -> (r:
        StmResult<bool>)
        requires
            self.wf(),
        ensures
            probe@.contains(value) ==> r == Ok::<bool, StmError>(false) && *final(trans)
                == *old(trans),
            !probe@.contains(value) && r is Ok ==> r == Ok::<bool, StmError>(true) && exists|
                s: Set<u64>,
            |
                (tx_set(*old(trans), self.owner(value)) is Some ==> tx_set(
                    *old(trans),
                    self.owner(value),
                ) == Some(s)) && tx_set(*final(trans), self.owner(value)) == Some(
                    #[trigger] s.insert(value),
                ),
            r is Ok ==> forall|w: TVar<HashSet<u64>>|
                w != self.owner(value) ==> #[trigger] tx_set(*final(trans), w) == tx_set(
                    *old(trans),
                    w,
                ),
    {
        if probe.contains(&value) {
            Ok(false)
        } else {
            add_to_var(self.bucket_for(value), trans, value)?;
            Ok(true)
        }
    }

    /// Empties every bucket within the transaction `trans` and returns all
    /// the elements that the buckets held, in ascending bucket order; the
    /// order within one bucket is the bucket's own. The set stays usable.
    pub fn as_vec(&self, trans: &mut Transaction) -> (r: StmResult<Vec<u64>>)
        ensures
            r is Ok ==> forall|i: int|
                0 <= i < self.bucket_count() ==> #[trigger] tx_set(*final(trans), self.bucket(i))
                    == Some(Set::<u64>::empty()),
            r is Ok ==> forall|w: TVar<HashSet<u64>>|
                self.foreign(w) ==> #[trigger] tx_set(*final(trans), w) == tx_set(*old(trans), w),
            r is Ok ==> exists|b: Seq<Set<u64>>| #[trigger] self.drained_from(*old(trans), r->Ok_0@, b),
            r is Ok && self.distinct() && self.logged(*old(trans)) ==> is_drain_of(
                r->Ok_0@,
                self.seen(*old(trans)),
            ),
    {
        let ghost t0 = *trans;
        let mut drained: Vec<HashSet<u64>> = Vec::with_capacity(self.contents.len());
        for i in 0..self.contents.len()
            invariant
                drained@.len() == i,
                i <= self.contents@.len(),
                forall|j: int|
                    0 <= j < i ==> #[trigger] tx_set(*trans, self.bucket(j)) == Some(
                        Set::<u64>::empty(),
                    ),
                forall|w: TVar<HashSet<u64>>|
                    self.foreign(w) ==> #[trigger] tx_set(*trans, w) == tx_set(t0, w),
                self.distinct() ==> forall|j: int|
                    i <= j < self.bucket_count() ==> #[trigger] tx_set(*trans, self.bucket(j))
                        == tx_set(t0, self.bucket(j)),
                self.distinct() ==> forall|j: int|
                    0 <= j < i && (#[trigger] tx_set(t0, self.bucket(j))) is Some ==> tx_set(
                        t0,
                        self.bucket(j),
                    ) == Some(drained@[j]@),
        {
            let ghost t1 = *trans;
            let taken = replace_set_var(&self.contents[i], trans, HashSet::new())?;
            proof {
                assert forall|j: int|
                    0 <= j < i + 1 implies #[trigger] tx_set(*trans, self.bucket(j)) == Some(
                    Set::<u64>::empty(),
                ) by {
                    if j < i && self.bucket(j) != self.bucket(i as int) {
                        assert(tx_set(t1, self.bucket(j)) == Some(Set::<u64>::empty()));
                    }
                }
                assert forall|w: TVar<HashSet<u64>>| self.foreign(w) implies #[trigger] tx_set(
                    *trans,
                    w,
                ) == tx_set(t0, w) by {
                    assert(self.bucket(i as int) != w);
                    assert(tx_set(t1, w) == tx_set(t0, w));
                }
                if self.distinct() {
                    assert forall|j: int| i + 1 <= j < self.bucket_count() implies #[trigger] tx_set(
                        *trans,
                        self.bucket(j),
                    ) == tx_set(t0, self.bucket(j)) by {
                        assert(self.bucket(j) != self.bucket(i as int));
                        assert(tx_set(t1, self.bucket(j)) == tx_set(t0, self.bucket(j)));
                    }
                    assert(tx_set(t1, self.bucket(i as int)) == tx_set(t0, self.bucket(i as int)));
                }
            }
            drained.push(taken);
        }
        let all = drain_buckets(&drained);
        let ghost b = drained@.map_values(|s: HashSet<u64>| s@);
        assert(b.len() == self.bucket_count());
        proof {
            if self.distinct() {
                assert forall|i: int|
                    0 <= i < self.bucket_count() && (#[trigger] tx_set(t0, self.bucket(i))) is Some
                        implies tx_set(t0, self.bucket(i)) == Some(b[i]) by {
                    assert(b[i] == drained@[i]@);
                }
                if self.logged(t0) {
                    assert(self.seen(t0) =~= b);
                }
            }
            assert(t0 == *old(trans));
            assert(self.drained_from(*old(trans), all@, b));
        }
        let r: StmResult<Vec<u64>> = Ok(all);
        assert(self.drained_from(*old(trans), r->Ok_0@, b));
        r
    }
}

} // verus!
