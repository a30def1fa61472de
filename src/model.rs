//! The buckets' contents as mathematical values, and facts about them.
//!
//! The containers' contracts are stated over these: `THashSet::insert` moves
//! the buckets a transaction holds by `insert_step`, `THashSet::as_vec`
//! returns an `is_drain_of` them, and `THashMap::is_empty` reports
//! `all_empty` of them (each where the transaction holds every bucket and no
//! two buckets share a variable). The facts below hold of any run of those
//! steps.
use crate::router::bucket_of;
use crate::shard::routed_part;
use vstd::prelude::*;

verus! {

/// Every value sits in the bucket it routes to.
pub open spec fn routed(b: Seq<Set<u64>>) -> bool {
    forall|i: int, v: u64|
        0 <= i < b.len() && #[trigger] b[i].contains(v) ==> bucket_of(v, b.len()) == i
}

/// The values held by any bucket.
pub open spec fn members(b: Seq<Set<u64>>) -> Set<u64> {
    Set::new(|v: u64| exists|i: int| 0 <= i < b.len() && #[trigger] b[i].contains(v))
}

/// `n` empty buckets, as a new set has them.
pub open spec fn empty_buckets(n: nat) -> Seq<Set<u64>> {
    Seq::new(n, |i: int| Set::<u64>::empty())
}

/// One insertion: the owning bucket is probed, and the value is added to it
/// when absent; the result reports whether it was absent.
pub open spec fn insert_step(b: Seq<Set<u64>>, v: u64) -> (Seq<Set<u64>>, bool) {
    let i = bucket_of(v, b.len()) as int;
    (b.update(i, b[i].insert(v)), !b[i].contains(v))
}

/// Inserting the values of `vals` one after another: the buckets at the end,
/// and the result of each insertion.
pub open spec fn insert_all(b: Seq<Set<u64>>, vals: Seq<u64>) -> (Seq<Set<u64>>, Seq<bool>)
    decreases vals.len(),
{
    if vals.len() == 0 {
        (b, Seq::empty())
    } else {
        let prev = insert_all(b, vals.drop_last());
        let step = insert_step(prev.0, vals.last());
        (step.0, prev.1.push(step.1))
    }
}

/// The concatenation of the pieces, in order.
pub open spec fn concat(parts: Seq<Seq<u64>>) -> Seq<u64>
    decreases parts.len(),
{
    if parts.len() == 0 {
        Seq::empty()
    } else {
        concat(parts.drop_last()) + parts.last()
    }
}

proof fn lemma_insert_all_state(n: nat, vals: Seq<u64>)
    requires
        n >= 1,
    ensures
        insert_all(empty_buckets(n), vals).0.len() == n,
        routed(insert_all(empty_buckets(n), vals).0),
        members(insert_all(empty_buckets(n), vals).0) == vals.to_set(),
        insert_all(empty_buckets(n), vals).1.len() == vals.len(),
        forall|j: int|
            0 <= j < vals.len() ==> #[trigger] insert_all(empty_buckets(n), vals).1[j] == !vals.take(
                j,
            ).contains(vals[j]),
    decreases vals.len(),
{
    let e = empty_buckets(n);
    if vals.len() == 0 {
        assert(members(e) =~= vals.to_set());
    } else {
        let init = vals.drop_last();
        let v = vals.last();
        lemma_insert_all_state(n, init);
        let b = insert_all(e, init).0;
        let rs = insert_all(e, init).1;
        let i = bucket_of(v, n) as int;
        assert(0 <= i < n) by {
            vstd::arithmetic::div_mod::lemma_mod_bound(crate::router::key_hash(v) as int, n as int);
        }
        let b2 = b.update(i, b[i].insert(v));
        assert(routed(b2));
        assert(b[i].contains(v) <==> init.to_set().contains(v));
        assert(init.to_set().contains(v) <==> init.contains(v));
        assert(vals.to_set() =~= init.to_set().insert(v)) by {
            assert(vals =~= init.push(v));
            init.lemma_push_to_set_commute(v);
        }
        assert forall|x: u64| members(b2).contains(x) <==> members(b).insert(v).contains(x) by {
            if members(b2).contains(x) {
                let j = choose|j: int| 0 <= j < b2.len() && #[trigger] b2[j].contains(x);
                if j != i || x != v {
                    assert(b[j].contains(x));
                }
            }
            if members(b).contains(x) {
                let j = choose|j: int| 0 <= j < b.len() && #[trigger] b[j].contains(x);
                assert(b2[j].contains(x));
            }
            if x == v {
                assert(b2[i].contains(x));
            }
        }
        assert(members(b2) =~= vals.to_set());
        assert forall|j: int| 0 <= j < vals.len() implies #[trigger] insert_all(e, vals).1[j]
            == !vals.take(j).contains(vals[j]) by {
            if j < init.len() {
                assert(vals.take(j) =~= init.take(j));
            } else {
                assert(vals.take(j) =~= init);
            }
        }
    }
}

/// A run of `insert_step`s over `n` empty buckets, for any `n`, reports `true`
/// for the first occurrence of each value and `false` for every repeat,
/// whatever the order of the values.
pub proof fn lemma_insert_reports_first_occurrence(n: nat, vals: Seq<u64>)
    requires
        n >= 1,
    ensures
        insert_all(empty_buckets(n), vals).1.len() == vals.len(),
        forall|j: int|
            0 <= j < vals.len() ==> (#[trigger] insert_all(empty_buckets(n), vals).1[j] <==> !vals.take(
                j,
            ).contains(vals[j])),
{
    lemma_insert_all_state(n, vals);
}

proof fn lemma_concat_prefix(b: Seq<Set<u64>>, parts: Seq<Seq<u64>>, k: int)
    requires
        routed(b),
        parts.len() == b.len(),
        forall|i: int|
            0 <= i < parts.len() ==> (#[trigger] parts[i]).to_set() == b[i]
                && parts[i].no_duplicates(),
        0 <= k <= parts.len(),
    ensures
        concat(parts.take(k)).to_set() == Set::new(
            |v: u64| exists|i: int| 0 <= i < k && #[trigger] b[i].contains(v),
        ),
        concat(parts.take(k)).no_duplicates(),
        forall|x: u64| concat(parts.take(k)).contains(x) ==> bucket_of(x, b.len()) < k,
    decreases k,
{
    let a = concat(parts.take(k));
    if k == 0 {
        assert(parts.take(0) =~= Seq::<Seq<u64>>::empty());
        assert(a.to_set() =~= Set::new(
            |v: u64| exists|i: int| 0 <= i < k && #[trigger] b[i].contains(v),
        ));
    } else {
        lemma_concat_prefix(b, parts, k - 1);
        let prev = concat(parts.take(k - 1));
        let p = parts[k - 1];
        assert(parts.take(k).drop_last() =~= parts.take(k - 1));
        assert(a == prev + p);
        assert forall|x: u64| p.contains(x) implies bucket_of(x, b.len()) == k - 1 by {
            assert(p.to_set().contains(x));
        }
        assert forall|i: int, j: int| 0 <= i < prev.len() && 0 <= j < p.len() implies prev[i]
            != p[j] by {
            assert(prev.contains(prev[i]));
            assert(p.contains(p[j]));
        }
        vstd::seq_lib::lemma_no_dup_in_concat(prev, p);
        vstd::seq_lib::seq_to_set_distributes_over_add(prev, p);
        assert forall|x: u64| a.contains(x) implies bucket_of(x, b.len()) < k by {
            let j = choose|j: int| 0 <= j < a.len() && a[j] == x;
            if j < prev.len() {
                assert(prev[j] == x);
                assert(prev.contains(x));
            } else {
                assert(p[j - prev.len()] == x);
                assert(p.contains(x));
            }
        }
        assert forall|v: u64| a.to_set().contains(v) <==> exists|i: int| 0 <= i < k && #[trigger] b[i].contains(v) by {
            assert(a.to_set().contains(v) <==> prev.to_set().contains(v) || p.to_set().contains(v));
            if exists|i: int| 0 <= i < k && #[trigger] b[i].contains(v) {
                let i = choose|i: int| 0 <= i < k && #[trigger] b[i].contains(v);
                if i == k - 1 {
                    assert(p.to_set().contains(v));
                }
            }
        }
        assert(a.to_set() =~= Set::new(
            |v: u64| exists|i: int| 0 <= i < k && #[trigger] b[i].contains(v),
        ));
    }
}

/// `parts` holds one piece per bucket, listing that bucket's elements once.
pub open spec fn drain_parts(parts: Seq<Seq<u64>>, b: Seq<Set<u64>>) -> bool {
    &&& parts.len() == b.len()
    &&& forall|i: int|
        0 <= i < parts.len() ==> (#[trigger] parts[i]).to_set() == b[i] && parts[i].no_duplicates()
}

/// `all` lists the elements of the buckets in bucket order: each bucket's
/// elements once, in an order of the bucket's own.
pub open spec fn is_drain_of(all: Seq<u64>, b: Seq<Set<u64>>) -> bool {
    exists|parts: Seq<Seq<u64>>| #[trigger] drain_parts(parts, b) && all == concat(parts)
}

/// A drain of routed buckets lists every member exactly once.
pub proof fn lemma_drain_yields_members(b: Seq<Set<u64>>, all: Seq<u64>)
    requires
        routed(b),
        is_drain_of(all, b),
    ensures
        all.to_set() == members(b),
        all.no_duplicates(),
{
    let parts = choose|parts: Seq<Seq<u64>>| #[trigger] drain_parts(parts, b) && all == concat(parts);
    lemma_concat_prefix(b, parts, parts.len() as int);
    assert(parts.take(parts.len() as int) =~= parts);
    assert(concat(parts).to_set() =~= members(b));
}

/// A drain of the buckets that a run of `insert_step`s over `n` empty buckets
/// leaves lists exactly the values inserted, each once (as many as were
/// inserted, when they were distinct); `n` empty buckets hold no value.
pub proof fn lemma_as_vec_after_inserts(n: nat, vals: Seq<u64>, all: Seq<u64>)
    requires
        n >= 1,
        is_drain_of(all, insert_all(empty_buckets(n), vals).0),
    ensures
        all.to_set() == vals.to_set(),
        all.no_duplicates(),
        vals.no_duplicates() ==> all.len() == vals.len(),
        members(empty_buckets(n)) == Set::<u64>::empty(),
{
    lemma_insert_all_state(n, vals);
    lemma_drain_yields_members(insert_all(empty_buckets(n), vals).0, all);
    if vals.no_duplicates() {
        all.unique_seq_to_set();
        vals.unique_seq_to_set();
    }
    assert(members(empty_buckets(n)) =~= Set::<u64>::empty());
}

/// The union of the buckets' maps, a later bucket's value winning on a key
/// that two buckets share.
pub open spec fn union_maps(b: Seq<Map<u64, u64>>) -> Map<u64, u64>
    decreases b.len(),
{
    if b.len() == 0 {
        Map::empty()
    } else {
        union_maps(b.drop_last()).union_prefer_right(b.last())
    }
}

/// The parts that bulk construction gives each of `n` buckets.
pub open spec fn partition_of(m: Map<u64, u64>, n: nat) -> Seq<Map<u64, u64>> {
    Seq::new(n, |i: int| routed_part(m, n, i as nat))
}

proof fn lemma_union_prefix(m: Map<u64, u64>, n: nat, k: int)
    requires
        n >= 1,
        0 <= k <= n,
    ensures
        union_maps(partition_of(m, n).take(k)) == m.restrict(
            Set::new(|x: u64| bucket_of(x, n) < k),
        ),
    decreases k,
{
    let ps = partition_of(m, n);
    if k == 0 {
        assert(ps.take(0) =~= Seq::<Map<u64, u64>>::empty());
        assert(m.restrict(Set::new(|x: u64| bucket_of(x, n) < k)) =~= Map::empty());
    } else {
        lemma_union_prefix(m, n, k - 1);
        assert(ps.take(k).drop_last() =~= ps.take(k - 1));
        assert(union_maps(ps.take(k)) =~= m.restrict(Set::new(|x: u64| bucket_of(x, n) < k)));
    }
}

/// Splitting a map over any number of buckets and joining the parts again
/// gives back the map itself.
pub proof fn lemma_partition_round_trip(m: Map<u64, u64>, n: nat)
    requires
        n >= 1,
    ensures
        union_maps(partition_of(m, n)) == m,
{
    lemma_union_prefix(m, n, n as int);
    assert(partition_of(m, n).take(n as int) =~= partition_of(m, n));
    assert forall|x: u64| bucket_of(x, n) < n by {
        vstd::arithmetic::div_mod::lemma_mod_bound(crate::router::key_hash(x) as int, n as int);
    }
    assert(m.restrict(Set::new(|x: u64| bucket_of(x, n) < n)) =~= m);
}

/// The number of entries of all the maps together.
pub open spec fn total_len(b: Seq<Map<u64, u64>>) -> nat
    decreases b.len(),
{
    if b.len() == 0 {
        0
    } else {
        total_len(b.drop_last()) + b.last().len()
    }
}

proof fn lemma_total_len_prefix(m: Map<u64, u64>, n: nat, k: int)
    requires
        n >= 1,
        0 <= k <= n,
        m.dom().finite(),
    ensures
        total_len(partition_of(m, n).take(k)) == m.restrict(
            Set::new(|x: u64| bucket_of(x, n) < k),
        ).len(),
    decreases k,
{
    let ps = partition_of(m, n);
    if k == 0 {
        assert(ps.take(0) =~= Seq::<Map<u64, u64>>::empty());
        assert(m.restrict(Set::new(|x: u64| bucket_of(x, n) < k)).dom() =~= Set::empty());
    } else {
        lemma_total_len_prefix(m, n, k - 1);
        assert(ps.take(k).drop_last() =~= ps.take(k - 1));
        let a = m.restrict(Set::new(|x: u64| bucket_of(x, n) < k - 1)).dom();
        let b = routed_part(m, n, (k - 1) as nat).dom();
        assert(a.disjoint(b));
        assert(a.finite() && b.finite()) by {
            assert(a.subset_of(m.dom()));
            assert(b.subset_of(m.dom()));
        }
        vstd::set_lib::lemma_set_disjoint_lens(a, b);
        assert(m.restrict(Set::new(|x: u64| bucket_of(x, n) < k)).dom() =~= a + b);
    }
}

/// Splitting a finite map over any number of buckets keeps its size: the
/// parts' sizes add up to the map's.
pub proof fn lemma_partition_keeps_size(m: Map<u64, u64>, n: nat)
    requires
        n >= 1,
        m.dom().finite(),
    ensures
        total_len(partition_of(m, n)) == m.len(),
{
    lemma_total_len_prefix(m, n, n as int);
    assert(partition_of(m, n).take(n as int) =~= partition_of(m, n));
    assert forall|x: u64| bucket_of(x, n) < n by {
        vstd::arithmetic::div_mod::lemma_mod_bound(crate::router::key_hash(x) as int, n as int);
    }
    assert(m.restrict(Set::new(|x: u64| bucket_of(x, n) < n)) =~= m);
}

/// The keys found in any of the first `n` parts of `m`.
pub open spec fn parts_keys(m: Map<u64, u64>, n: nat) -> Set<u64> {
    Set::new(
        |k: u64| exists|i: nat| i < n && #[trigger] routed_part(m, n, i).contains_key(k),
    )
}

/// Splitting a map of any size over any number of buckets loses no key and
/// repeats none: the keys of the parts together are the source's keys, each
/// key lies in the one part it routes to, with its value, and in no other.
pub proof fn lemma_partition_covers_keys(m: Map<u64, u64>, n: nat)
    requires
        n >= 1,
    ensures
        parts_keys(m, n) == m.dom(),
        forall|k: u64|
            m.contains_key(k) ==> #[trigger] routed_part(m, n, bucket_of(k, n)).contains_key(k)
                && routed_part(m, n, bucket_of(k, n))[k] == m[k],
        forall|i: nat, k: u64|
            i < n && #[trigger] routed_part(m, n, i).contains_key(k) ==> m.contains_key(k)
                && bucket_of(k, n) == i,
{
    assert forall|k: u64| m.contains_key(k) implies parts_keys(m, n).contains(k) by {
        let i = bucket_of(k, n);
        assert(i < n) by {
            vstd::arithmetic::div_mod::lemma_mod_bound(crate::router::key_hash(k) as int, n as int);
        }
        assert(routed_part(m, n, i).contains_key(k));
    }
    assert(parts_keys(m, n) =~= m.dom());
}

/// Every bucket of a map is empty: what `is_empty` reports.
pub open spec fn all_empty(b: Seq<Map<u64, u64>>) -> bool {
    forall|i: int| 0 <= i < b.len() ==> #[trigger] b[i] == Map::<u64, u64>::empty()
}

/// Storing `value` under `key` in the bucket that owns `key`.
pub open spec fn map_insert_step(b: Seq<Map<u64, u64>>, key: u64, value: u64) -> Seq<
    Map<u64, u64>,
> {
    let i = bucket_of(key, b.len()) as int;
    b.update(i, b[i].insert(key, value))
}

/// Empty buckets, any number of them, are `all_empty`; after storing any
/// entry in its owning bucket, whatever the buckets held before, they are not.
pub proof fn lemma_empty_until_insert(b: Seq<Map<u64, u64>>, key: u64, value: u64)
    requires
        b.len() >= 1,
    ensures
        all_empty(Seq::new(b.len(), |i: int| Map::<u64, u64>::empty())),
        !all_empty(map_insert_step(b, key, value)),
{
    let i = bucket_of(key, b.len()) as int;
    assert(0 <= i < b.len()) by {
        vstd::arithmetic::div_mod::lemma_mod_bound(crate::router::key_hash(key) as int, b.len() as int);
    }
    assert(map_insert_step(b, key, value)[i].contains_key(key));
}

/// Bulk construction agrees with storing entries one at a time: the parts
/// of `m` with one more entry are the parts of `m` with that entry stored in
/// its owning bucket. So, from the empty map's parts (all empty), any order
/// of single insertions reaches the parts that bulk construction gives.
pub proof fn lemma_partition_step(m: Map<u64, u64>, n: nat, key: u64, value: u64)
    requires
        n >= 1,
    ensures
        partition_of(m.insert(key, value), n) == map_insert_step(partition_of(m, n), key, value),
        all_empty(partition_of(Map::<u64, u64>::empty(), n)),
{
    let i = bucket_of(key, n) as int;
    assert(0 <= i < n) by {
        vstd::arithmetic::div_mod::lemma_mod_bound(crate::router::key_hash(key) as int, n as int);
    }
    let lhs = partition_of(m.insert(key, value), n);
    let rhs = map_insert_step(partition_of(m, n), key, value);
    assert forall|j: int| 0 <= j < n implies lhs[j] == rhs[j] by {
        assert(lhs[j] =~= rhs[j]);
    }
    assert(lhs =~= rhs);
    assert forall|j: int| 0 <= j < n implies #[trigger] partition_of(Map::<u64, u64>::empty(), n)[j]
        == Map::<u64, u64>::empty() by {
        assert(partition_of(Map::<u64, u64>::empty(), n)[j] =~= Map::<u64, u64>::empty());
    }
}

} // verus!
