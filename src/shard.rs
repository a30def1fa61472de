//! The contents of the buckets as plain values: how a value enters its
//! bucket, how buckets are drained, split and merged.
use crate::model::{concat, drain_parts, is_drain_of, union_maps};
use crate::router::{bucket_index, bucket_of};
use std::collections::{HashMap, HashSet};
use vstd::prelude::*;
use vstd::std_specs::iter::IteratorSpec;

verus! {

broadcast use vstd::std_specs::hash::group_hash_axioms;

/// Returns `set` with `value` added.
pub fn with_value(set: HashSet<u64>, value: u64) -> (r: HashSet<u64>)
    ensures
        r@ == set@.insert(value),
{
    let mut set = set;
    set.insert(value);
    set
}

/// Appends each element of `bucket` once to `out`, in the bucket's own order.
pub fn append_bucket(out: &mut Vec<u64>, bucket: &HashSet<u64>)
    ensures
        final(out)@.len() >= old(out)@.len(),
        final(out)@.subrange(0, old(out)@.len() as int) == old(out)@,
        final(out)@.subrange(old(out)@.len() as int, final(out)@.len() as int).to_set()
            == bucket@,
        final(out)@.subrange(old(out)@.len() as int, final(out)@.len() as int).no_duplicates(),
{
    let ghost start = out@;
    for x in it: bucket.iter()
        invariant
            it.seq() == bucket.iter().remaining(),
            out@ == start + it.seq().take(it.index() as int).unref(),
    {
        out.push(*x);
    }
    assert(out@.subrange(0, start.len() as int) =~= start);
    assert(out@.subrange(start.len() as int, out@.len() as int) =~= bucket.iter().remaining().unref());
}

/// The entries of `m` whose key routes to bucket `i` of `bucket_count`.
pub open spec fn routed_part(m: Map<u64, u64>, bucket_count: nat, i: nat) -> Map<u64, u64> {
    m.restrict(Set::new(|k: u64| bucket_of(k, bucket_count) == i))
}

/// The keys of the first `n` entries of an iteration.
pub open spec fn keys_taken(entries: Seq<(&u64, &u64)>, n: int) -> Set<u64> {
    entries.take(n).map_values(|e: (&u64, &u64)| *e.0).to_set()
}

/// Taking one more entry adds its key.
proof fn lemma_keys_taken_step(s: Seq<(&u64, &u64)>, idx: int)
    requires
        0 <= idx < s.len(),
    ensures
        keys_taken(s, idx + 1) == keys_taken(s, idx).insert(*s[idx].0),
{
    let a = s.take(idx).map_values(|e: (&u64, &u64)| *e.0);
    let b = s.take(idx + 1).map_values(|e: (&u64, &u64)| *e.0);
    assert(b =~= a.push(*s[idx].0));
    assert forall|k: u64| b.to_set().contains(k) <==> (a.to_set().contains(k) || k == *s[idx].0) by {
        if b.to_set().contains(k) {
            let j = choose|j: int| 0 <= j < b.len() && b[j] == k;
            if j < a.len() {
                assert(a[j] == k);
            }
        }
        if a.to_set().contains(k) {
            let j = choose|j: int| 0 <= j < a.len() && a[j] == k;
            assert(b[j] == k);
        }
        if k == *s[idx].0 {
            assert(b[idx] == k);
        }
    }
    assert(b.to_set() =~= a.to_set().insert(*s[idx].0));
}

/// A full iteration over a map yields each of its keys.
proof fn lemma_iteration_covers_keys(m: &HashMap<u64, u64>)
    ensures
        keys_taken(m.iter().remaining(), m.iter().remaining().len() as int) == m@.dom(),
{
    let s = m.iter().remaining();
    let ks = s.take(s.len() as int).map_values(|e: (&u64, &u64)| *e.0);
    assert(s.take(s.len() as int) =~= s);
    assert forall|k: u64| m@.dom().contains(k) implies ks.to_set().contains(k) by {
        assert(s.contains((&k, &m@[k])));
        let j = choose|j: int| 0 <= j < s.len() && s[j] == (&k, &m@[k]);
        assert(ks[j] == k);
    }
    assert forall|k: u64| ks.to_set().contains(k) implies m@.dom().contains(k) by {
        let j = choose|j: int| 0 <= j < ks.len() && ks[j] == k;
        assert(m@.contains_key(*s[j].0));
    }
    assert(ks.to_set() =~= m@.dom());
}

/// Splits `map` into `bucket_count` maps, each holding exactly the entries
/// whose key routes to it.
pub fn partition(map: &HashMap<u64, u64>, bucket_count: usize) -> (parts: Vec<HashMap<u64, u64>>)
    requires
        bucket_count >= 1,
    ensures
        parts@.len() == bucket_count,
        forall|i: int|
            0 <= i < bucket_count ==> #[trigger] parts@[i]@ == routed_part(
                map@,
                bucket_count as nat,
                i as nat,
            ),
{
    let estimated_size = map.len() / bucket_count;
    let mut parts: Vec<HashMap<u64, u64>> = Vec::with_capacity(bucket_count);
    for _j in 0..bucket_count
        invariant
            parts@.len() == _j,
            forall|i: int| 0 <= i < parts@.len() ==> (#[trigger] parts@[i])@ == Map::<u64, u64>::empty(),
    {
        parts.push(HashMap::with_capacity(estimated_size));
    }
    let ghost n = bucket_count as nat;
    for entry in it: map.iter()
        invariant
            it.seq() == map.iter().remaining(),
            bucket_count >= 1,
            n == bucket_count as nat,
            parts@.len() == bucket_count,
            forall|i: int|
                0 <= i < bucket_count ==> (#[trigger] parts@[i])@ == map@.restrict(
                    keys_taken(it.seq(), it.index() as int),
                ).restrict(Set::new(|k: u64| bucket_of(k, n) == i)),
    {
        let (k, v) = entry;
        let b = bucket_index(*k, bucket_count);
        let ghost idx = it.index() as int;
        let ghost old_parts = parts@;
        proof {
            assert(it.seq()[idx] == entry);
            assert(map@.contains_key(*k) && map@[*k] == *v);
            lemma_keys_taken_step(it.seq(), idx);
        }
        parts[b].insert(*k, *v);
        proof {
            assert forall|i: int| 0 <= i < bucket_count implies (#[trigger] parts@[i])@
                == map@.restrict(keys_taken(it.seq(), idx + 1)).restrict(
                Set::new(|k: u64| bucket_of(k, n) == i),
            ) by {
                assert(parts@[i]@ =~= map@.restrict(keys_taken(it.seq(), idx + 1)).restrict(
                    Set::new(|k: u64| bucket_of(k, n) == i),
                ));
            }
        }
    }
    proof {
        lemma_iteration_covers_keys(map);
        assert forall|i: int| 0 <= i < bucket_count implies (#[trigger] parts@[i])@ == routed_part(
            map@,
            n,
            i as nat,
        ) by {
            assert(parts@[i]@ =~= routed_part(map@, n, i as nat));
        }
    }
    parts
}

/// Copies every entry of `bucket` into `acc`, replacing the value of a key
/// that `acc` already holds.
pub fn merge_into(acc: &mut HashMap<u64, u64>, bucket: &HashMap<u64, u64>)
    ensures
        final(acc)@ == old(acc)@.union_prefer_right(bucket@),
{
    let ghost start = acc@;
    for entry in it: bucket.iter()
        invariant
            it.seq() == bucket.iter().remaining(),
            acc@ == start.union_prefer_right(
                bucket@.restrict(keys_taken(it.seq(), it.index() as int)),
            ),
    {
        let (k, v) = entry;
        let ghost idx = it.index() as int;
        proof {
            assert(it.seq()[idx] == entry);
            assert(bucket@.contains_key(*k) && bucket@[*k] == *v);
            lemma_keys_taken_step(it.seq(), idx);
        }
        acc.insert(*k, *v);
        assert(acc@ =~= start.union_prefer_right(
            bucket@.restrict(keys_taken(it.seq(), idx + 1)),
        ));
    }
    proof {
        lemma_iteration_covers_keys(bucket);
    }
    assert(acc@ =~= start.union_prefer_right(bucket@));
}

/// Lists the elements of `buckets` in bucket order, each bucket's elements
/// once.
pub fn drain_buckets(buckets: &Vec<HashSet<u64>>) -> (all: Vec<u64>)
    ensures
        is_drain_of(all@, buckets@.map_values(|s: HashSet<u64>| s@)),
{
    let ghost b = buckets@.map_values(|s: HashSet<u64>| s@);
    let mut all: Vec<u64> = Vec::new();
    let ghost mut parts: Seq<Seq<u64>> = Seq::empty();
    for i in 0..buckets.len()
        invariant
            b == buckets@.map_values(|s: HashSet<u64>| s@),
            parts.len() == i,
            all@ == concat(parts),
            forall|j: int|
                0 <= j < i ==> (#[trigger] parts[j]).to_set() == b[j] && parts[j].no_duplicates(),
    {
        let ghost before = all@;
        append_bucket(&mut all, &buckets[i]);
        proof {
            let piece = all@.subrange(before.len() as int, all@.len() as int);
            let next = parts.push(piece);
            assert(next.drop_last() =~= parts);
            assert(all@ =~= before + piece);
            parts = next;
        }
    }
    assert(drain_parts(parts, b));
    all
}

/// The union of the maps of `buckets`, a later bucket's value winning on a
/// key that two share.
pub fn union_buckets(buckets: &Vec<HashMap<u64, u64>>) -> (all: HashMap<u64, u64>)
    ensures
        all@ == union_maps(buckets@.map_values(|m: HashMap<u64, u64>| m@)),
{
    let ghost b = buckets@.map_values(|m: HashMap<u64, u64>| m@);
    let mut all: HashMap<u64, u64> = HashMap::new();
    for i in 0..buckets.len()
        invariant
            b == buckets@.map_values(|m: HashMap<u64, u64>| m@),
            all@ == union_maps(b.take(i as int)),
    {
        merge_into(&mut all, &buckets[i]);
        assert(b.take(i + 1).drop_last() =~= b.take(i as int));
    }
    assert(b.take(buckets.len() as int) =~= b);
    all
}

} // verus!
