use std::collections::hash_map::DefaultHasher;
use std::collections::{HashMap, HashSet};
use std::hash::Hasher;
use stm::atomically;
use stm_datastructures::router::{bucket_index, hash_key};
use stm_datastructures::shard::{
    append_bucket, drain_buckets, merge_into, partition, union_buckets, with_value,
};
use stm_datastructures::{THashMap, THashSet};

fn sorted(mut v: Vec<u64>) -> Vec<u64> {
    v.sort();
    v
}

#[test]
fn insert_then_drain_scenario() {
    let set = THashSet::new(4);
    let a = 'a' as u64;
    let b = 'b' as u64;
    let results: Vec<bool> = [a, b, a]
        .iter()
        .map(|&v| atomically(|trans| set.insert(trans, v)))
        .collect();
    assert_eq!(results, vec![true, true, false]);
    let all = atomically(|trans| set.as_vec(trans));
    assert_eq!(sorted(all), vec![a, b]);
}

#[test]
fn insert_reports_first_occurrence_for_any_bucket_count() {
    let vals: Vec<u64> = vec![5, 9, 5, 0, 17, 9, 9, 1000, 0, 42];
    for n in [1usize, 2, 3, 16, 1000] {
        let set = THashSet::new(n);
        let mut seen = HashSet::new();
        for &v in &vals {
            let r = atomically(|trans| set.insert(trans, v));
            assert_eq!(r, seen.insert(v), "value {} with {} buckets", v, n);
        }
    }
}

#[test]
fn as_vec_returns_all_and_empties() {
    let set = THashSet::new(7);
    let vals: Vec<u64> = (0..50).map(|i| i * 31 + 3).collect();
    for &v in &vals {
        assert!(atomically(|trans| set.insert(trans, v)));
    }
    let all = atomically(|trans| set.as_vec(trans));
    assert_eq!(all.len(), vals.len());
    assert_eq!(sorted(all), sorted(vals.clone()));
    let again = atomically(|trans| set.as_vec(trans));
    assert!(again.is_empty());
    // the set stays usable after draining
    assert!(atomically(|trans| set.insert(trans, vals[0])));
    assert_eq!(atomically(|trans| set.as_vec(trans)), vec![vals[0]]);
}

#[test]
fn as_vec_follows_bucket_order() {
    let n = 5usize;
    let set = THashSet::new(n);
    for v in 0..40u64 {
        atomically(|trans| set.insert(trans, v));
    }
    let all = atomically(|trans| set.as_vec(trans));
    let buckets: Vec<usize> = all.iter().map(|&v| bucket_index(v, n)).collect();
    let mut ordered = buckets.clone();
    ordered.sort();
    assert_eq!(buckets, ordered);
}

#[test]
fn insert_probed_decides_on_the_probe() {
    let set = THashSet::new(3);
    let mut probe = HashSet::new();
    probe.insert(8u64);
    assert_eq!(atomically(|trans| set.insert_probed(trans, 8, &probe)), false);
    assert!(atomically(|trans| set.as_vec(trans)).is_empty());
    let empty = HashSet::new();
    assert_eq!(atomically(|trans| set.insert_probed(trans, 8, &empty)), true);
    assert_eq!(atomically(|trans| set.as_vec(trans)), vec![8]);
}

#[test]
fn bucket_for_holds_inserted_value() {
    let set = THashSet::new(6);
    assert_eq!(set.buckets(), 6);
    atomically(|trans| set.insert(trans, 77));
    assert!(set.bucket_for(77).read_atomic().contains(&77));
}

#[test]
fn from_hashmap_keeps_every_key_once() {
    for (m, k) in [(0u64, 1usize), (1, 1), (10, 3), (100, 8), (37, 64)] {
        let source: HashMap<u64, u64> = (0..m).map(|i| (i * 7 + 1, i * i)).collect();
        let map = THashMap::from_hashmap(source.clone(), k);
        assert_eq!(map.buckets(), k);
        assert_eq!(map.get_contents(), source);
        for (key, value) in &source {
            let bucket = map.get_bucket(key).read_atomic();
            assert_eq!(bucket.get(key), Some(value));
        }
    }
}

#[test]
fn is_empty_after_construction() {
    for n in [1usize, 1000] {
        let map = THashMap::new(n);
        assert!(atomically(|trans| map.is_empty(trans)));
        assert!(map.get_contents().is_empty());
    }
    let built = THashMap::from_hashmap(HashMap::new(), 4);
    assert!(atomically(|trans| built.is_empty(trans)));
}

#[test]
fn is_empty_false_after_one_insert() {
    for n in [1usize, 2, 7, 1000] {
        let map = THashMap::new(n);
        let key = 12345u64;
        atomically(|trans| {
            map.get_bucket(&key).modify(trans, |mut m| {
                m.insert(key, 1);
                m
            })
        });
        assert!(!atomically(|trans| map.is_empty(trans)));
        let mut expected = HashMap::new();
        expected.insert(key, 1u64);
        assert_eq!(map.get_contents(), expected);
    }
}

#[test]
fn same_bucket_transactions_keep_both_values() {
    let set = THashSet::new(1);
    assert!(atomically(|trans| set.insert(trans, 1)));
    assert!(atomically(|trans| set.insert(trans, 2)));
    assert_eq!(sorted(atomically(|trans| set.as_vec(trans))), vec![1, 2]);
}

#[test]
fn one_transaction_inserts_into_several_buckets() {
    let set = THashSet::new(8);
    let r = atomically(|trans| {
        let x = set.insert(trans, 10)?;
        let y = set.insert(trans, 20)?;
        Ok((x, y))
    });
    assert_eq!(r, (true, true));
    assert_eq!(sorted(atomically(|trans| set.as_vec(trans))), vec![10, 20]);
}

#[test]
fn hash_key_matches_default_hasher() {
    for v in [0u64, 1, 97, u64::MAX] {
        let mut h = DefaultHasher::new();
        h.write(&v.to_le_bytes());
        assert_eq!(hash_key(v), h.finish());
    }
    assert_ne!(hash_key(1), 1);
}

#[test]
fn bucket_index_is_stable_and_in_range() {
    for n in [1usize, 2, 3, 10, 1000] {
        for v in 0..200u64 {
            let i = bucket_index(v, n);
            assert!(i < n);
            assert_eq!(i, bucket_index(v, n));
            assert_eq!(i, (hash_key(v) % n as u64) as usize);
        }
    }
    assert_eq!(bucket_index(99, 1), 0);
}

#[test]
fn with_value_adds_once() {
    let s: HashSet<u64> = [1u64, 2].into_iter().collect();
    let t = with_value(s.clone(), 3);
    assert_eq!(t, [1u64, 2, 3].into_iter().collect());
    assert_eq!(with_value(t.clone(), 2), t);
}

#[test]
fn append_bucket_keeps_prefix() {
    let mut out = vec![9u64, 9];
    let bucket: HashSet<u64> = [4u64, 5, 6].into_iter().collect();
    append_bucket(&mut out, &bucket);
    assert_eq!(out.len(), 5);
    assert_eq!(&out[..2], &[9, 9]);
    assert_eq!(sorted(out[2..].to_vec()), vec![4, 5, 6]);
    append_bucket(&mut out, &HashSet::new());
    assert_eq!(out.len(), 5);
}

#[test]
fn partition_routes_each_entry() {
    let source: HashMap<u64, u64> = (0..60u64).map(|i| (i, i + 100)).collect();
    let parts = partition(&source, 6);
    assert_eq!(parts.len(), 6);
    let mut total = 0;
    for (i, part) in parts.iter().enumerate() {
        for (k, v) in part {
            assert_eq!(bucket_index(*k, 6), i);
            assert_eq!(source.get(k), Some(v));
        }
        total += part.len();
    }
    assert_eq!(total, source.len());
    let single = partition(&source, 1);
    assert_eq!(single, vec![source.clone()]);
    assert_eq!(partition(&HashMap::new(), 3), vec![HashMap::new(); 3]);
}

#[test]
fn merge_into_prefers_bucket() {
    let mut acc: HashMap<u64, u64> = [(1u64, 10u64), (2, 20)].into_iter().collect();
    let bucket: HashMap<u64, u64> = [(2u64, 99u64), (3, 30)].into_iter().collect();
    merge_into(&mut acc, &bucket);
    let expected: HashMap<u64, u64> = [(1u64, 10u64), (2, 99), (3, 30)].into_iter().collect();
    assert_eq!(acc, expected);
}

#[test]
fn drain_buckets_joins_in_bucket_order() {
    let b0: HashSet<u64> = [3u64, 1].into_iter().collect();
    let b1: HashSet<u64> = HashSet::new();
    let b2: HashSet<u64> = [7u64].into_iter().collect();
    let all = drain_buckets(&vec![b0, b1, b2]);
    assert_eq!(all.len(), 3);
    assert_eq!(sorted(all[..2].to_vec()), vec![1, 3]);
    assert_eq!(all[2], 7);
    assert!(drain_buckets(&Vec::new()).is_empty());
}

#[test]
fn union_buckets_later_bucket_wins() {
    let b0: HashMap<u64, u64> = [(1u64, 1u64), (2, 2)].into_iter().collect();
    let b1: HashMap<u64, u64> = [(2u64, 5u64), (3, 3)].into_iter().collect();
    let all = union_buckets(&vec![b0, b1]);
    let expected: HashMap<u64, u64> = [(1u64, 1u64), (2, 5), (3, 3)].into_iter().collect();
    assert_eq!(all, expected);
    assert!(union_buckets(&Vec::new()).is_empty());
}

#[test]
fn partition_then_union_round_trip() {
    let source: HashMap<u64, u64> = (0..25u64).map(|i| (i * 13, i)).collect();
    for k in [1usize, 4, 30] {
        assert_eq!(union_buckets(&partition(&source, k)), source);
    }
}

#[test]
fn repeat_in_one_transaction_reports_false() {
    let set = THashSet::new(4);
    let r = atomically(|trans| {
        let first = set.insert(trans, 9)?;
        let second = set.insert(trans, 9)?;
        Ok((first, second))
    });
    assert_eq!(r, (true, false));
    assert_eq!(atomically(|trans| set.as_vec(trans)), vec![9]);
}

#[test]
fn new_set_drains_to_nothing() {
    for n in [1usize, 5, 1000] {
        let set = THashSet::new(n);
        assert!(atomically(|trans| set.as_vec(trans)).is_empty());
    }
}

#[test]
fn as_vec_then_insert_in_one_transaction() {
    let set = THashSet::new(2);
    atomically(|trans| set.insert(trans, 3));
    let (drained, again) = atomically(|trans| {
        let d = set.as_vec(trans)?;
        let a = set.insert(trans, 3)?;
        Ok((d, a))
    });
    assert_eq!(drained, vec![3]);
    assert!(again);
}
