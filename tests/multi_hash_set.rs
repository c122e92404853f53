use multi_hash_set::primes::{is_prime, next_prime};
use multi_hash_set::{HashSetError, MultiHashElement, MultiHashSet};
use std::collections::HashMap;
use std::collections::HashSet;

fn s(x: &str) -> String {
    x.to_string()
}

fn collect(set: &MultiHashSet<String>) -> Vec<String> {
    let mut it = set.iter();
    let mut out = Vec::new();
    while let Some(v) = it.next() {
        out.push(v);
    }
    out
}

#[test]
fn default_scenario_counts_and_size() {
    let mut set: MultiHashSet<String> = MultiHashSet::new();
    set.put(s("a"));
    set.put(s("a"));
    set.put(s("b"));
    assert_eq!(set.count(s("a")), 2);
    assert_eq!(set.count(s("b")), 1);
    let values: HashSet<String> = collect(&set).into_iter().collect();
    let expected: HashSet<String> = vec![s("a"), s("b")].into_iter().collect();
    assert_eq!(values, expected);
    assert_eq!(collect(&set).len(), 2);
    assert_eq!(set.get_size(), 11);
}

#[test]
fn thousand_values_remove_one() {
    let mut set: MultiHashSet<String> = MultiHashSet::new();
    for i in 0..1000 {
        set.put(i.to_string());
    }
    assert_eq!(set.remove(s("500")), Ok(()));
    assert!(!set.contains(s("500")));
    assert_eq!(set.count(s("500")), 0);
    for i in 0..1000 {
        if i != 500 {
            assert_eq!(set.count(i.to_string()), 1, "value {}", i);
            assert!(set.contains(i.to_string()));
        }
    }
    assert_eq!(collect(&set).len(), 999);
    // distinct hashes spread the values, so the table must have grown
    assert!(set.get_size() > 11);
    assert!(is_prime(set.get_size()));
}

#[test]
fn resize_keeps_counts() {
    let mut set: MultiHashSet<String> = MultiHashSet::new();
    for _ in 0..5 {
        set.put(s("x"));
    }
    for i in 0..20 {
        set.put(format!("other{}", i));
    }
    assert!(set.get_size() > 11);
    assert_eq!(set.count(s("x")), 5);
    for i in 0..20 {
        assert_eq!(set.count(format!("other{}", i)), 1);
    }
}

#[test]
fn remove_single_occurrence_then_fail() {
    let mut set: MultiHashSet<String> = MultiHashSet::new();
    set.put(s("v"));
    assert!(set.contains(s("v")));
    assert_eq!(set.remove(s("v")), Ok(()));
    assert!(!set.contains(s("v")));
    assert_eq!(set.remove(s("v")), Err(HashSetError::RemoveError));
}

#[test]
fn remove_absent_value_fails() {
    let mut set: MultiHashSet<String> = MultiHashSet::new();
    assert_eq!(set.remove(s("nothing")), Err(HashSetError::RemoveError));
    set.put(s("a"));
    assert_eq!(set.remove(s("b")), Err(HashSetError::RemoveError));
    assert_eq!(set.count(s("a")), 1);
}

#[test]
fn remove_decrements_before_unlinking() {
    let mut set: MultiHashSet<String> = MultiHashSet::new();
    set.put(s("a"));
    set.put(s("a"));
    set.put(s("a"));
    assert_eq!(set.remove(s("a")), Ok(()));
    assert_eq!(set.count(s("a")), 2);
    assert_eq!(set.remove(s("a")), Ok(()));
    assert_eq!(set.remove(s("a")), Ok(()));
    assert_eq!(set.count(s("a")), 0);
    assert_eq!(set.remove(s("a")), Err(HashSetError::RemoveError));
}

#[test]
fn single_bucket_chain_operations() {
    // one bucket and a load factor of one: every value shares one chain
    let mut set: MultiHashSet<String> = MultiHashSet::new().size(1).expansion_factor(1, 1);
    for v in ["a", "b", "c", "d"] {
        set.put(s(v));
    }
    set.put(s("c"));
    assert_eq!(set.get_size(), 1);
    assert_eq!(set.count(s("c")), 2);
    assert_eq!(set.remove(s("b")), Ok(()));
    assert_eq!(set.remove(s("d")), Ok(()));
    assert_eq!(set.remove(s("c")), Ok(()));
    assert_eq!(set.count(s("c")), 1);
    assert_eq!(set.remove(s("a")), Ok(()));
    assert_eq!(set.remove(s("zz")), Err(HashSetError::RemoveError));
    assert_eq!(collect(&set), vec![s("c")]);
    assert_eq!(set.remove(s("c")), Ok(()));
    assert!(collect(&set).is_empty());
}

#[test]
fn builder_size_grows_to_next_prime() {
    let mut set: MultiHashSet<String> = MultiHashSet::new().size(1);
    assert_eq!(set.get_size(), 1);
    set.put(s("a"));
    assert_eq!(set.get_size(), 1);
    set.put(s("b"));
    assert_eq!(set.get_size(), 2);
    assert_eq!(set.count(s("a")), 1);
    assert_eq!(set.count(s("b")), 1);
}

#[test]
fn load_factor_one_never_grows() {
    let mut set: MultiHashSet<String> = MultiHashSet::new().size(5).expansion_factor(1, 1);
    for i in 0..100 {
        set.put(i.to_string());
    }
    assert_eq!(set.get_size(), 5);
    for i in 0..100 {
        assert_eq!(set.count(i.to_string()), 1);
    }
}

#[test]
fn empty_set_iterates_nothing() {
    let set: MultiHashSet<String> = MultiHashSet::new();
    let mut it = set.iter();
    assert!(it.next().is_none());
    assert!(it.next().is_none());
}

#[test]
fn iteration_lists_each_value_once() {
    let mut set: MultiHashSet<String> = MultiHashSet::new();
    for i in 0..10 {
        for _ in 0..(i + 1) {
            set.put(i.to_string());
        }
    }
    let mut values = collect(&set);
    values.sort();
    let mut expected: Vec<String> = (0..10).map(|i| i.to_string()).collect();
    expected.sort();
    assert_eq!(values, expected);
}

#[test]
fn iterator_is_a_snapshot() {
    let mut set: MultiHashSet<String> = MultiHashSet::new();
    set.put(s("a"));
    let values = collect(&set);
    set.put(s("b"));
    assert_eq!(values, vec![s("a")]);
}

#[test]
fn contains_agrees_with_count() {
    let mut set: MultiHashSet<String> = MultiHashSet::new();
    for i in 0..50 {
        if i % 3 == 0 {
            set.put(i.to_string());
        }
    }
    for i in 0..60 {
        assert_eq!(set.contains(i.to_string()), set.count(i.to_string()) > 0);
    }
}

#[test]
fn operations_match_reference_counts() {
    let mut set: MultiHashSet<String> = MultiHashSet::new();
    let mut reference: HashMap<String, usize> = HashMap::new();
    let mut state: u64 = 12345;
    for _ in 0..3000 {
        state = state.wrapping_mul(6364136223846793005).wrapping_add(1442695040888963407);
        let key = ((state >> 33) % 40).to_string();
        let is_put = (state >> 20) % 3 != 0;
        if is_put {
            set.put(key.clone());
            *reference.entry(key).or_insert(0) += 1;
        } else {
            let present = reference.get(&key).copied().unwrap_or(0) > 0;
            let result = set.remove(key.clone());
            if present {
                assert_eq!(result, Ok(()));
                *reference.get_mut(&key).unwrap() -= 1;
            } else {
                assert_eq!(result, Err(HashSetError::RemoveError));
            }
        }
    }
    for i in 0..40 {
        let key = i.to_string();
        assert_eq!(set.count(key.clone()), reference.get(&key).copied().unwrap_or(0));
    }
    let listed: HashSet<String> = collect(&set).into_iter().collect();
    let expected: HashSet<String> = reference
        .iter()
        .filter(|(_, c)| **c > 0)
        .map(|(k, _)| k.clone())
        .collect();
    assert_eq!(listed, expected);
    assert_eq!(collect(&set).len(), expected.len());
}

#[test]
fn count_is_puts_minus_successful_removes() {
    let mut set: MultiHashSet<String> = MultiHashSet::new();
    set.put(s("k"));
    set.put(s("k"));
    assert_eq!(set.remove(s("k")), Ok(()));
    assert_eq!(set.remove(s("k")), Ok(()));
    assert_eq!(set.remove(s("k")), Err(HashSetError::RemoveError));
    set.put(s("k"));
    assert_eq!(set.count(s("k")), 1);
}

#[test]
fn element_append_get_and_remove() {
    let mut head = MultiHashElement::new(s("a"));
    assert_eq!(head.count, 1);
    assert!(head.next.is_none());
    head.append(MultiHashElement::new(s("b")));
    head.append(MultiHashElement::new(s("c")));
    head.append(MultiHashElement::new(s("b")));
    head.append(MultiHashElement::new(s("a")));
    assert_eq!(head.count, 2);
    assert_eq!(head.get(&s("b")).map(|n| n.count), Some(2));
    assert_eq!(head.get(&s("c")).map(|n| n.count), Some(1));
    assert!(head.get(&s("d")).is_none());
    let mut buffer = Vec::new();
    head.cummulate(&mut buffer);
    assert_eq!(buffer, vec![s("a"), s("b"), s("c")]);
    assert_eq!(head.remove(s("b")), Ok(()));
    assert_eq!(head.get(&s("b")).map(|n| n.count), Some(1));
    assert_eq!(head.remove(s("b")), Ok(()));
    assert!(head.get(&s("b")).is_none());
    // the head itself is not among the nodes after it
    assert_eq!(head.remove(s("a")), Err(HashSetError::RemoveError));
    assert_eq!(head.remove(s("c")), Ok(()));
    assert!(head.next.is_none());
    let mut buffer = Vec::new();
    head.cummulate(&mut buffer);
    assert_eq!(buffer, vec![s("a")]);
}

#[test]
fn element_cummulate_counted_keeps_counts() {
    let mut head = MultiHashElement::new(s("a"));
    head.append(MultiHashElement::new(s("b")));
    head.append(MultiHashElement::new(s("b")));
    let mut buffer = Vec::new();
    head.cummulate_counted(&mut buffer);
    assert_eq!(buffer, vec![(s("a"), 1), (s("b"), 2)]);
}

#[test]
fn primes_by_trial_division() {
    let primes: Vec<usize> = (0..60).filter(|n| is_prime(*n)).collect();
    assert_eq!(
        primes,
        vec![2, 3, 5, 7, 11, 13, 17, 19, 23, 29, 31, 37, 41, 43, 47, 53, 59]
    );
    assert!(!is_prime(25));
    assert!(!is_prime(49));
    assert!(!is_prime(121));
    assert!(is_prime(7919));
    assert!(!is_prime(7919 * 7907));
}

#[test]
fn next_prime_is_strictly_greater() {
    assert_eq!(next_prime(0), Some(2));
    assert_eq!(next_prime(1), Some(2));
    assert_eq!(next_prime(2), Some(3));
    assert_eq!(next_prime(11), Some(13));
    assert_eq!(next_prime(13), Some(17));
    assert_eq!(next_prime(89), Some(97));
    assert_eq!(next_prime(usize::MAX), None);
}
