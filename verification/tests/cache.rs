//! The memoization caches: memoized lookups, the caller-driven entry
//! protocol, and recursion breaking.

use rustc_plugin::cache::Cache;
use rustc_plugin::cache::CopyCache;
use rustc_plugin::cache::EntryState;

#[test]
fn test_cached() {
    let mut cache: Cache<usize, usize> = Cache::default();
    let x = *cache.get(0, |_| 0);
    let y = *cache.get(1, |_| 1);
    let z = *cache.get(0, |_| 2);
    assert_eq!(x, 0);
    assert_eq!(y, 1);
    assert_eq!(z, 0);
    assert_eq!(x, z);
}

#[test]
fn memoized_value_is_stable() {
    // The second lookup must return the stored value and must not run
    // the new computation, which would yield 99.
    let mut cache: CopyCache<u64, u64> = CopyCache::default();
    let first = cache.get(5, |k| k * 2);
    let second = cache.get(5, |_| 99);
    assert_eq!(first, 10);
    assert_eq!(second, 10);
    assert_eq!(cache.len(), 1);
}

#[test]
fn distinct_keys_compute_separately() {
    let mut cache: CopyCache<u64, u64> = CopyCache::default();
    let a = cache.get(1, |k| k + 100);
    let b = cache.get(2, |k| k + 100);
    assert_eq!(a, 101);
    assert_eq!(b, 102);
    assert_eq!(cache.len(), 2);
}

#[test]
fn entry_protocol_states() {
    let mut cache: CopyCache<u32, u32> = CopyCache::default();
    assert_eq!(cache.state(&7), EntryState::Absent);
    cache.begin(7);
    assert_eq!(cache.state(&7), EntryState::InProgress);
    assert_eq!(cache.peek(&7), None);
    cache.finish(7, 49);
    assert_eq!(cache.state(&7), EntryState::Present);
    assert_eq!(cache.peek(&7), Some(49));
}

fn reenter_same_key(cache: CopyCache<usize, usize>, key: usize) -> (CopyCache<usize, usize>, usize) {
    // Requesting the key whose computation this call *is* must report
    // the reentry instead of recursing forever.
    let (cache, inner) = cache.get_maybe_recursive(key, reenter_same_key);
    assert_eq!(inner, None);
    (cache, 42)
}

#[test]
fn reentrant_get_or_none_short_circuits() {
    let cache: CopyCache<usize, usize> = CopyCache::default();
    let (cache, outer) = cache.get_maybe_recursive(7, reenter_same_key);
    assert_eq!(outer, Some(42));
    let (_, again) = cache.get_maybe_recursive(7, |_, _| unreachable!());
    assert_eq!(again, Some(42));
}

fn fib(cache: CopyCache<u64, u64>, n: u64) -> (CopyCache<u64, u64>, u64) {
    if n <= 1 {
        return (cache, n);
    }
    let (cache, a) = cache.get_maybe_recursive(n - 1, fib);
    let (cache, b) = cache.get_maybe_recursive(n - 2, fib);
    (cache, a.unwrap() + b.unwrap())
}

#[test]
fn recursive_construction_through_distinct_keys() {
    let cache: CopyCache<u64, u64> = CopyCache::default();
    let (cache, v) = cache.get_maybe_recursive(10, fib);
    assert_eq!(v, Some(55));
    assert_eq!(cache.len(), 11);
}

fn reenter_noncopy(cache: Cache<usize, String>, key: usize) -> (Cache<usize, String>, String) {
    let (cache, inner) = cache.get_maybe_recursive(key, reenter_noncopy);
    assert_eq!(inner, None);
    (cache, String::from("done"))
}

#[test]
fn reentrant_get_or_none_on_owned_values() {
    let cache: Cache<usize, String> = Cache::default();
    let (cache, outer) = cache.get_maybe_recursive(3, reenter_noncopy);
    assert_eq!(outer, Some(String::from("done")));
    let (_, hit) = cache.get_maybe_recursive(3, |c, _| (c, String::from("other")));
    assert_eq!(hit, Some(String::from("done")));
}

#[test]
fn owned_values_are_memoized() {
    let mut cache: Cache<u32, String> = Cache::default();
    let first = cache.get(1, |k| format!("value-{k}")).clone();
    let second = cache.get(1, |_| String::from("recomputed")).clone();
    assert_eq!(first, "value-1");
    assert_eq!(second, "value-1");
    assert_eq!(cache.len(), 1);
}
