//! Tests for the single-flight scan-result cache.

use std::cell::Cell;

use dict_encode::file_cache::FileCache;

#[test]
fn single_flight_shares_one_read() {
    let counter = Cell::new(0u32);
    let mut cache: FileCache<Vec<u64>> = FileCache::new(Some(vec![7]));
    let reader = || {
        counter.set(counter.get() + 1);
        Ok::<Vec<u64>, String>(vec![1, 2, 3])
    };
    let r1 = cache.read(7, 3, &reader).unwrap();
    let r2 = cache.read(7, 3, &reader).unwrap();
    let r3 = cache.read(7, 3, &reader).unwrap();
    assert_eq!(counter.get(), 1);
    assert_eq!(*r1, vec![1, 2, 3]);
    assert_eq!(*r1, *r2);
    assert_eq!(*r2, *r3);
}

#[test]
fn cache_evicts_after_last_consumer() {
    let mut cache: FileCache<Vec<u64>> = FileCache::new(Some(vec![5]));
    let reader = || Ok::<Vec<u64>, String>(vec![9]);
    assert!(cache.read(5, 3, &reader).is_ok());
    assert_eq!(cache.state_of(5), Some((1, true)));
    assert!(cache.read(5, 3, &reader).is_ok());
    assert_eq!(cache.state_of(5), Some((2, true)));
    assert!(cache.read(5, 3, &reader).is_ok());
    // the stored result is released as soon as the last consumer is served
    assert_eq!(cache.state_of(5), Some((3, false)));
}

#[test]
fn single_consumer_bypasses_cache() {
    let counter = Cell::new(0u32);
    // no registration needed: one consumer never touches the slots
    let mut cache: FileCache<Vec<u64>> = FileCache::new(None);
    let reader = || {
        counter.set(counter.get() + 1);
        Ok::<Vec<u64>, String>(vec![4])
    };
    let r = cache.read(42, 1, &reader).unwrap();
    assert_eq!(*r, vec![4]);
    assert_eq!(counter.get(), 1);
    let r2 = cache.read(42, 1, &reader).unwrap();
    assert_eq!(*r2, vec![4]);
    assert_eq!(counter.get(), 2);
}

#[test]
fn reader_error_propagates_and_counts() {
    let mut cache: FileCache<Vec<u64>> = FileCache::new(Some(vec![9]));
    let reader = || Err::<Vec<u64>, String>("boom".to_string());
    let r = cache.read(9, 2, &reader);
    assert_eq!(r.unwrap_err(), "boom");
    // the failed arrival still counts; the slot stays empty
    assert_eq!(cache.state_of(9), Some((1, false)));
}

#[test]
fn duplicate_fingerprints_registered_once() {
    let cache: FileCache<Vec<u64>> = FileCache::new(Some(vec![1, 2, 1]));
    assert_eq!(cache.state_of(1), Some((0, false)));
    assert_eq!(cache.state_of(2), Some((0, false)));
    assert_eq!(cache.state_of(3), None);
}
