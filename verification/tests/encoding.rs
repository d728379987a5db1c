//! Tests for the dictionary builder, the interning table and the reverse
//! mappings.

use dict_encode::builder::CategoricalChunkedBuilder;
use dict_encode::hashing::{hash_str, StrHashLocal};
use dict_encode::intern::{CapacityOverflow, StringInternTable};
use dict_encode::revmap::RevMapping;

fn slice() -> Vec<Option<String>> {
    vec![
        Some("foo".to_string()),
        None,
        Some("bar".to_string()),
        Some("foo".to_string()),
        Some("foo".to_string()),
        Some("bar".to_string()),
    ]
}

fn str_value(codes: &[Option<u32>], rev: &RevMapping, i: usize) -> String {
    match codes[i] {
        None => "null".to_string(),
        Some(c) => rev.get(c).to_string(),
    }
}

#[test]
fn test_categorical_rev() {
    let mut cache = StringInternTable::new();
    let mut b = CategoricalChunkedBuilder::new("a", 10);
    assert!(b.drain_iter(&slice(), false, &mut cache).is_ok());
    let (_codes, rev) = b.finish();
    assert_eq!(rev.len(), 2);

    // the global branch, first against an empty global cache
    let mut b = CategoricalChunkedBuilder::new("a", 10);
    assert!(b.drain_iter(&slice(), true, &mut cache).is_ok());
    let (_codes, rev_g1) = b.finish();
    assert_eq!(rev_g1.len(), 2);
    // then against the full global cache
    let mut b = CategoricalChunkedBuilder::new("a", 10);
    assert!(b.drain_iter(&slice(), true, &mut cache).is_ok());
    let (_codes, rev_g2) = b.finish();
    assert_eq!(rev_g2.len(), 2);
    // two columns built under the same string cache share a source
    assert!(rev_g1.same_src(&rev_g2));
}

#[test]
fn test_categorical_builder() {
    for b in [false, true] {
        let mut cache = StringInternTable::new();
        let mut builder1 = CategoricalChunkedBuilder::new("foo", 10);
        let mut builder2 = CategoricalChunkedBuilder::new("foo", 10);
        let input1 = vec![None, Some("hello".to_string()), Some("vietnam".to_string())];
        let input2 = vec![Some("hello".to_string()), None, Some("world".to_string())];
        assert!(builder1.drain_iter(&input1, b, &mut cache).is_ok());
        assert!(builder2.drain_iter(&input2, b, &mut cache).is_ok());

        let (codes1, rev1) = builder1.finish();
        assert_eq!(str_value(&codes1, &rev1, 0), "null");
        assert_eq!(str_value(&codes1, &rev1, 1), "hello");
        assert_eq!(str_value(&codes1, &rev1, 2), "vietnam");

        let (codes2, rev2) = builder2.finish();
        assert_eq!(str_value(&codes2, &rev2, 0), "hello");
        assert_eq!(str_value(&codes2, &rev2, 1), "null");
        assert_eq!(str_value(&codes2, &rev2, 2), "world");
    }
}

#[test]
fn local_encoding_scenario() {
    let mut cache = StringInternTable::new();
    let mut b = CategoricalChunkedBuilder::new("a", 10);
    assert!(b.drain_iter(&slice(), false, &mut cache).is_ok());
    let (codes, rev) = b.finish();
    assert_eq!(rev.len(), 2);
    assert_eq!(codes[1], None);
    assert_eq!(codes[0], codes[3]);
    assert_eq!(codes[0], codes[4]);
    assert_eq!(codes[2], codes[5]);
    assert_ne!(codes[0], codes[2]);
    assert_eq!(rev.get(codes[0].unwrap()), "foo");
    assert_eq!(rev.get(codes[2].unwrap()), "bar");
}

#[test]
fn local_encoding_deterministic() {
    let mut cache = StringInternTable::new();
    let mut b1 = CategoricalChunkedBuilder::new("a", 10);
    let mut b2 = CategoricalChunkedBuilder::new("a", 10);
    assert!(b1.drain_iter(&slice(), false, &mut cache).is_ok());
    assert!(b2.drain_iter(&slice(), false, &mut cache).is_ok());
    let (codes1, rev1) = b1.finish();
    let (codes2, rev2) = b2.finish();
    assert_eq!(codes1, codes2);
    assert_eq!(rev1.len(), rev2.len());
    for c in 0..rev1.len() {
        assert_eq!(rev1.get(c as u32), rev2.get(c as u32));
    }
}

#[test]
fn round_trip_find() {
    let mut cache = StringInternTable::new();
    let mut b = CategoricalChunkedBuilder::new("a", 10);
    assert!(b.drain_iter(&slice(), true, &mut cache).is_ok());
    let (codes, rev) = b.finish();
    for p in [0usize, 2, 3, 4, 5] {
        let c = codes[p].unwrap();
        let s = rev.get(c).to_string();
        assert_eq!(rev.find(&s), Some(c));
    }
    assert_eq!(rev.find("quux"), None);
}

#[test]
fn global_consistency_across_builders() {
    let mut cache = StringInternTable::new();
    let mut b1 = CategoricalChunkedBuilder::new("a", 10);
    let mut b2 = CategoricalChunkedBuilder::new("b", 10);
    let input1 = vec![Some("x".to_string()), Some("shared".to_string())];
    let input2 = vec![Some("y".to_string()), Some("shared".to_string()), Some("z".to_string())];
    assert!(b1.drain_iter(&input1, true, &mut cache).is_ok());
    assert!(b2.drain_iter(&input2, true, &mut cache).is_ok());
    let (codes1, rev1) = b1.finish();
    let (codes2, rev2) = b2.finish();
    assert_eq!(codes1[1], codes2[1]);
    assert_eq!(rev1.get(codes1[1].unwrap()), "shared");
    assert_eq!(rev2.get(codes2[1].unwrap()), "shared");
    assert!(rev1.same_src(&rev2));
}

#[test]
fn epoch_isolation_after_reset() {
    let mut cache = StringInternTable::new();
    let mut b1 = CategoricalChunkedBuilder::new("a", 10);
    assert!(b1.drain_iter(&slice(), true, &mut cache).is_ok());
    let (_c1, rev1) = b1.finish();
    cache.reset();
    let mut b2 = CategoricalChunkedBuilder::new("a", 10);
    assert!(b2.drain_iter(&slice(), true, &mut cache).is_ok());
    let (_c2, rev2) = b2.finish();
    // identical strings, but built across a reset: never the same source
    assert!(!rev1.same_src(&rev2));
    assert!(rev1.is_global() && rev2.is_global());
}

#[test]
fn all_null_input() {
    for global in [false, true] {
        let mut cache = StringInternTable::new();
        let mut b = CategoricalChunkedBuilder::new("a", 10);
        let input: Vec<Option<String>> = vec![None, None, None];
        assert!(b.drain_iter(&input, global, &mut cache).is_ok());
        let (codes, rev) = b.finish();
        assert_eq!(rev.len(), 0);
        assert_eq!(codes, vec![None, None, None]);
    }
}

#[test]
fn mixed_mappings_never_same_source() {
    let mut cache = StringInternTable::new();
    let mut b1 = CategoricalChunkedBuilder::new("a", 10);
    let mut b2 = CategoricalChunkedBuilder::new("a", 10);
    assert!(b1.drain_iter(&slice(), false, &mut cache).is_ok());
    assert!(b2.drain_iter(&slice(), true, &mut cache).is_ok());
    let (_c1, local) = b1.finish();
    let (_c2, global) = b2.finish();
    assert!(!local.same_src(&global));
    assert!(!global.same_src(&local));
    // two distinct Local arrays are not the same instance either
    let mut b3 = CategoricalChunkedBuilder::new("a", 10);
    assert!(b3.drain_iter(&slice(), false, &mut cache).is_ok());
    let (_c3, local2) = b3.finish();
    assert!(!local.same_src(&local2));
    assert!(local.same_src(&local));
}

#[test]
fn promote_local_to_global() {
    let mut cache = StringInternTable::new();
    // pre-populate the table so promoted codes are not the local ones
    let h = hash_str("seed");
    assert!(cache.get_or_insert("seed", h).is_ok());
    let keys = vec![Some(0u32), None, Some(1u32), Some(0u32)];
    let values = vec!["a".to_string(), "b".to_string()];
    let mut b = CategoricalChunkedBuilder::new("a", 10);
    assert!(b.global_map_from_local(&keys, values, &mut cache).is_ok());
    let (codes, rev) = b.finish();
    assert!(rev.is_global());
    assert_eq!(rev.len(), 2);
    assert_eq!(codes[1], None);
    assert_eq!(codes[0], codes[3]);
    assert_eq!(rev.get(codes[0].unwrap()), "a");
    assert_eq!(rev.get(codes[2].unwrap()), "b");
    assert_eq!(rev.find("a"), codes[0]);
}

#[test]
fn intern_table_assigns_stable_codes() {
    let mut t = StringInternTable::new();
    let h_foo = hash_str("foo");
    let h_bar = hash_str("bar");
    assert_eq!(t.get_or_insert("foo", h_foo).unwrap(), 0);
    assert_eq!(t.get_or_insert("bar", h_bar).unwrap(), 1);
    assert_eq!(t.get_or_insert("foo", h_foo).unwrap(), 0);
    let e = t.reset();
    assert_eq!(e, 1);
    assert_eq!(t.get_or_insert("bar", h_bar).unwrap(), 0);
}

#[test]
fn hashed_key_equality() {
    let h1 = hash_str("foo");
    let h2 = hash_str("foo");
    assert_eq!(h1, h2);
    let k1 = StrHashLocal::new("foo", h1);
    let k2 = StrHashLocal::new("foo", h2);
    assert!(k1 == k2);
    assert_eq!(k1.hash(), h1);
    let h3 = hash_str("bar");
    let k3 = StrHashLocal::new("bar", h3);
    assert!(!(k1 == k3));
}

#[test]
fn capacity_error_message() {
    let e = CapacityOverflow;
    assert_eq!(e.message(), "not more than 4294967295 categories supported");
}

#[test]
fn default_mapping_is_empty_local() {
    let rev = RevMapping::default();
    assert_eq!(rev.len(), 0);
    assert!(!rev.is_global());
    assert_eq!(rev.find("foo"), None);
}
