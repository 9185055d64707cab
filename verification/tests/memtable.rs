use chronicle_storage::memtable::{order_keys, KeyOrder, MemTable};
use chronicle_storage::MemValue;

#[test]
fn put_then_get() {
    let mut mt = MemTable::new();
    mt.put(b"k1".to_vec(), b"v1".to_vec(), 1);
    let got = mt.get(b"k1").unwrap();
    assert_eq!(got.value, Some(b"v1".to_vec()));
    assert_eq!(got.seq, 1);
}

#[test]
fn newer_seq_overwrites() {
    let mut mt = MemTable::new();
    mt.put(b"k1".to_vec(), b"v1".to_vec(), 1);
    mt.put(b"k1".to_vec(), b"v2".to_vec(), 2);
    let got = mt.get(b"k1").unwrap();
    assert_eq!(got.value, Some(b"v2".to_vec()));
    assert_eq!(got.seq, 2);
    assert_eq!(mt.len(), 1);
}

#[test]
fn delete_creates_tombstone() {
    let mut mt = MemTable::new();
    mt.put(b"k1".to_vec(), b"v1".to_vec(), 1);
    mt.delete(b"k1".to_vec(), 2);
    let got = mt.get(b"k1").unwrap();
    assert_eq!(got.value, None);
    assert_eq!(got.seq, 2);
}

#[test]
fn missing_key_is_none() {
    let mt = MemTable::new();
    assert!(mt.get(b"missing").is_none());
}

#[test]
fn size_bytes_tracks_growth_and_overwrite() {
    let mut mt = MemTable::new();
    mt.put(b"k1".to_vec(), b"v1".to_vec(), 1);
    let s1 = mt.size_bytes();
    assert!(s1 > 0);
    mt.put(b"k1".to_vec(), b"v1_longer_value".to_vec(), 2);
    let s2 = mt.size_bytes();
    assert!(s2 > s1);
}

#[test]
fn snapshot_is_sorted() {
    let mut mt = MemTable::new();
    mt.put(b"c".to_vec(), b"3".to_vec(), 1);
    mt.put(b"a".to_vec(), b"1".to_vec(), 2);
    mt.put(b"b".to_vec(), b"2".to_vec(), 3);
    let snap = mt.snapshot();
    let keys: Vec<_> = snap.iter().map(|(k, _)| k.clone()).collect();
    assert_eq!(keys, vec![b"a".to_vec(), b"b".to_vec(), b"c".to_vec()]);
}

#[test]
fn size_bytes_exact_values() {
    let mut mt = MemTable::default();
    assert_eq!(mt.size_bytes(), 0);
    mt.put(b"k1".to_vec(), b"v1".to_vec(), 1);
    assert_eq!(mt.size_bytes(), 2 + 2 + 16);
    mt.put(b"key".to_vec(), b"value".to_vec(), 2);
    assert_eq!(mt.size_bytes(), 20 + 3 + 5 + 16);
    mt.delete(b"key".to_vec(), 3);
    assert_eq!(mt.size_bytes(), 20 + 3 + 16);
    mt.delete(b"absent".to_vec(), 4);
    assert_eq!(mt.size_bytes(), 39 + 6 + 16);
    assert_eq!(mt.len(), 3);
}

#[test]
fn last_write_wins_whatever_its_sequence_number() {
    let mut mt = MemTable::new();
    mt.put(b"k".to_vec(), b"new".to_vec(), 9);
    mt.put(b"k".to_vec(), b"old".to_vec(), 3);
    let got = mt.get(b"k").unwrap();
    assert_eq!(got, MemValue { value: Some(b"old".to_vec()), seq: 3 });
}

#[test]
fn other_keys_keep_their_slots() {
    let mut mt = MemTable::new();
    for i in 0..50u64 {
        let key = format!("key-{}", (i * 37) % 50).into_bytes();
        mt.put(key, i.to_le_bytes().to_vec(), i);
    }
    mt.delete(b"key-7".to_vec(), 99);
    assert_eq!(mt.len(), 50);
    for i in 0..50u64 {
        let name = (i * 37) % 50;
        let got = mt.get(format!("key-{name}").as_bytes()).unwrap();
        if name == 7 {
            assert_eq!(got, MemValue { value: None, seq: 99 });
        } else {
            assert_eq!(got.value, Some(i.to_le_bytes().to_vec()));
            assert_eq!(got.seq, i);
        }
    }
    let snap = mt.snapshot();
    for pair in snap.windows(2) {
        assert!(pair[0].0 < pair[1].0);
    }
}

#[test]
fn empty_table_and_empty_key() {
    let mut mt = MemTable::new();
    assert!(mt.is_empty());
    assert_eq!(mt.len(), 0);
    assert!(mt.snapshot().is_empty());
    mt.put(Vec::new(), Vec::new(), 0);
    assert!(!mt.is_empty());
    assert_eq!(mt.size_bytes(), 16);
    assert_eq!(mt.get(b"").unwrap().value, Some(Vec::new()));
}

#[test]
fn keys_are_ordered_by_bytes() {
    assert_eq!(order_keys(b"", b""), KeyOrder::Equal);
    assert_eq!(order_keys(b"", b"a"), KeyOrder::Less);
    assert_eq!(order_keys(b"ab", b"a"), KeyOrder::Greater);
    assert_eq!(order_keys(b"ab", b"b"), KeyOrder::Less);
    assert_eq!(order_keys(&[0x7f], &[0x80]), KeyOrder::Less);
    assert_eq!(order_keys(b"abc", b"abc"), KeyOrder::Equal);
}
