use chronicle_storage::bloom::{fnv1a, BloomFilter, FIRST_SEED, MIN_BITS, SECOND_SEED};

fn with_rate(expected_items: usize, false_positive_rate: f64) -> BloomFilter {
    let ln_2 = std::f64::consts::LN_2;
    let n = expected_items.max(1) as f64;
    let p = false_positive_rate.clamp(1e-6, 0.5);
    let m = (-n * p.ln() / ln_2.powi(2)).ceil() as usize;
    let m = m.max(MIN_BITS);
    let k = ((m as f64 / n) * ln_2).round().max(1.0) as u32;
    BloomFilter::with_size(m, k)
}

#[test]
fn no_false_negatives() {
    let mut bf = with_rate(1000, 0.01);
    let keys: Vec<Vec<u8>> = (0..1000).map(|i| format!("key-{i}").into_bytes()).collect();
    for k in &keys {
        bf.insert(k);
    }
    for k in &keys {
        assert!(bf.contains(k), "false negative for {:?}", String::from_utf8_lossy(k));
    }
}

#[test]
fn false_positive_rate_is_roughly_bounded() {
    let mut bf = with_rate(1000, 0.01);
    for i in 0..1000 {
        bf.insert(format!("present-{i}").as_bytes());
    }
    let mut false_positives = 0;
    let trials = 5000;
    for i in 0..trials {
        if bf.contains(format!("absent-{i}").as_bytes()) {
            false_positives += 1;
        }
    }
    let rate = false_positives as f64 / trials as f64;
    // Generous bound: sized for 1%, allow up to 5% in practice for a
    // small, deterministic hash-based filter.
    assert!(rate < 0.05, "false positive rate too high: {rate}");
}

#[test]
fn serialize_roundtrip_preserves_membership() {
    let mut bf = with_rate(100, 0.01);
    bf.insert(b"hello");
    bf.insert(b"world");
    let bytes = bf.serialize();
    let bf2 = BloomFilter::deserialize(&bytes).unwrap();
    assert!(bf2.contains(b"hello"));
    assert!(bf2.contains(b"world"));
    assert_eq!(bf2.serialize(), bytes);
}

#[test]
fn fnv1a_known_values() {
    assert_eq!(fnv1a(b"", FIRST_SEED), 0xcbf29ce484222325);
    assert_eq!(fnv1a(b"a", FIRST_SEED), 0xaf63dc4c8601ec8c);
    assert_eq!(fnv1a(b"foobar", FIRST_SEED), 0x85944171f73967e8);
    assert_eq!(fnv1a(b"foobar", SECOND_SEED), 0x1af21521be519bf9);
}

#[test]
fn second_hash_is_made_odd() {
    assert_eq!(BloomFilter::hashes(b""), (0xcbf29ce484222325, 0x84222325cbf29ce5));
    assert_eq!(BloomFilter::hashes(b"a"), (0xaf63dc4c8601ec8c, 0x789e3e398d3ff5ff));
}

#[test]
fn insert_sets_exactly_the_probed_bits() {
    let mut bf = BloomFilter::with_size(64, 4);
    bf.insert(b"hello");
    let mut expected = vec![64, 0, 0, 0, 4, 0, 0, 0];
    let word: u64 = (1 << 11) | (1 << 32) | (1 << 53) | (1 << 10);
    expected.extend_from_slice(&word.to_le_bytes());
    assert_eq!(bf.serialize(), expected);
    assert!(bf.contains(b"hello"));
    assert!(!bf.contains(b"world"));
}

#[test]
fn probes_reach_beyond_the_first_word() {
    let mut bf = BloomFilter::with_size(128, 4);
    bf.insert(b"hello");
    let mut expected = vec![128, 0, 0, 0, 4, 0, 0, 0];
    let low: u64 = (1 << 11) | (1 << 53) | (1 << 10);
    let high: u64 = 1 << (96 - 64);
    expected.extend_from_slice(&low.to_le_bytes());
    expected.extend_from_slice(&high.to_le_bytes());
    assert_eq!(bf.serialize(), expected);
}

#[test]
fn size_is_rounded_and_limited() {
    let header = |m: usize, k: u32| BloomFilter::with_size(m, k).serialize()[..8].to_vec();
    assert_eq!(header(0, 0), vec![64, 0, 0, 0, 1, 0, 0, 0]);
    assert_eq!(header(65, 7), vec![128, 0, 0, 0, 7, 0, 0, 0]);
    assert_eq!(header(128, 33), vec![128, 0, 0, 0, 32, 0, 0, 0]);
    assert_eq!(BloomFilter::with_size(65, 7).serialize().len(), 24);
}

#[test]
fn empty_filter_finds_nothing() {
    let bf = BloomFilter::with_size(1000, 3);
    for i in 0..100 {
        assert!(!bf.contains(format!("key-{i}").as_bytes()));
    }
}

#[test]
fn deserialize_rejects_wrong_lengths() {
    assert!(BloomFilter::deserialize(&[]).is_none());
    assert!(BloomFilter::deserialize(&[0; 7]).is_none());
    assert!(BloomFilter::deserialize(&[0; 9]).is_none());
    assert!(BloomFilter::deserialize(&[0; 15]).is_none());
    assert!(BloomFilter::deserialize(&[0; 8]).is_some());
    assert!(BloomFilter::deserialize(&[0; 16]).is_some());
}

#[test]
fn deserialize_leaves_sizes_unchecked() {
    // 256 bits announced, one word there.
    let mut data = vec![0, 1, 0, 0, 1, 0, 0, 0];
    data.extend_from_slice(&[0xff; 8]);
    let bf = BloomFilter::deserialize(&data).unwrap();
    assert!(!bf.is_well_formed());
    assert_eq!(bf.serialize(), data);

    let mut small = vec![64, 0, 0, 0, 1, 0, 0, 0];
    small.extend_from_slice(&[0xff; 8]);
    let bf = BloomFilter::deserialize(&small).unwrap();
    assert!(bf.is_well_formed());
    assert!(bf.contains(b"anything"));

    let none = BloomFilter::deserialize(&[0; 8]).unwrap();
    assert!(!none.is_well_formed());
    // Without probes every key counts as found.
    assert!(none.contains(b"anything"));
}

#[test]
fn clone_is_independent() {
    let mut bf = BloomFilter::with_size(64, 2);
    let before = bf.clone();
    bf.insert(b"k");
    assert!(bf.contains(b"k"));
    assert!(!before.contains(b"k"));
}
