use inoxset::bloom::BloomFilter;

/// Bits and hash functions of a Bloom filter for `n` items at a rate of
/// false positives of `fpr`.
fn optimal_params(n: usize, fpr: f64) -> (usize, usize) {
    let n = n.max(1) as f64;
    let p = fpr.clamp(f64::MIN_POSITIVE, 1.0 - f64::EPSILON);
    let ln2 = std::f64::consts::LN_2;
    let m = (-n * p.ln() / (ln2 * ln2)).ceil() as usize;
    let m = m.max(64);
    let k = ((m as f64 / n) * ln2).round() as usize;
    (m, k.max(1))
}

fn with_capacity(capacity: usize, fpr: f64) -> BloomFilter {
    let (bits, hashes) = optimal_params(capacity, fpr);
    BloomFilter::with_params(bits, hashes)
}

#[test]
fn bloom_insert_and_test() {
    let mut bf = with_capacity(100, 0.01);
    bf.insert(b"hello");
    bf.insert(b"world");

    assert!(bf.test(b"hello"), "hello must be present");
    assert!(bf.test(b"world"), "world must be present");
    assert!(!bf.test(b"absent_key"), "absent_key must not be present");
}

#[test]
fn bloom_from_iter() {
    let items: Vec<Vec<u8>> = vec![b"a".to_vec(), b"b".to_vec(), b"c".to_vec()];
    let (bits, hashes) = optimal_params(10, 0.01);
    let bf = BloomFilter::from_iter(bits, hashes, &items);

    assert!(bf.test(b"a"));
    assert!(bf.test(b"b"));
    assert!(bf.test(b"c"));
    // "d" was never inserted — must not be a false positive here
    // (with k≥1 and a well-sized filter it almost certainly won't be)
    let _ = bf.test(b"d"); // no assertion; probabilistic result accepted
}

#[test]
fn bloom_fpr_within_bounds() {
    const N: usize = 10_000;
    const TARGET_FPR: f64 = 0.01;

    let mut bf = with_capacity(N, TARGET_FPR);
    for i in 0..N {
        bf.insert(format!("item_{i}").as_bytes());
    }

    let mut false_positives = 0usize;
    for i in N..(2 * N) {
        if bf.test(format!("item_{i}").as_bytes()) {
            false_positives += 1;
        }
    }

    let measured = false_positives as f64 / N as f64;
    assert!(
        measured < TARGET_FPR * 3.0,
        "FPR {measured:.4} exceeded 3× target {TARGET_FPR}"
    );
}

#[test]
fn bloom_zero_false_negatives() {
    const N: usize = 10_000;

    let mut bf = with_capacity(N, 0.01);
    for i in 0..N {
        bf.insert(format!("key_{i}").as_bytes());
    }

    for i in 0..N {
        assert!(
            bf.test(format!("key_{i}").as_bytes()),
            "false negative for key_{i}"
        );
    }
}
