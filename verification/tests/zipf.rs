//! Tests of the Zipfian builder: skew of the empirical frequencies, key
//! ranges, and validation of the cumulative weight table.

use relgen::{seed_generator, Error, Relation};

/// Cumulative weight table of the Zipfian law with skew `s` over the
/// alphabet `[1, max_id]`, scaled to integers.
fn zipf_cdf(max_id: usize, s: f64) -> Vec<u64> {
    let mut cum = Vec::new();
    let mut acc = 0.0f64;
    for k in 1..=max_id {
        acc += 1.0 / (k as f64).powf(s);
        cum.push(acc);
    }
    let total = acc;
    let scale = (1u64 << 40) as f64;
    let mut cdf = Vec::new();
    let mut prev = 0u64;
    for c in cum {
        let mut v = ((c / total) * scale) as u64;
        if v < prev {
            v = prev;
        }
        cdf.push(v);
        prev = v;
    }
    cdf
}

#[test]
fn zipf_rank_frequencies_are_skewed() {
    let cdf = zipf_cdf(1000, 1.0);
    for seed in [7u32, 8, 9] {
        let mut rng = seed_generator(seed);
        let r = Relation::new_zipf(100_000, &cdf, &mut rng).unwrap();
        let mut counts = vec![0usize; 1001];
        let mut i = 0;
        while i < r.len() {
            let k = r.get(i).key as usize;
            assert!(1 <= k && k <= 1000);
            counts[k] += 1;
            i += 1;
        }
        // Rank 1 is about twice as frequent as rank 2, which is about 1.5
        // times rank 3; with 100 000 draws the gaps dwarf sampling noise.
        assert!(counts[1] > counts[2]);
        assert!(counts[2] > counts[3]);
        assert!(counts[3] > counts[4]);
    }
}

#[test]
fn zipf_single_rank_alphabet() {
    let cdf = vec![5u64];
    let mut rng = seed_generator(1);
    let r = Relation::new_zipf(50, &cdf, &mut rng).unwrap();
    let mut i = 0;
    while i < r.len() {
        assert_eq!(r.get(i).key, 1);
        i += 1;
    }
}

#[test]
fn zipf_keys_in_alphabet() {
    let cdf = zipf_cdf(32, 0.5);
    let mut rng = seed_generator(2);
    let r = Relation::new_zipf(5000, &cdf, &mut rng).unwrap();
    let mut i = 0;
    while i < r.len() {
        let k = r.get(i).key;
        assert!(1 <= k && k <= 32);
        i += 1;
    }
}

#[test]
fn zipf_bad_inputs_are_invalid() {
    let cdf = zipf_cdf(10, 1.0);
    let mut rng = seed_generator(3);
    // no tuples requested
    assert_eq!(
        Relation::new_zipf(0, &cdf, &mut rng).unwrap_err(),
        Error::InvalidParameter
    );
    // empty alphabet
    let empty: Vec<u64> = Vec::new();
    assert_eq!(
        Relation::new_zipf(10, &empty, &mut rng).unwrap_err(),
        Error::InvalidParameter
    );
    // no probability mass at all
    let zeroed = vec![0u64, 0, 0];
    assert_eq!(
        Relation::new_zipf(10, &zeroed, &mut rng).unwrap_err(),
        Error::InvalidParameter
    );
    // a decreasing table is no cumulative distribution
    let decreasing = vec![5u64, 3, 8];
    assert_eq!(
        Relation::new_zipf(10, &decreasing, &mut rng).unwrap_err(),
        Error::InvalidParameter
    );
}

#[test]
fn zipf_reproduces_with_same_seed() {
    let cdf = zipf_cdf(100, 1.0);
    let mut a = seed_generator(21);
    let mut b = seed_generator(21);
    let ra = Relation::new_zipf(2000, &cdf, &mut a).unwrap();
    let rb = Relation::new_zipf(2000, &cdf, &mut b).unwrap();
    let mut i = 0;
    while i < ra.len() {
        assert_eq!(ra.get(i).key, rb.get(i).key);
        i += 1;
    }
}
