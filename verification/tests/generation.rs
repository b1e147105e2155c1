//! End-to-end tests of the relation builders: key-set correctness, block
//! multiplicity, referential integrity, determinism, and input validation.

use relgen::{seed_generator, BuildMode, Error, Relation};

fn sorted_keys(r: &Relation) -> Vec<u64> {
    let mut keys = Vec::new();
    let mut i = 0;
    while i < r.len() {
        keys.push(r.get(i).key);
        i += 1;
    }
    keys.sort();
    keys
}

fn raw_keys(r: &Relation) -> Vec<u64> {
    let mut keys = Vec::new();
    let mut i = 0;
    while i < r.len() {
        keys.push(r.get(i).key);
        i += 1;
    }
    keys
}

#[test]
fn pk_sequential_keys_unique_complete() {
    for len in [1usize, 10, 10_000] {
        let mut rng = seed_generator(42);
        let r = Relation::new_pk(len, BuildMode::Sequential, &mut rng).unwrap();
        assert_eq!(r.len(), len);
        let keys = sorted_keys(&r);
        for (i, k) in keys.iter().enumerate() {
            assert_eq!(*k, (i + 1) as u64);
        }
    }
}

#[test]
fn pk_len_zero_is_invalid() {
    let mut rng = seed_generator(42);
    let e = Relation::new_pk(0, BuildMode::Sequential, &mut rng).unwrap_err();
    assert_eq!(e, Error::InvalidParameter);
}

#[test]
fn pk_sequential_not_trivially_sorted() {
    let mut rng = seed_generator(42);
    let r = Relation::new_pk(10_000, BuildMode::Sequential, &mut rng).unwrap();
    let keys = raw_keys(&r);
    let mut sorted = keys.clone();
    sorted.sort();
    assert_ne!(keys, sorted);
}

#[test]
fn pk_parallel_keys_unique_complete() {
    for n in [1u32, 3, 4, 7] {
        for len in [1usize, 3, 4, 5, 10_000] {
            let mut rng = seed_generator(99);
            let r = Relation::new_pk(len, BuildMode::Parallel(n), &mut rng).unwrap();
            assert_eq!(r.len(), len);
            let keys = sorted_keys(&r);
            for (i, k) in keys.iter().enumerate() {
                assert_eq!(*k, (i + 1) as u64);
            }
        }
    }
}

#[test]
fn pk_parallel_zero_workers_is_invalid() {
    let mut rng = seed_generator(42);
    let e = Relation::new_pk(10, BuildMode::Parallel(0), &mut rng).unwrap_err();
    assert_eq!(e, Error::InvalidParameter);
}

#[test]
fn pk_parallel_len_zero_is_invalid() {
    let mut rng = seed_generator(42);
    let e = Relation::new_pk(0, BuildMode::Parallel(4), &mut rng).unwrap_err();
    assert_eq!(e, Error::InvalidParameter);
}

#[test]
fn fk_exact_block_multiplicity() {
    let mut rng = seed_generator(7);
    let r = Relation::new_fk(30, 10, BuildMode::Sequential, &mut rng).unwrap();
    assert_eq!(r.len(), 30);
    let mut counts = [0usize; 11];
    for k in raw_keys(&r) {
        assert!(1 <= k && k <= 10);
        counts[k as usize] += 1;
    }
    for key in 1..=10usize {
        assert_eq!(counts[key], 3);
    }
}

#[test]
fn fk_nondivisible_keys_in_range() {
    let mut rng = seed_generator(7);
    let r = Relation::new_fk(25, 10, BuildMode::Sequential, &mut rng).unwrap();
    assert_eq!(r.len(), 25);
    for k in raw_keys(&r) {
        assert!(1 <= k && k <= 10);
    }
}

#[test]
fn fk_parallel_keys_in_range() {
    let mut rng = seed_generator(7);
    let r = Relation::new_fk(100, 10, BuildMode::Parallel(3), &mut rng).unwrap();
    assert_eq!(r.len(), 100);
    for k in raw_keys(&r) {
        assert!(1 <= k && k <= 10);
    }
}

#[test]
fn fk_bad_inputs_are_invalid() {
    let mut rng = seed_generator(7);
    assert_eq!(
        Relation::new_fk(0, 10, BuildMode::Sequential, &mut rng).unwrap_err(),
        Error::InvalidParameter
    );
    assert_eq!(
        Relation::new_fk(10, 0, BuildMode::Sequential, &mut rng).unwrap_err(),
        Error::InvalidParameter
    );
    assert_eq!(
        Relation::new_fk(10, 5, BuildMode::Parallel(0), &mut rng).unwrap_err(),
        Error::InvalidParameter
    );
}

#[test]
fn fk_from_pk_referential_integrity() {
    let mut rng = seed_generator(11);
    let pk = Relation::new_pk(100, BuildMode::Sequential, &mut rng).unwrap();
    let fk = Relation::new_fk_from_pk(&pk, 1000, &mut rng).unwrap();
    assert_eq!(fk.len(), 1000);
    let pk_keys = sorted_keys(&pk);
    for k in raw_keys(&fk) {
        assert!(pk_keys.binary_search(&k).is_ok());
    }
}

#[test]
fn fk_from_pk_single_key() {
    let mut rng = seed_generator(11);
    let pk = Relation::new_pk(1, BuildMode::Sequential, &mut rng).unwrap();
    assert_eq!(pk.get(0).key, 1);
    let fk = Relation::new_fk_from_pk(&pk, 17, &mut rng).unwrap();
    for k in raw_keys(&fk) {
        assert_eq!(k, 1);
    }
}

#[test]
fn fk_from_pk_len_zero_is_invalid() {
    let mut rng = seed_generator(11);
    let pk = Relation::new_pk(5, BuildMode::Sequential, &mut rng).unwrap();
    assert_eq!(
        Relation::new_fk_from_pk(&pk, 0, &mut rng).unwrap_err(),
        Error::InvalidParameter
    );
}

#[test]
fn nonunique_keys_in_range() {
    let mut rng = seed_generator(3);
    let r = Relation::new_nonunique(1000, 5, &mut rng).unwrap();
    assert_eq!(r.len(), 1000);
    for t in raw_keys(&r) {
        assert!(t <= 5);
    }
}

#[test]
fn nonunique_bad_inputs_are_invalid() {
    let mut rng = seed_generator(3);
    assert_eq!(
        Relation::new_nonunique(0, 10, &mut rng).unwrap_err(),
        Error::InvalidParameter
    );
    assert_eq!(
        Relation::new_nonunique(10, 0, &mut rng).unwrap_err(),
        Error::InvalidParameter
    );
}

#[test]
fn oversized_request_is_allocation_failure() {
    let mut rng = seed_generator(3);
    assert_eq!(
        Relation::new_nonunique(usize::MAX, 10, &mut rng).unwrap_err(),
        Error::AllocationFailure
    );
    assert_eq!(
        Relation::new_pk(usize::MAX, BuildMode::Sequential, &mut rng).unwrap_err(),
        Error::AllocationFailure
    );
}

#[test]
fn payload_equals_key() {
    let mut rng = seed_generator(5);
    let r = Relation::new_pk(64, BuildMode::Sequential, &mut rng).unwrap();
    let mut i = 0;
    while i < r.len() {
        let t = r.get(i);
        assert_eq!(t.payload, t.key);
        i += 1;
    }
}

#[test]
fn relation_is_released_on_scope_exit() {
    // Exactly-once release is structural: the handle owns its buffer, there
    // is no operation that frees it early, and scope exit drops it once.
    for _ in 0..100 {
        let mut rng = seed_generator(5);
        let r = Relation::new_pk(1000, BuildMode::Sequential, &mut rng).unwrap();
        assert_eq!(r.len(), 1000);
    }
}
