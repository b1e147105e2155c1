//! Determinism of the builders: identical seeds and parameters give
//! byte-identical tuple sequences; different seeds diverge. Also exact
//! values of the partition arithmetic and the random source.

use relgen::partition::part_start;
use relgen::{seed_generator, BuildMode, Relation};

fn tuples(r: &Relation) -> Vec<(u64, u64)> {
    let mut out = Vec::new();
    let mut i = 0;
    while i < r.len() {
        let t = r.get(i);
        out.push((t.key, t.payload));
        i += 1;
    }
    out
}

#[test]
fn sequential_builds_reproduce_with_same_seed() {
    let mut a = seed_generator(1234);
    let mut b = seed_generator(1234);
    let pk_a = Relation::new_pk(500, BuildMode::Sequential, &mut a).unwrap();
    let pk_b = Relation::new_pk(500, BuildMode::Sequential, &mut b).unwrap();
    assert_eq!(tuples(&pk_a), tuples(&pk_b));

    let fk_a = Relation::new_fk(300, 30, BuildMode::Sequential, &mut a).unwrap();
    let fk_b = Relation::new_fk(300, 30, BuildMode::Sequential, &mut b).unwrap();
    assert_eq!(tuples(&fk_a), tuples(&fk_b));

    let nu_a = Relation::new_nonunique(200, 40, &mut a).unwrap();
    let nu_b = Relation::new_nonunique(200, 40, &mut b).unwrap();
    assert_eq!(tuples(&nu_a), tuples(&nu_b));

    let ref_a = Relation::new_fk_from_pk(&pk_a, 250, &mut a).unwrap();
    let ref_b = Relation::new_fk_from_pk(&pk_b, 250, &mut b).unwrap();
    assert_eq!(tuples(&ref_a), tuples(&ref_b));
}

#[test]
fn parallel_builds_reproduce_with_same_seed_and_workers() {
    let mut a = seed_generator(77);
    let mut b = seed_generator(77);
    let pk_a = Relation::new_pk(1000, BuildMode::Parallel(4), &mut a).unwrap();
    let pk_b = Relation::new_pk(1000, BuildMode::Parallel(4), &mut b).unwrap();
    assert_eq!(tuples(&pk_a), tuples(&pk_b));

    let fk_a = Relation::new_fk(1000, 25, BuildMode::Parallel(4), &mut a).unwrap();
    let fk_b = Relation::new_fk(1000, 25, BuildMode::Parallel(4), &mut b).unwrap();
    assert_eq!(tuples(&fk_a), tuples(&fk_b));
}

#[test]
fn different_seeds_diverge() {
    let mut a = seed_generator(1);
    let mut b = seed_generator(2);
    let pk_a = Relation::new_pk(1000, BuildMode::Sequential, &mut a).unwrap();
    let pk_b = Relation::new_pk(1000, BuildMode::Sequential, &mut b).unwrap();
    assert_ne!(tuples(&pk_a), tuples(&pk_b));
}

#[test]
fn generator_stream_reproduces() {
    let mut a = seed_generator(5);
    let mut b = seed_generator(5);
    for _ in 0..64 {
        assert_eq!(a.next_u64(), b.next_u64());
    }
    let mut c = seed_generator(6);
    assert_ne!(a.next_u64(), c.next_u64());
}

#[test]
fn below_stays_in_range() {
    let mut a = seed_generator(5);
    for n in 1..=100u64 {
        let v = a.below(n);
        assert!(v < n);
    }
}

#[test]
fn substates_differ_per_worker() {
    let a = seed_generator(5);
    let w0 = a.substate(0);
    let w1 = a.substate(1);
    let mut w0 = w0;
    let mut w1 = w1;
    assert_ne!(w0.next_u64(), w1.next_u64());
}

#[test]
fn partition_bounds_exact_values() {
    // len 10 over 4 workers: sizes 3, 3, 2, 2, front-loaded remainder.
    assert_eq!(part_start(10, 4, 0), 0);
    assert_eq!(part_start(10, 4, 1), 3);
    assert_eq!(part_start(10, 4, 2), 6);
    assert_eq!(part_start(10, 4, 3), 8);
    assert_eq!(part_start(10, 4, 4), 10);
    // an empty relation: every range is empty.
    for w in 0..=3u32 {
        assert_eq!(part_start(0, 3, w), 0);
    }
    // more workers than slots: the trailing ranges are empty.
    assert_eq!(part_start(2, 5, 0), 0);
    assert_eq!(part_start(2, 5, 1), 1);
    assert_eq!(part_start(2, 5, 2), 2);
    assert_eq!(part_start(2, 5, 3), 2);
    assert_eq!(part_start(2, 5, 5), 2);
}
