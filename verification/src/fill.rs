//! Fill routines: each writes one distribution into a contiguous index range
//! of a tuple buffer, leaving every slot outside that range untouched.
//!
//! Every routine has an exact functional contract: the filled buffer and the
//! final generator state are stated as functions of the starting buffer, the
//! starting state and the parameters. Determinism of the whole library rests
//! on these mirrors. The frame conditions (only the assigned range is
//! written) are what makes the partitioned, multi-worker build race-free by
//! construction.

use crate::relation::{id_tuples, idt, Tuple};
use crate::rng::{mix, next_state, spec_below, Rng};
use vstd::prelude::*;

verus! {

/// `s` with positions `[lo, lo + run.len())` replaced by `run`.
pub open spec fn with_run(s: Seq<Tuple>, lo: int, run: Seq<Tuple>) -> Seq<Tuple>
    recommends
        0 <= lo,
        lo + run.len() <= s.len(),
{
    Seq::new(
        s.len(),
        |k: int|
            if lo <= k < lo + run.len() {
                run[k - lo]
            } else {
                s[k]
            },
    )
}

/// The generator state after `n` draws from state `st`.
pub open spec fn iter_state(st: u64, n: nat) -> u64
    decreases n,
{
    if n == 0 {
        st
    } else {
        iter_state(next_state(st), (n - 1) as nat)
    }
}

/// The key drawn uniformly from `[key_lo, key_hi]` by one draw from `st`.
pub open spec fn spec_uniform_key(st: u64, key_lo: u64, key_hi: u64) -> u64
    recommends
        key_lo <= key_hi,
{
    (key_lo + mix(next_state(st)) as int % (key_hi - key_lo + 1)) as u64
}

/// The tuples drawn by `n` independent uniform draws from `[key_lo, key_hi]`,
/// starting at state `st`.
pub open spec fn spec_uniform_run(st: u64, n: nat, key_lo: u64, key_hi: u64) -> Seq<Tuple>
    recommends
        key_lo <= key_hi,
    decreases n,
{
    if n == 0 {
        Seq::empty()
    } else {
        seq![idt(spec_uniform_key(st, key_lo, key_hi))] + spec_uniform_run(
            next_state(st),
            (n - 1) as nat,
            key_lo,
            key_hi,
        )
    }
}

/// Each element of a uniform run is the key drawn by the corresponding step,
/// and lies within `[key_lo, key_hi]`.
pub proof fn lemma_uniform_run_index(st: u64, n: nat, key_lo: u64, key_hi: u64)
    requires
        key_lo <= key_hi,
    ensures
        spec_uniform_run(st, n, key_lo, key_hi).len() == n,
        forall|m: int|
            0 <= m < n ==> #[trigger] spec_uniform_run(st, n, key_lo, key_hi)[m] == idt(
                spec_uniform_key(iter_state(st, m as nat), key_lo, key_hi),
            ),
        forall|m: int|
            0 <= m < n ==> key_lo <= #[trigger] spec_uniform_run(st, n, key_lo, key_hi)[m].key
                <= key_hi,
    decreases n,
{
    if n > 0 {
        lemma_uniform_run_index(next_state(st), (n - 1) as nat, key_lo, key_hi);
        assert forall|m: int| 0 <= m < n implies #[trigger] spec_uniform_run(st, n, key_lo, key_hi)[m]
            == idt(spec_uniform_key(iter_state(st, m as nat), key_lo, key_hi)) by {
            if m > 0 {
                assert(spec_uniform_run(st, n, key_lo, key_hi)[m] == spec_uniform_run(
                    next_state(st),
                    (n - 1) as nat,
                    key_lo,
                    key_hi,
                )[m - 1]);
            }
        }
        assert forall|m: int| 0 <= m < n implies key_lo <= #[trigger] spec_uniform_run(
            st,
            n,
            key_lo,
            key_hi,
        )[m].key <= key_hi by {
            let sm = iter_state(st, m as nat);
            assert(0 <= mix(next_state(sm)) as int % (key_hi - key_lo + 1) <= key_hi - key_lo);
        }
    }
}

/// Returns a buffer of `len` zeroed tuples.
pub fn alloc_tuples(len: usize) -> (v: Vec<Tuple>)
    ensures
        v@.len() == len,
        forall|k: int| 0 <= k < len ==> v@[k] == (Tuple { key: 0, payload: 0 }),
{
    let mut v: Vec<Tuple> = Vec::new();
    while v.len() < len
        invariant
            v@.len() <= len,
            forall|k: int| 0 <= k < v@.len() ==> v@[k] == (Tuple { key: 0, payload: 0 }),
        decreases len - v@.len(),
    {
        v.push(Tuple { key: 0, payload: 0 });
    }
    v
}

/// Fills positions `[lo, hi)` with independent uniform draws from
/// `[key_lo, key_hi]`.
pub fn fill_uniform_range(buf: &mut Vec<Tuple>, lo: usize, hi: usize, key_lo: u64, key_hi: u64, rng: &mut Rng)
    requires
        lo <= hi <= old(buf).len(),
        key_lo <= key_hi,
    ensures
        final(buf)@ == with_run(
            old(buf)@,
            lo as int,
            spec_uniform_run(old(rng).state, (hi - lo) as nat, key_lo, key_hi),
        ),
        final(buf)@.len() == old(buf).len(),
        final(rng).state == iter_state(old(rng).state, (hi - lo) as nat),
{
    proof {
        lemma_uniform_run_index(old(rng).state, (hi - lo) as nat, key_lo, key_hi);
    }
    let ghost run = spec_uniform_run(old(rng).state, (hi - lo) as nat, key_lo, key_hi);
    let span_minus_one: u64 = key_hi - key_lo;
    let mut i: usize = lo;
    while i < hi
        invariant
            lo <= i <= hi <= buf.len(),
            buf.len() == old(buf).len(),
            key_lo <= key_hi,
            span_minus_one == key_hi - key_lo,
            run == spec_uniform_run(old(rng).state, (hi - lo) as nat, key_lo, key_hi),
            run.len() == hi - lo,
            forall|m: int|
                0 <= m < hi - lo ==> #[trigger] run[m] == idt(
                    spec_uniform_key(iter_state(old(rng).state, m as nat), key_lo, key_hi),
                ),
            rng.state == iter_state(old(rng).state, (i - lo) as nat),
            buf@ == with_run(old(buf)@, lo as int, run.take(i - lo)),
        decreases hi - i,
    {
        let ghost pre_state = rng.state;
        let ghost pre_buf = buf@;
        let key: u64 = if span_minus_one == u64::MAX {
            rng.next_u64()
        } else {
            key_lo + rng.below(span_minus_one + 1)
        };
        proof {
            assert(key == spec_uniform_key(pre_state, key_lo, key_hi)) by {
                if span_minus_one == u64::MAX {
                    assert(mix(next_state(pre_state)) as int % (key_hi - key_lo + 1) == mix(
                        next_state(pre_state),
                    ) as int);
                }
            }
            assert(iter_state(old(rng).state, (i + 1 - lo) as nat) == next_state(
                iter_state(old(rng).state, (i - lo) as nat),
            )) by {
                lemma_iter_state_step(old(rng).state, (i - lo) as nat);
            }
        }
        buf.set(i, Tuple { key, payload: key });
        proof {
            assert(buf@ == with_run(old(buf)@, lo as int, run.take(i + 1 - lo))) by {
                assert(run.take(i + 1 - lo)[i - lo] == run[i - lo]);
                assert(buf@ =~= with_run(old(buf)@, lo as int, run.take(i + 1 - lo)));
            }
        }
        i = i + 1;
    }
    proof {
        assert(run.take(hi - lo) =~= run);
    }
}

/// `s` with the tuples at `i` and `j` exchanged.
pub open spec fn spec_swap(s: Seq<Tuple>, i: int, j: int) -> Seq<Tuple>
    recommends
        0 <= i < s.len(),
        0 <= j < s.len(),
{
    s.update(i, s[j]).update(j, s[i])
}

/// The Fisher–Yates shuffle of positions `lo..=i` of `s`, drawing from state
/// `st`: position `i` is swapped with a position drawn from `[lo, i]`, then
/// the shuffle continues at `i - 1`.
pub open spec fn spec_shuffle(s: Seq<Tuple>, st: u64, lo: int, i: int) -> (Seq<Tuple>, u64)
    recommends
        0 <= lo,
        i < s.len(),
        i - lo < u64::MAX,
    decreases i - lo,
{
    if i <= lo {
        (s, st)
    } else {
        let j = lo + spec_below(st, (i - lo + 1) as u64) as int;
        spec_shuffle(spec_swap(s, i, j), next_state(st), lo, i - 1)
    }
}

/// The result of the permutation fill on `[lo, hi)`: consecutive keys
/// starting at `key_lo` written in order, then the range shuffled.
pub open spec fn spec_perm_fill(s: Seq<Tuple>, st: u64, lo: int, hi: int, key_lo: int) -> (Seq<
    Tuple,
>, u64)
    recommends
        0 <= lo <= hi <= s.len(),
        0 <= key_lo,
        key_lo + (hi - lo) <= u64::MAX as int + 1,
{
    spec_shuffle(with_run(s, lo, id_tuples(key_lo, (hi - lo) as nat)), st, lo, hi - 1)
}

/// A swap inside `[lo, hi)` changes nothing outside it and preserves the
/// multiset of tuples the range holds.
pub proof fn lemma_swap_frame(s: Seq<Tuple>, lo: int, hi: int, i: int, j: int)
    requires
        0 <= lo <= j <= i < hi <= s.len(),
    ensures
        spec_swap(s, i, j).len() == s.len(),
        forall|k: int| 0 <= k < s.len() && !(lo <= k < hi) ==> spec_swap(s, i, j)[k] == s[k],
        spec_swap(s, i, j).subrange(lo, hi).to_multiset() == s.subrange(lo, hi).to_multiset(),
{
    broadcast use vstd::seq_lib::group_to_multiset_ensures;
    broadcast use vstd::multiset::group_multiset_axioms;

    let sub = s.subrange(lo, hi);
    let a = i - lo;
    let b = j - lo;
    assert(spec_swap(s, i, j).subrange(lo, hi) =~= sub.update(a, sub[b]).update(b, sub[a]));
    let m0 = sub.to_multiset();
    let u1 = sub.update(a, sub[b]);
    let m1 = u1.to_multiset();
    let m2 = u1.update(b, sub[a]).to_multiset();
    assert(m1 == m0.insert(sub[b]).remove(sub[a]));
    assert(u1[b] == sub[b]);
    assert(m2 == m1.insert(sub[a]).remove(sub[b]));
    assert(sub.contains(sub[a])) by {
        assert(sub[a] == sub[a]);
    }
    assert(sub.contains(sub[b])) by {
        assert(sub[b] == sub[b]);
    }
    assert(m0.count(sub[a]) > 0);
    assert(m0.count(sub[b]) > 0);
    assert(m2 =~= m0) by {
        assert forall|x: Tuple| m2.count(x) == m0.count(x) by {
            assert(m1.count(x) == if x == sub[b] {
                m0.count(x) + 1
            } else {
                m0.count(x)
            } - if x == sub[a] {
                1int
            } else {
                0int
            });
        }
    }
}

/// The shuffle of `lo..=i` changes nothing outside `[lo, hi)` and preserves
/// the multiset of tuples that range holds.
pub proof fn lemma_shuffle_props(s: Seq<Tuple>, st: u64, lo: int, i: int, hi: int)
    requires
        0 <= lo <= hi <= s.len(),
        i < hi,
        hi - lo <= u64::MAX,
    ensures
        spec_shuffle(s, st, lo, i).0.len() == s.len(),
        forall|k: int|
            0 <= k < s.len() && !(lo <= k < hi) ==> #[trigger] spec_shuffle(s, st, lo, i).0[k]
                == s[k],
        spec_shuffle(s, st, lo, i).0.subrange(lo, hi).to_multiset() == s.subrange(
            lo,
            hi,
        ).to_multiset(),
    decreases i - lo,
{
    if i > lo {
        let n = (i - lo + 1) as u64;
        assert(0 <= (mix(next_state(st)) as int % (n as int)) && (mix(next_state(st)) as int % (
        n as int)) < n as int);
        let j = lo + spec_below(st, n) as int;
        lemma_swap_frame(s, lo, hi, i, j);
        lemma_shuffle_props(spec_swap(s, i, j), next_state(st), lo, i - 1, hi);
    }
}

/// Writes the consecutive keys `key_lo, key_lo + 1, ...` into positions
/// `[lo, hi)`, in order.
pub fn write_id_run(buf: &mut Vec<Tuple>, lo: usize, hi: usize, key_lo: u64)
    requires
        lo <= hi <= old(buf).len(),
        key_lo as int + (hi as int - lo as int) <= u64::MAX as int + 1,
    ensures
        final(buf)@ == with_run(old(buf)@, lo as int, id_tuples(key_lo as int, (hi - lo) as nat)),
        final(buf)@.len() == old(buf).len(),
{
    let mut i: usize = lo;
    while i < hi
        invariant
            lo <= i <= hi <= buf.len(),
            buf.len() == old(buf).len(),
            key_lo as int + (hi as int - lo as int) <= u64::MAX as int + 1,
            buf@ == with_run(old(buf)@, lo as int, id_tuples(key_lo as int, (i - lo) as nat)),
        decreases hi - i,
    {
        let key: u64 = key_lo + ((i - lo) as u64);
        buf.set(i, Tuple { key, payload: key });
        proof {
            assert(buf@ =~= with_run(
                old(buf)@,
                lo as int,
                id_tuples(key_lo as int, (i + 1 - lo) as nat),
            ));
        }
        i = i + 1;
    }
    proof {
        assert(buf@ =~= with_run(old(buf)@, lo as int, id_tuples(key_lo as int, (hi - lo) as nat)));
    }
}

/// Fisher–Yates shuffle of positions `[lo, hi)`.
pub fn shuffle_range(buf: &mut Vec<Tuple>, lo: usize, hi: usize, rng: &mut Rng)
    requires
        lo <= hi <= old(buf).len(),
    ensures
        final(buf)@ == spec_shuffle(old(buf)@, old(rng).state, lo as int, hi as int - 1).0,
        final(rng).state == spec_shuffle(old(buf)@, old(rng).state, lo as int, hi as int - 1).1,
{
    let mut i: usize = hi;
    while i - lo > 1
        invariant
            lo <= hi <= buf.len(),
            buf.len() == old(buf).len(),
            lo <= i <= hi,
            spec_shuffle(old(buf)@, old(rng).state, lo as int, hi as int - 1) == spec_shuffle(
                buf@,
                rng.state,
                lo as int,
                i as int - 1,
            ),
        decreases i,
    {
        i = i - 1;
        let ghost pre_buf = buf@;
        let ghost pre_st = rng.state;
        let n: u64 = (i - lo + 1) as u64;
        let joff = rng.below(n);
        let j: usize = lo + (joff as usize);
        let ti = buf[i];
        let tj = buf[j];
        buf.set(i, tj);
        buf.set(j, ti);
        proof {
            assert(j as int == lo as int + spec_below(pre_st, n) as int);
            assert(buf@ =~= spec_swap(pre_buf, i as int, j as int));
            assert(spec_shuffle(pre_buf, pre_st, lo as int, i as int) == spec_shuffle(
                spec_swap(pre_buf, i as int, lo as int + spec_below(pre_st, n) as int),
                next_state(pre_st),
                lo as int,
                i as int - 1,
            ));
        }
    }
}

/// Fills positions `[lo, hi)` with a uniformly shuffled permutation of the
/// consecutive keys `key_lo, ..., key_lo + (hi - lo) - 1`.
pub fn fill_perm_range(buf: &mut Vec<Tuple>, lo: usize, hi: usize, key_lo: u64, rng: &mut Rng)
    requires
        lo <= hi <= old(buf).len(),
        key_lo as int + (hi as int - lo as int) <= u64::MAX as int + 1,
    ensures
        final(buf)@ == spec_perm_fill(
            old(buf)@,
            old(rng).state,
            lo as int,
            hi as int,
            key_lo as int,
        ).0,
        final(rng).state == spec_perm_fill(
            old(buf)@,
            old(rng).state,
            lo as int,
            hi as int,
            key_lo as int,
        ).1,
        final(buf)@.len() == old(buf).len(),
        forall|k: int|
            0 <= k < old(buf).len() && !(lo <= k < hi) ==> #[trigger] final(buf)@[k] == old(
                buf,
            )@[k],
        final(buf)@.subrange(lo as int, hi as int).to_multiset() == id_tuples(
            key_lo as int,
            (hi - lo) as nat,
        ).to_multiset(),
{
    write_id_run(buf, lo, hi, key_lo);
    shuffle_range(buf, lo, hi, rng);
    proof {
        let s0 = old(buf)@;
        let w = with_run(s0, lo as int, id_tuples(key_lo as int, (hi - lo) as nat));
        lemma_shuffle_props(w, old(rng).state, lo as int, hi as int - 1, hi as int);
        assert(w.subrange(lo as int, hi as int) =~= id_tuples(key_lo as int, (hi - lo) as nat));
    }
}

/// The key picked uniformly from `keys` by one draw from `st`.
pub open spec fn spec_pick_key(st: u64, keys: Seq<u64>) -> u64
    recommends
        0 < keys.len() <= u64::MAX,
{
    keys[spec_below(st, keys.len() as u64) as int]
}

/// The tuples drawn by `n` independent uniform picks from `keys`, starting at
/// state `st`.
pub open spec fn spec_from_keys_run(st: u64, n: nat, keys: Seq<u64>) -> Seq<Tuple>
    recommends
        0 < keys.len() <= u64::MAX,
    decreases n,
{
    if n == 0 {
        Seq::empty()
    } else {
        seq![idt(spec_pick_key(st, keys))] + spec_from_keys_run(next_state(st), (n - 1) as nat, keys)
    }
}

/// Each element of a from-keys run is the pick of the corresponding step, and
/// its key is a member of `keys`.
pub proof fn lemma_from_keys_run_index(st: u64, n: nat, keys: Seq<u64>)
    requires
        0 < keys.len() <= u64::MAX,
    ensures
        spec_from_keys_run(st, n, keys).len() == n,
        forall|m: int|
            0 <= m < n ==> #[trigger] spec_from_keys_run(st, n, keys)[m] == idt(
                spec_pick_key(iter_state(st, m as nat), keys),
            ),
        forall|m: int|
            0 <= m < n ==> keys.contains(#[trigger] spec_from_keys_run(st, n, keys)[m].key),
    decreases n,
{
    if n > 0 {
        lemma_from_keys_run_index(next_state(st), (n - 1) as nat, keys);
        assert forall|m: int| 0 <= m < n implies #[trigger] spec_from_keys_run(st, n, keys)[m]
            == idt(spec_pick_key(iter_state(st, m as nat), keys)) by {
            if m > 0 {
                assert(spec_from_keys_run(st, n, keys)[m] == spec_from_keys_run(
                    next_state(st),
                    (n - 1) as nat,
                    keys,
                )[m - 1]);
            }
        }
        assert forall|m: int| 0 <= m < n implies keys.contains(
            #[trigger] spec_from_keys_run(st, n, keys)[m].key,
        ) by {
            let sm = iter_state(st, m as nat);
            let j = spec_below(sm, keys.len() as u64) as int;
            assert(0 <= (mix(next_state(sm)) as int % (keys.len() as int)) && (mix(
                next_state(sm),
            ) as int % (keys.len() as int)) < keys.len() as int);
            assert(keys[j] == spec_pick_key(sm, keys));
        }
    }
}

/// Fills positions `[lo, hi)` with keys picked uniformly from the key column
/// of `src`, guaranteeing that every written key occurs in `src`.
pub fn fill_from_keys_range(buf: &mut Vec<Tuple>, lo: usize, hi: usize, src: &Vec<Tuple>, rng: &mut Rng)
    requires
        lo <= hi <= old(buf).len(),
        src@.len() > 0,
    ensures
        final(buf)@ == with_run(
            old(buf)@,
            lo as int,
            spec_from_keys_run(old(rng).state, (hi - lo) as nat, crate::relation::keys_of(src@)),
        ),
        final(buf)@.len() == old(buf).len(),
        final(rng).state == iter_state(old(rng).state, (hi - lo) as nat),
{
    let ghost keys = crate::relation::keys_of(src@);
    proof {
        assert(src@.len() == src.len());
        assert(keys.len() == src@.len());
        lemma_from_keys_run_index(old(rng).state, (hi - lo) as nat, keys);
    }
    let ghost run = spec_from_keys_run(old(rng).state, (hi - lo) as nat, keys);
    let mut i: usize = lo;
    while i < hi
        invariant
            lo <= i <= hi <= buf.len(),
            buf.len() == old(buf).len(),
            0 < keys.len() <= u64::MAX,
            keys.len() == src@.len(),
            keys == crate::relation::keys_of(src@),
            run == spec_from_keys_run(old(rng).state, (hi - lo) as nat, keys),
            run.len() == hi - lo,
            forall|m: int|
                0 <= m < hi - lo ==> #[trigger] run[m] == idt(
                    spec_pick_key(iter_state(old(rng).state, m as nat), keys),
                ),
            rng.state == iter_state(old(rng).state, (i - lo) as nat),
            buf@ == with_run(old(buf)@, lo as int, run.take(i - lo)),
        decreases hi - i,
    {
        let ghost pre_state = rng.state;
        let idx64 = rng.below(src.len() as u64);
        let idx: usize = idx64 as usize;
        let key: u64 = src[idx].key;
        proof {
            assert(key == keys[idx as int]);
            assert(key == spec_pick_key(pre_state, keys));
            lemma_iter_state_step(old(rng).state, (i - lo) as nat);
        }
        buf.set(i, Tuple { key, payload: key });
        proof {
            assert(run.take(i + 1 - lo)[i - lo] == run[i - lo]);
            assert(buf@ =~= with_run(old(buf)@, lo as int, run.take(i + 1 - lo)));
        }
        i = i + 1;
    }
    proof {
        assert(run.take(hi - lo) =~= run);
    }
}

/// Whether `cdf` is non-decreasing.
pub open spec fn monotone(cdf: Seq<u64>) -> bool {
    forall|a: int, b: int| 0 <= a <= b < cdf.len() ==> cdf[a] <= cdf[b]
}

/// The first index of `cdf` whose entry exceeds `u`, or `cdf.len()` when
/// none does: with a cumulative weight table this is inverse-transform
/// sampling, picking the rank whose weight bracket contains `u`.
pub open spec fn spec_rank(cdf: Seq<u64>, u: u64) -> int
    decreases cdf.len(),
{
    if cdf.len() == 0 {
        0
    } else if u < cdf[0] {
        0
    } else {
        1 + spec_rank(cdf.drop_first(), u)
    }
}

/// `spec_rank` is the index `i` exactly when every entry before `i` is at
/// most `u` and the entry at `i` exceeds it.
pub proof fn lemma_rank_is_first(cdf: Seq<u64>, u: u64, i: int)
    requires
        0 <= i < cdf.len(),
        forall|j: int| 0 <= j < i ==> cdf[j] <= u,
        u < cdf[i],
    ensures
        spec_rank(cdf, u) == i,
    decreases i,
{
    if i > 0 {
        assert(cdf[0] <= u);
        assert(forall|j: int| 0 <= j < i - 1 ==> #[trigger] cdf.drop_first()[j] == cdf[j + 1]);
        lemma_rank_is_first(cdf.drop_first(), u, i - 1);
    }
}

/// With `u` below the last cumulative weight, the rank is a valid index.
pub proof fn lemma_rank_bounds(cdf: Seq<u64>, u: u64)
    requires
        cdf.len() > 0,
        u < cdf.last(),
    ensures
        0 <= spec_rank(cdf, u) < cdf.len(),
    decreases cdf.len(),
{
    if !(u < cdf[0]) {
        assert(cdf.len() > 1);
        assert(cdf.drop_first().last() == cdf.last());
        lemma_rank_bounds(cdf.drop_first(), u);
    }
}

/// Finds the first index of `cdf` whose entry exceeds `u`.
fn find_rank(cdf: &Vec<u64>, u: u64) -> (r: usize)
    requires
        cdf@.len() > 0,
        u < cdf@.last(),
    ensures
        r as int == spec_rank(cdf@, u),
        r < cdf@.len(),
        u < cdf@[r as int],
        forall|j: int| 0 <= j < r ==> cdf@[j] <= u,
{
    proof {
        assert(cdf@.len() == cdf.len());
    }
    let mut i: usize = 0;
    while cdf[i] <= u
        invariant
            cdf@.len() > 0,
            cdf@.len() <= usize::MAX,
            u < cdf@.last(),
            0 <= i < cdf@.len(),
            forall|j: int| 0 <= j < i ==> cdf@[j] <= u,
        decreases cdf@.len() - i,
    {
        i = i + 1;
        assert(i < cdf@.len()) by {
            if i == cdf@.len() {
                assert(cdf@[cdf@.len() - 1] <= u);
            }
        }
    }
    proof {
        lemma_rank_is_first(cdf@, u, i as int);
    }
    i
}

/// The key drawn from the cumulative weight table `cdf` by one draw from
/// `st`: rank `k` (keys are 1-based) is picked when the draw lands in rank
/// `k`'s weight bracket.
pub open spec fn spec_zipf_key(st: u64, cdf: Seq<u64>) -> u64
    recommends
        0 < cdf.len(),
        cdf.last() > 0,
{
    (spec_rank(cdf, (mix(next_state(st)) as int % (cdf.last() as int)) as u64) + 1) as u64
}

/// The tuples drawn by `n` independent draws from the cumulative weight
/// table `cdf`, starting at state `st`.
pub open spec fn spec_zipf_run(st: u64, n: nat, cdf: Seq<u64>) -> Seq<Tuple>
    recommends
        0 < cdf.len(),
        cdf.last() > 0,
    decreases n,
{
    if n == 0 {
        Seq::empty()
    } else {
        seq![idt(spec_zipf_key(st, cdf))] + spec_zipf_run(next_state(st), (n - 1) as nat, cdf)
    }
}

/// Each element of a draw run from `cdf` is the key of the corresponding
/// step, and lies in `[1, cdf.len()]`.
pub proof fn lemma_zipf_run_index(st: u64, n: nat, cdf: Seq<u64>)
    requires
        0 < cdf.len() <= u64::MAX,
        cdf.last() > 0,
    ensures
        spec_zipf_run(st, n, cdf).len() == n,
        forall|m: int|
            0 <= m < n ==> #[trigger] spec_zipf_run(st, n, cdf)[m] == idt(
                spec_zipf_key(iter_state(st, m as nat), cdf),
            ),
        forall|m: int|
            0 <= m < n ==> 1 <= #[trigger] spec_zipf_run(st, n, cdf)[m].key <= cdf.len(),
    decreases n,
{
    if n > 0 {
        lemma_zipf_run_index(next_state(st), (n - 1) as nat, cdf);
        assert forall|m: int| 0 <= m < n implies #[trigger] spec_zipf_run(st, n, cdf)[m] == idt(
            spec_zipf_key(iter_state(st, m as nat), cdf),
        ) by {
            if m > 0 {
                assert(spec_zipf_run(st, n, cdf)[m] == spec_zipf_run(
                    next_state(st),
                    (n - 1) as nat,
                    cdf,
                )[m - 1]);
            }
        }
        assert forall|m: int| 0 <= m < n implies 1 <= #[trigger] spec_zipf_run(st, n, cdf)[m].key
            <= cdf.len() by {
            let sm = iter_state(st, m as nat);
            let u = (mix(next_state(sm)) as int % (cdf.last() as int)) as u64;
            assert(0 <= (mix(next_state(sm)) as int % (cdf.last() as int)) && (mix(
                next_state(sm),
            ) as int % (cdf.last() as int)) < cdf.last() as int);
            lemma_rank_bounds(cdf, u);
        }
    }
}

/// Fills positions `[lo, hi)` with keys drawn from the cumulative weight
/// table `cdf` by inverse-transform sampling.
pub fn fill_zipf_range(buf: &mut Vec<Tuple>, lo: usize, hi: usize, cdf: &Vec<u64>, rng: &mut Rng)
    requires
        lo <= hi <= old(buf).len(),
        cdf@.len() > 0,
        cdf@.last() > 0,
    ensures
        final(buf)@ == with_run(
            old(buf)@,
            lo as int,
            spec_zipf_run(old(rng).state, (hi - lo) as nat, cdf@),
        ),
        final(buf)@.len() == old(buf).len(),
        final(rng).state == iter_state(old(rng).state, (hi - lo) as nat),
{
    proof {
        assert(cdf@.len() == cdf.len());
        lemma_zipf_run_index(old(rng).state, (hi - lo) as nat, cdf@);
    }
    let ghost run = spec_zipf_run(old(rng).state, (hi - lo) as nat, cdf@);
    let total: u64 = cdf[cdf.len() - 1];
    let mut i: usize = lo;
    while i < hi
        invariant
            lo <= i <= hi <= buf.len(),
            buf.len() == old(buf).len(),
            0 < cdf@.len() <= u64::MAX,
            cdf@.last() > 0,
            total == cdf@.last(),
            run == spec_zipf_run(old(rng).state, (hi - lo) as nat, cdf@),
            run.len() == hi - lo,
            forall|m: int|
                0 <= m < hi - lo ==> #[trigger] run[m] == idt(
                    spec_zipf_key(iter_state(old(rng).state, m as nat), cdf@),
                ),
            rng.state == iter_state(old(rng).state, (i - lo) as nat),
            buf@ == with_run(old(buf)@, lo as int, run.take(i - lo)),
        decreases hi - i,
    {
        let ghost pre_state = rng.state;
        let u = rng.below(total);
        let rank = find_rank(cdf, u);
        let key: u64 = (rank as u64) + 1;
        proof {
            assert(key == spec_zipf_key(pre_state, cdf@));
            lemma_iter_state_step(old(rng).state, (i - lo) as nat);
        }
        buf.set(i, Tuple { key, payload: key });
        proof {
            assert(run.take(i + 1 - lo)[i - lo] == run[i - lo]);
            assert(buf@ =~= with_run(old(buf)@, lo as int, run.take(i + 1 - lo)));
        }
        i = i + 1;
    }
    proof {
        assert(run.take(hi - lo) =~= run);
    }
}

/// The result of the block fill: `nblocks` consecutive independently
/// shuffled permutations of the keys `[1, max_id]`, written from position
/// `lo` on.
pub open spec fn spec_fk_blocks(s: Seq<Tuple>, st: u64, lo: int, nblocks: nat, max_id: u64) -> (Seq<
    Tuple,
>, u64)
    recommends
        0 <= lo,
        lo + nblocks * (max_id as int) <= s.len(),
        max_id > 0,
    decreases nblocks,
{
    if nblocks == 0 {
        (s, st)
    } else {
        let r = spec_perm_fill(s, st, lo, lo + max_id as int, 1);
        spec_fk_blocks(r.0, r.1, lo + max_id as int, (nblocks - 1) as nat, max_id)
    }
}

/// The result of the foreign-key fill on `[lo, hi)`: with the range an exact
/// multiple of `max_id`, consecutive shuffled blocks, each holding every key
/// of `[1, max_id]` exactly once; otherwise independent uniform draws from
/// `[1, max_id]`.
pub open spec fn spec_fk_range_fill(s: Seq<Tuple>, st: u64, lo: int, hi: int, max_id: u64) -> (Seq<
    Tuple,
>, u64)
    recommends
        0 <= lo <= hi <= s.len(),
        max_id > 0,
{
    if (hi - lo) % (max_id as int) == 0 {
        spec_fk_blocks(s, st, lo, ((hi - lo) / (max_id as int)) as nat, max_id)
    } else {
        (
            with_run(s, lo, spec_uniform_run(st, (hi - lo) as nat, 1, max_id)),
            iter_state(st, (hi - lo) as nat),
        )
    }
}

/// Appending one full block of the keys `[1, max_id]` to a prefix that holds
/// every such key `b` times yields a prefix that holds every such key `b + 1`
/// times; the appended block's tuples all carry keys of `[1, max_id]`.
proof fn lemma_block_extend(whole: Seq<Tuple>, lo: int, cur: int, next: int, max_id: u64, b: nat)
    requires
        0 <= lo <= cur <= next <= whole.len(),
        max_id > 0,
        forall|t: Tuple|
            #[trigger] whole.subrange(lo, cur).to_multiset().count(t) == if (t.payload == t.key && 1
                <= t.key <= max_id) {
                b
            } else {
                0nat
            },
        whole.subrange(cur, next).to_multiset() == id_tuples(1, max_id as nat).to_multiset(),
    ensures
        forall|t: Tuple|
            #[trigger] whole.subrange(lo, next).to_multiset().count(t) == if (t.payload == t.key
                && 1 <= t.key <= max_id) {
                b + 1
            } else {
                0nat
            },
        forall|k: int|
            cur <= k < next ==> 1 <= #[trigger] whole[k].key <= max_id && whole[k].payload
                == whole[k].key,
{
    broadcast use vstd::multiset::group_multiset_axioms;
    broadcast use vstd::seq_lib::group_to_multiset_ensures;

    let a = whole.subrange(lo, cur);
    let blk = whole.subrange(cur, next);
    assert(whole.subrange(lo, next) =~= a + blk);
    vstd::seq_lib::lemma_multiset_commutative(a, blk);
    assert(whole.subrange(lo, next).to_multiset() == a.to_multiset().add(blk.to_multiset()));
    assert forall|t: Tuple|
        #[trigger] whole.subrange(lo, next).to_multiset().count(t) == (if (t.payload == t.key && 1
            <= t.key <= max_id) {
            b + 1
        } else {
            0nat
        }) by {
        crate::relation::lemma_id_tuples_count(1, max_id as nat, t);
    }
    assert forall|k: int| cur <= k < next implies 1 <= #[trigger] whole[k].key <= max_id
        && whole[k].payload == whole[k].key by {
        assert(blk[k - cur] == whole[k]);
        assert(blk.contains(whole[k]));
        assert(blk.to_multiset().count(whole[k]) > 0);
        crate::relation::lemma_id_tuples_count(1, max_id as nat, whole[k]);
    }
}

/// Fills positions `[lo, hi)` with foreign keys referencing `[1, max_id]`.
/// When the range length is an exact multiple of `max_id`, it becomes
/// consecutive independently shuffled permutations of `[1, max_id]`, so every
/// key of `[1, max_id]` occurs exactly `(hi - lo) / max_id` times; otherwise
/// the keys are independent uniform draws from `[1, max_id]`.
#[verifier::rlimit(100)]
pub fn fill_fk_range(buf: &mut Vec<Tuple>, lo: usize, hi: usize, max_id: u64, rng: &mut Rng)
    requires
        lo <= hi <= old(buf).len(),
        max_id > 0,
    ensures
        final(buf)@ == spec_fk_range_fill(old(buf)@, old(rng).state, lo as int, hi as int, max_id).0,
        final(rng).state == spec_fk_range_fill(
            old(buf)@,
            old(rng).state,
            lo as int,
            hi as int,
            max_id,
        ).1,
        final(buf)@.len() == old(buf).len(),
        forall|k: int|
            0 <= k < old(buf).len() && !(lo <= k < hi) ==> #[trigger] final(buf)@[k] == old(
                buf,
            )@[k],
        forall|k: int|
            lo <= k < hi ==> 1 <= #[trigger] final(buf)@[k].key <= max_id && final(buf)@[k].payload
                == final(buf)@[k].key,
        ((hi - lo) as int % (max_id as int) == 0) ==> forall|t: Tuple|
            #[trigger] final(buf)@.subrange(lo as int, hi as int).to_multiset().count(t) == if (
            t.payload == t.key && 1 <= t.key <= max_id) {
                ((hi - lo) as int / (max_id as int)) as nat
            } else {
                0nat
            },
{
    let span: usize = hi - lo;
    if (span as u64) % max_id == 0 {
        let nblocks: u64 = (span as u64) / max_id;
        proof {
            vstd::arithmetic::div_mod::lemma_fundamental_div_mod(span as int, max_id as int);
            assert(span as int == (max_id as int) * (nblocks as int));
            assert((max_id as int) * (nblocks as int) == (nblocks as int) * (max_id as int))
                by (nonlinear_arith);
        }
        proof {
            broadcast use vstd::seq_lib::group_to_multiset_ensures;

            assert forall|t: Tuple|
                #[trigger] buf@.subrange(lo as int, lo as int).to_multiset().count(t) == 0nat by {
                assert(!buf@.subrange(lo as int, lo as int).contains(t));
            }
        }
        let mut b: u64 = 0;
        let mut cur: usize = lo;
        while b < nblocks
            invariant
                max_id > 0,
                lo <= hi <= buf.len(),
                buf.len() == old(buf).len(),
                nblocks as int * (max_id as int) == hi - lo,
                (hi - lo) % (max_id as int) == 0,
                nblocks as int == (hi - lo) / (max_id as int),
                b <= nblocks,
                cur as int == lo + b as int * (max_id as int),
                lo <= cur <= hi,
                spec_fk_blocks(old(buf)@, old(rng).state, lo as int, nblocks as nat, max_id)
                    == spec_fk_blocks(buf@, rng.state, cur as int, (nblocks - b) as nat, max_id),
                forall|k: int|
                    0 <= k < buf.len() && !(lo <= k < cur) ==> #[trigger] buf@[k] == old(buf)@[k],
                forall|k: int|
                    lo <= k < cur ==> 1 <= #[trigger] buf@[k].key <= max_id && buf@[k].payload
                        == buf@[k].key,
                forall|t: Tuple|
                    #[trigger] buf@.subrange(lo as int, cur as int).to_multiset().count(t) == if (
                    t.payload == t.key && 1 <= t.key <= max_id) {
                        b as nat
                    } else {
                        0nat
                    },
            decreases nblocks - b,
        {
            proof {
                assert((b as int + 1) * (max_id as int) <= nblocks as int * (max_id as int))
                    by (nonlinear_arith)
                    requires
                        b as int + 1 <= nblocks as int,
                        max_id > 0,
                ;
                assert((b as int + 1) * (max_id as int) == b as int * (max_id as int)
                    + max_id as int) by (nonlinear_arith);
            }
            let step: usize = max_id as usize;
            let next: usize = cur + step;
            let ghost pre = buf@;
            let ghost pre_st = rng.state;
            let ghost pre_sub = pre.subrange(lo as int, cur as int);
            fill_perm_range(buf, cur, next, 1, rng);
            proof {
                let r0 = spec_perm_fill(pre, pre_st, cur as int, next as int, 1);
                assert(next as int == cur as int + max_id as int);
                assert((nblocks - b) as nat >= 1);
                assert(spec_fk_blocks(pre, pre_st, cur as int, (nblocks - b) as nat, max_id)
                    == spec_fk_blocks(r0.0, r0.1, next as int, (nblocks - b - 1) as nat, max_id))
                    by {
                    reveal_with_fuel(spec_fk_blocks, 2);
                };
                assert(buf@ == r0.0);
                assert(rng.state == r0.1);
                assert(buf@.subrange(lo as int, cur as int) =~= pre_sub);
                lemma_block_extend(buf@, lo as int, cur as int, next as int, max_id, b as nat);
            }
            b = b + 1;
            cur = next;
        }
        proof {
            assert(cur == hi);
            assert(buf@ == spec_fk_range_fill(
                old(buf)@,
                old(rng).state,
                lo as int,
                hi as int,
                max_id,
            ).0);
        }
    } else {
        fill_uniform_range(buf, lo, hi, 1, max_id, rng);
        proof {
            let run = spec_uniform_run(old(rng).state, (hi - lo) as nat, 1, max_id);
            lemma_uniform_run_index(old(rng).state, (hi - lo) as nat, 1, max_id);
            assert(buf@ == with_run(old(buf)@, lo as int, run));
            assert forall|k: int| lo <= k < hi implies 1 <= #[trigger] buf@[k].key <= max_id
                && buf@[k].payload == buf@[k].key by {
                assert(buf@[k] == run[k - lo]);
            }
        }
    }
}

/// One more draw extends the iterated state by one step at the end.
pub proof fn lemma_iter_state_step(st: u64, n: nat)
    ensures
        iter_state(st, n + 1) == next_state(iter_state(st, n)),
    decreases n,
{
    assert(iter_state(st, n + 1) == iter_state(next_state(st), n));
    if n > 0 {
        lemma_iter_state_step(next_state(st), (n - 1) as nat);
    }
}

} // verus!
