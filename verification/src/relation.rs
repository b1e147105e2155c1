//! Relations and their builders.
//!
//! A `Relation` is an ordered, fixed-length sequence of key/payload tuples
//! backed by one owned, contiguous buffer. Each builder composes a key
//! distribution with the buffer fill: it validates its parameters, allocates
//! the whole buffer up front, fills every slot, and returns the handle — or
//! returns an error before any allocation. Generation is all-or-nothing: no
//! partially filled buffer ever escapes.

use crate::fill::{
    alloc_tuples, fill_fk_range, fill_from_keys_range, fill_perm_range, fill_uniform_range,
    fill_zipf_range, iter_state, lemma_from_keys_run_index, lemma_uniform_run_index,
    lemma_zipf_run_index, monotone, spec_fk_range_fill, spec_from_keys_run, spec_perm_fill,
    spec_uniform_run, spec_zipf_run,
};
use crate::partition::{lemma_part_start_bounds, lemma_partition_tessellates, part_start, spec_part_start};
use crate::rng::{next_state, spec_substate, Rng};
use vstd::prelude::*;

verus! {

/// One record of a relation: a fixed-width key/payload pair.
#[derive(Clone, Copy, PartialEq, Eq, Structural, Debug)]
pub struct Tuple {
    pub key: u64,
    pub payload: u64,
}

/// The tuple every generator emits for key `k`: the payload is the
/// generator-derived fill value, equal to the key.
pub open spec fn idt(k: u64) -> Tuple {
    Tuple { key: k, payload: k }
}

/// The sequence of generated tuples with consecutive keys `lo, ..., lo+n-1`.
pub open spec fn id_tuples(lo: int, n: nat) -> Seq<Tuple>
    recommends
        0 <= lo,
        lo + n <= u64::MAX as int + 1,
{
    Seq::new(n, |i: int| idt((lo + i) as u64))
}

/// The keys of a tuple sequence, in order.
pub open spec fn keys_of(s: Seq<Tuple>) -> Seq<u64> {
    s.map_values(|t: Tuple| t.key)
}

/// Why a generation call failed. Errors are reported before any buffer is
/// allocated; no partial relation survives a failure.
#[derive(Clone, Copy, PartialEq, Eq, Structural, Debug)]
pub enum Error {
    /// A non-positive length, key bound or skew table, or a zero worker count.
    InvalidParameter,
    /// The requested buffer could not be obtained.
    AllocationFailure,
    /// An internal invariant of a distribution algorithm could not be
    /// satisfied. The builders in this crate are proved never to report it
    /// — their contracts admit only the other two kinds — but it remains
    /// part of the error model callers must be prepared for.
    GenerationFailure,
}

/// Execution strategy of one generation call: single-threaded, or partitioned
/// across the given number of workers. The choice decides how the relation is
/// produced, not which keys are admissible.
#[derive(Clone, Copy, Debug)]
pub enum BuildMode {
    Sequential,
    Parallel(u32),
}

/// Upper bound on the tuple count of one relation: beyond it the buffer's
/// byte size could not be addressed, and builders report `AllocationFailure`.
pub const MAX_TUPLES: u64 = 0x0800_0000_0000_0000;

/// How often a tuple occurs among the generated tuples with consecutive
/// keys `lo, ..., lo+n-1`: once when it is one of them, else not at all.
pub proof fn lemma_id_tuples_count(lo: int, n: nat, t: Tuple)
    requires
        0 <= lo,
        lo + n <= u64::MAX as int + 1,
    ensures
        id_tuples(lo, n).to_multiset().count(t) == if t.payload == t.key && lo <= t.key < lo + n {
            1nat
        } else {
            0nat
        },
    decreases n,
{
    broadcast use vstd::seq_lib::group_to_multiset_ensures;
    broadcast use vstd::multiset::group_multiset_axioms;

    if n == 0 {
        assert(!id_tuples(lo, 0).contains(t));
        assert(id_tuples(lo, 0).to_multiset().count(t) == 0);
    } else {
        lemma_id_tuples_count(lo, (n - 1) as nat, t);
        assert(id_tuples(lo, n) =~= id_tuples(lo, (n - 1) as nat).push(idt((lo + n - 1) as u64)));
        assert(id_tuples(lo, (n - 1) as nat).push(idt((lo + n - 1) as u64)).to_multiset()
            =~= id_tuples(lo, (n - 1) as nat).to_multiset().insert(idt((lo + n - 1) as u64)));
    }
}

/// Two consecutive runs of generated tuples form one longer run.
pub proof fn lemma_id_tuples_concat(lo: int, a: nat, b: nat)
    ensures
        id_tuples(lo, a) + id_tuples(lo + a, b) =~= id_tuples(lo, a + b),
{
}

/// The all-zero buffer of `len` tuples, before any fill.
pub open spec fn zero_tuples(len: nat) -> Seq<Tuple> {
    Seq::new(len, |i: int| Tuple { key: 0, payload: 0 })
}

/// A generated dataset: an ordered, fixed-length sequence of tuples backed
/// by one owned, contiguous buffer.
///
/// The `Relation` owns that buffer exclusively: no operation hands out a
/// mutable view of it, its length never changes after creation, and the
/// buffer is released exactly once, when the handle is dropped. A second
/// release is unrepresentable — there is no operation that frees the buffer
/// while the handle lives, and no handle survives its buffer.
#[derive(Debug)]
pub struct Relation {
    tuples: Vec<Tuple>,
}

impl View for Relation {
    type V = Seq<Tuple>;

    closed spec fn view(&self) -> Seq<Tuple> {
        self.tuples@
    }
}

impl Relation {
    /// The number of tuples.
    pub fn len(&self) -> (n: usize)
        ensures
            n == self@.len(),
    {
        self.tuples.len()
    }

    /// Read-only access to the tuple at `i`.
    pub fn get(&self, i: usize) -> (t: Tuple)
        requires
            i < self@.len(),
        ensures
            t == self@[i as int],
    {
        self.tuples[i]
    }

    /// Creates a primary-key relation: its keys are a permutation of
    /// `[1, len]`, so every key appears exactly once, in randomized order.
    ///
    /// A parallel build with `n` workers partitions the buffer into `n`
    /// disjoint contiguous ranges and permutes the matching key sub-range
    /// within each, independently per worker; uniqueness and completeness
    /// of the whole key set are preserved.
    pub fn new_pk(len: usize, mode: BuildMode, rng: &mut Rng) -> (r: Result<Relation, Error>)
        ensures
            match r {
                Ok(rel) => {
                    &&& len > 0
                    &&& valid_mode(mode)
                    &&& len as u64 <= MAX_TUPLES
                    &&& rel@.len() == len
                    &&& rel@.to_multiset() == id_tuples(1, len as nat).to_multiset()
                    &&& match mode {
                        BuildMode::Sequential => rel@ == spec_pk_sequential(
                            old(rng).state,
                            len as nat,
                        ).0 && final(rng).state == spec_pk_sequential(old(rng).state, len as nat).1,
                        BuildMode::Parallel(n) => rel@ == spec_pk_parallel(
                            old(rng).state,
                            len as nat,
                            n,
                        ) && final(rng).state == next_state(old(rng).state),
                    }
                },
                Err(e) => {
                    &&& final(rng).state == old(rng).state
                    &&& (e == Error::InvalidParameter <==> (len == 0 || !valid_mode(mode)))
                    &&& (e == Error::AllocationFailure <==> (len > 0 && valid_mode(mode) && len as u64
                        > MAX_TUPLES))
                    &&& (e == Error::InvalidParameter || e == Error::AllocationFailure)
                },
            },
    {
        let mode_ok = match mode {
            BuildMode::Sequential => true,
            BuildMode::Parallel(n) => n > 0,
        };
        if len == 0 || !mode_ok {
            return Err(Error::InvalidParameter);
        }
        if len as u64 > MAX_TUPLES {
            return Err(Error::AllocationFailure);
        }
        match mode {
            BuildMode::Sequential => {
                let mut buf = alloc_tuples(len);
                proof {
                    assert(buf@ =~= zero_tuples(len as nat));
                }
                fill_perm_range(&mut buf, 0, len, 1, rng);
                proof {
                    assert(buf@.subrange(0, len as int) =~= buf@);
                }
                Ok(Relation { tuples: buf })
            },
            BuildMode::Parallel(n) => {
                let buf = build_pk_parallel(len, n, rng);
                Ok(Relation { tuples: buf })
            },
        }
    }

    /// Creates a foreign-key relation referencing the key range
    /// `[1, max_id]`. When `len` is an exact multiple of `max_id`, the
    /// relation is `len / max_id` independently shuffled permutations of
    /// `[1, max_id]` laid end to end, so every key of `[1, max_id]` occurs
    /// exactly `len / max_id` times; otherwise the keys are independent
    /// uniform draws from `[1, max_id]` with no exact multiplicity
    /// guarantee.
    ///
    /// A parallel build applies the same rule per worker partition, each
    /// worker drawing from its own derived sub-state.
    pub fn new_fk(len: usize, max_id: u64, mode: BuildMode, rng: &mut Rng) -> (r: Result<
        Relation,
        Error,
    >)
        ensures
            match r {
                Ok(rel) => {
                    &&& len > 0
                    &&& max_id > 0
                    &&& valid_mode(mode)
                    &&& len as u64 <= MAX_TUPLES
                    &&& rel@.len() == len
                    &&& forall|i: int|
                        0 <= i < len ==> 1 <= #[trigger] rel@[i].key <= max_id && rel@[i].payload
                            == rel@[i].key
                    &&& match mode {
                        BuildMode::Sequential => {
                            &&& rel@ == spec_fk_sequential(old(rng).state, len as nat, max_id).0
                            &&& final(rng).state == spec_fk_sequential(
                                old(rng).state,
                                len as nat,
                                max_id,
                            ).1
                            &&& (len as int % (max_id as int) == 0 ==> forall|t: Tuple|
                                #[trigger] rel@.to_multiset().count(t) == if (t.payload == t.key
                                    && 1 <= t.key <= max_id) {
                                    (len as int / (max_id as int)) as nat
                                } else {
                                    0nat
                                })
                        },
                        BuildMode::Parallel(n) => rel@ == spec_fk_parallel(
                            old(rng).state,
                            len as nat,
                            max_id,
                            n,
                        ) && final(rng).state == next_state(old(rng).state),
                    }
                },
                Err(e) => {
                    &&& final(rng).state == old(rng).state
                    &&& (e == Error::InvalidParameter <==> (len == 0 || max_id == 0 || !valid_mode(
                        mode,
                    )))
                    &&& (e == Error::AllocationFailure <==> (len > 0 && max_id > 0 && valid_mode(
                        mode,
                    ) && len as u64 > MAX_TUPLES))
                    &&& (e == Error::InvalidParameter || e == Error::AllocationFailure)
                },
            },
    {
        let mode_ok = match mode {
            BuildMode::Sequential => true,
            BuildMode::Parallel(n) => n > 0,
        };
        if len == 0 || max_id == 0 || !mode_ok {
            return Err(Error::InvalidParameter);
        }
        if len as u64 > MAX_TUPLES {
            return Err(Error::AllocationFailure);
        }
        match mode {
            BuildMode::Sequential => {
                let mut buf = alloc_tuples(len);
                proof {
                    assert(buf@ =~= zero_tuples(len as nat));
                }
                fill_fk_range(&mut buf, 0, len, max_id, rng);
                proof {
                    assert(buf@.subrange(0, len as int) =~= buf@);
                }
                Ok(Relation { tuples: buf })
            },
            BuildMode::Parallel(n) => {
                let buf = build_fk_parallel(len, max_id, n, rng);
                Ok(Relation { tuples: buf })
            },
        }
    }

    /// Creates a relation of `len` tuples whose keys are sampled
    /// independently and uniformly from `[0, max_id]`; duplicates are
    /// expected and unbounded in multiplicity.
    pub fn new_nonunique(len: usize, max_id: u64, rng: &mut Rng) -> (r: Result<Relation, Error>)
        ensures
            match r {
                Ok(rel) => {
                    &&& len > 0
                    &&& max_id > 0
                    &&& len as u64 <= MAX_TUPLES
                    &&& rel@.len() == len
                    &&& rel@ == spec_uniform_run(old(rng).state, len as nat, 0, max_id)
                    &&& final(rng).state == iter_state(old(rng).state, len as nat)
                    &&& forall|i: int|
                        0 <= i < len ==> #[trigger] rel@[i].key <= max_id && rel@[i].payload
                            == rel@[i].key
                },
                Err(e) => {
                    &&& final(rng).state == old(rng).state
                    &&& (e == Error::InvalidParameter <==> (len == 0 || max_id == 0))
                    &&& (e == Error::AllocationFailure <==> (len > 0 && max_id > 0 && len as u64
                        > MAX_TUPLES))
                    &&& (e == Error::InvalidParameter || e == Error::AllocationFailure)
                },
            },
    {
        if len == 0 || max_id == 0 {
            return Err(Error::InvalidParameter);
        }
        if len as u64 > MAX_TUPLES {
            return Err(Error::AllocationFailure);
        }
        let mut buf = alloc_tuples(len);
        fill_uniform_range(&mut buf, 0, len, 0, max_id, rng);
        proof {
            lemma_uniform_run_index(old(rng).state, len as nat, 0, max_id);
            assert(buf@ =~= spec_uniform_run(old(rng).state, len as nat, 0, max_id));
        }
        Ok(Relation { tuples: buf })
    }

    /// Creates a foreign-key relation of `len` tuples whose keys are drawn
    /// uniformly from the key set actually present in `pk`, so every
    /// generated key is guaranteed to occur in the referenced relation.
    pub fn new_fk_from_pk(pk: &Relation, len: usize, rng: &mut Rng) -> (r: Result<Relation, Error>)
        ensures
            match r {
                Ok(rel) => {
                    &&& len > 0
                    &&& pk@.len() > 0
                    &&& len as u64 <= MAX_TUPLES
                    &&& rel@.len() == len
                    &&& rel@ == spec_from_keys_run(old(rng).state, len as nat, keys_of(pk@))
                    &&& final(rng).state == iter_state(old(rng).state, len as nat)
                    &&& forall|i: int|
                        0 <= i < len ==> keys_of(pk@).contains(#[trigger] rel@[i].key)
                            && rel@[i].payload == rel@[i].key
                },
                Err(e) => {
                    &&& final(rng).state == old(rng).state
                    &&& (e == Error::InvalidParameter <==> (len == 0 || pk@.len() == 0))
                    &&& (e == Error::AllocationFailure <==> (len > 0 && pk@.len() > 0 && len as u64
                        > MAX_TUPLES))
                    &&& (e == Error::InvalidParameter || e == Error::AllocationFailure)
                },
            },
    {
        if len == 0 || pk.len() == 0 {
            return Err(Error::InvalidParameter);
        }
        if len as u64 > MAX_TUPLES {
            return Err(Error::AllocationFailure);
        }
        let mut buf = alloc_tuples(len);
        fill_from_keys_range(&mut buf, 0, len, &pk.tuples, rng);
        proof {
            assert(pk.tuples@.len() == pk.tuples.len());
            lemma_from_keys_run_index(old(rng).state, len as nat, keys_of(pk@));
            assert(buf@ =~= spec_from_keys_run(old(rng).state, len as nat, keys_of(pk@)));
        }
        Ok(Relation { tuples: buf })
    }

    /// Creates a relation of `len` tuples whose keys are drawn from the
    /// alphabet `[1, cdf.len()]` by inverse-transform sampling over the
    /// cumulative weight table `cdf`: rank `k` is drawn with probability
    /// proportional to its weight bracket, the rise of `cdf` at entry
    /// `k - 1`. A table of
    /// Zipfian weights (rank `k` weighted `1 / k^s`, scaled to integers)
    /// yields the Zipfian key distribution with skew `s`.
    pub fn new_zipf(len: usize, cdf: &Vec<u64>, rng: &mut Rng) -> (r: Result<Relation, Error>)
        ensures
            match r {
                Ok(rel) => {
                    &&& len > 0
                    &&& cdf@.len() > 0
                    &&& monotone(cdf@)
                    &&& cdf@.last() > 0
                    &&& len as u64 <= MAX_TUPLES
                    &&& rel@.len() == len
                    &&& rel@ == spec_zipf_run(old(rng).state, len as nat, cdf@)
                    &&& final(rng).state == iter_state(old(rng).state, len as nat)
                    &&& forall|i: int|
                        0 <= i < len ==> 1 <= #[trigger] rel@[i].key <= cdf@.len()
                            && rel@[i].payload == rel@[i].key
                },
                Err(e) => {
                    &&& final(rng).state == old(rng).state
                    &&& (e == Error::InvalidParameter <==> (len == 0 || cdf@.len() == 0 || !monotone(
                        cdf@,
                    ) || cdf@.last() == 0))
                    &&& (e == Error::AllocationFailure <==> (len > 0 && cdf@.len() > 0 && monotone(
                        cdf@,
                    ) && cdf@.last() > 0 && len as u64 > MAX_TUPLES))
                    &&& (e == Error::InvalidParameter || e == Error::AllocationFailure)
                },
            },
    {
        if len == 0 || cdf.len() == 0 {
            return Err(Error::InvalidParameter);
        }
        if !is_monotone(cdf) || cdf[cdf.len() - 1] == 0 {
            return Err(Error::InvalidParameter);
        }
        if len as u64 > MAX_TUPLES {
            return Err(Error::AllocationFailure);
        }
        let mut buf = alloc_tuples(len);
        fill_zipf_range(&mut buf, 0, len, cdf, rng);
        proof {
            assert(cdf@.len() == cdf.len());
            lemma_zipf_run_index(old(rng).state, len as nat, cdf@);
            assert(buf@ =~= spec_zipf_run(old(rng).state, len as nat, cdf@));
        }
        Ok(Relation { tuples: buf })
    }
}

/// Uniqueness and completeness of primary keys: a tuple sequence that holds,
/// as a multiset, exactly the generated tuples keyed `1, ..., len` — as every
/// successful `new_pk` build does, in either mode — has `len` tuples, no two
/// of them share a key, every key of `[1, len]` occurs, and every tuple
/// carries a key of `[1, len]` with its payload equal to it.
pub proof fn lemma_pk_unique_complete(s: Seq<Tuple>, len: nat)
    requires
        len <= u64::MAX,
        s.to_multiset() == id_tuples(1, len).to_multiset(),
    ensures
        s.len() == len,
        forall|i: int, j: int| 0 <= i < j < s.len() ==> s[i].key != s[j].key,
        forall|k: u64| 1 <= k <= len ==> s.contains(idt(k)),
        forall|i: int|
            0 <= i < s.len() ==> 1 <= #[trigger] s[i].key <= len && s[i].payload == s[i].key,
{
    broadcast use vstd::seq_lib::group_to_multiset_ensures;
    broadcast use vstd::multiset::group_multiset_axioms;

    assert(s.to_multiset().len() == s.len());
    assert(id_tuples(1, len).to_multiset().len() == id_tuples(1, len).len());
    assert forall|i: int| 0 <= i < s.len() implies 1 <= #[trigger] s[i].key <= len && s[i].payload
        == s[i].key by {
        assert(s.contains(s[i]));
        assert(s.to_multiset().count(s[i]) > 0);
        lemma_id_tuples_count(1, len, s[i]);
    }
    assert forall|k: u64| 1 <= k <= len implies s.contains(idt(k)) by {
        lemma_id_tuples_count(1, len, idt(k));
        assert(s.to_multiset().count(idt(k)) == 1);
    }
    assert forall|i: int, j: int| 0 <= i < j < s.len() implies s[i].key != s[j].key by {
        if s[i].key == s[j].key {
            assert(s.contains(s[i]));
            assert(s.to_multiset().count(s[i]) > 0);
            lemma_id_tuples_count(1, len, s[i]);
            lemma_id_tuples_count(1, len, s[j]);
            assert(s[i] == s[j]);
            let t = s[i];
            assert(s.remove(j).to_multiset() == s.to_multiset().remove(t));
            assert(s.remove(j)[i] == t);
            assert(s.remove(j).contains(t));
            assert(s.remove(j).to_multiset().count(t) > 0);
            assert(s.to_multiset().count(t) >= 2);
        }
    }
}

/// Whether a build mode is admissible: a parallel build needs at least one
/// worker.
pub open spec fn valid_mode(mode: BuildMode) -> bool {
    match mode {
        BuildMode::Sequential => true,
        BuildMode::Parallel(n) => n > 0,
    }
}

/// The tuple sequence and final generator state of the sequential
/// primary-key build: one permutation of the keys `[1, len]`.
pub open spec fn spec_pk_sequential(st: u64, len: nat) -> (Seq<Tuple>, u64)
    recommends
        len <= MAX_TUPLES,
{
    spec_perm_fill(zero_tuples(len), st, 0, len as int, 1)
}

/// The buffer after workers `0, ..., w-1` (of `n`) have each filled their
/// partition with an independently shuffled permutation of its own key
/// sub-range, each drawing from its derived sub-state.
pub open spec fn spec_pk_parallel_fill(s: Seq<Tuple>, st: u64, len: int, n: int, w: int) -> Seq<
    Tuple,
>
    recommends
        0 <= w <= n,
        s.len() == len,
        0 < n <= u32::MAX,
        len <= MAX_TUPLES,
    decreases n - w,
{
    if w >= n || n <= 0 {
        s
    } else {
        let lo = spec_part_start(len, n, w);
        let hi = spec_part_start(len, n, w + 1);
        spec_pk_parallel_fill(
            spec_perm_fill(s, spec_substate(st, w as u32), lo, hi, lo + 1).0,
            st,
            len,
            n,
            w + 1,
        )
    }
}

/// The tuple sequence of the parallel primary-key build with `n` workers.
pub open spec fn spec_pk_parallel(st: u64, len: nat, n: u32) -> Seq<Tuple>
    recommends
        n > 0,
        len <= MAX_TUPLES,
{
    spec_pk_parallel_fill(zero_tuples(len), st, len as int, n as int, 0)
}

/// The tuple sequence and final generator state of the sequential
/// foreign-key build.
pub open spec fn spec_fk_sequential(st: u64, len: nat, max_id: u64) -> (Seq<Tuple>, u64)
    recommends
        max_id > 0,
        len <= MAX_TUPLES,
{
    spec_fk_range_fill(zero_tuples(len), st, 0, len as int, max_id)
}

/// The buffer after workers `0, ..., w-1` (of `n`) have each run the
/// foreign-key fill on their own partition, each drawing from its derived
/// sub-state: block semantics apply per worker range.
pub open spec fn spec_fk_parallel_fill(s: Seq<Tuple>, st: u64, len: int, n: int, max_id: u64, w: int) -> Seq<Tuple>
    recommends
        0 <= w <= n,
        s.len() == len,
        0 < n <= u32::MAX,
        max_id > 0,
        len <= MAX_TUPLES,
    decreases n - w,
{
    if w >= n || n <= 0 {
        s
    } else {
        let lo = spec_part_start(len, n, w);
        let hi = spec_part_start(len, n, w + 1);
        spec_fk_parallel_fill(
            spec_fk_range_fill(s, spec_substate(st, w as u32), lo, hi, max_id).0,
            st,
            len,
            n,
            max_id,
            w + 1,
        )
    }
}

/// The tuple sequence of the parallel foreign-key build with `n` workers.
pub open spec fn spec_fk_parallel(st: u64, len: nat, max_id: u64, n: u32) -> Seq<Tuple>
    recommends
        n > 0,
        max_id > 0,
        len <= MAX_TUPLES,
{
    spec_fk_parallel_fill(zero_tuples(len), st, len as int, n as int, max_id, 0)
}

/// Whether `cdf` is non-decreasing.
fn is_monotone(cdf: &Vec<u64>) -> (r: bool)
    ensures
        r == monotone(cdf@),
{
    if cdf.len() <= 1 {
        return true;
    }
    let mut i: usize = 1;
    while i < cdf.len()
        invariant
            1 <= i <= cdf@.len(),
            cdf@.len() == cdf.len(),
            forall|a: int, b: int| 0 <= a <= b < i ==> cdf@[a] <= cdf@[b],
        decreases cdf@.len() - i,
    {
        if cdf[i - 1] > cdf[i] {
            assert(!monotone(cdf@));
            return false;
        }
        assert forall|a: int, b: int| 0 <= a <= b < i + 1 implies cdf@[a] <= cdf@[b] by {
            if b == i && a < i {
                assert(cdf@[a] <= cdf@[i - 1]);
            }
        }
        i = i + 1;
    }
    true
}

/// Runs the partitioned primary-key build: each worker fills its own
/// partition with a shuffled permutation of its own key sub-range, drawing
/// from its own derived sub-state, and no worker writes outside its
/// partition. The parent state advances by one step.
#[verifier::rlimit(100)]
fn build_pk_parallel(len: usize, workers: u32, rng: &mut Rng) -> (v: Vec<Tuple>)
    requires
        workers > 0,
        len as u64 <= MAX_TUPLES,
    ensures
        v@ == spec_pk_parallel(old(rng).state, len as nat, workers),
        v@.len() == len,
        v@.to_multiset() == id_tuples(1, len as nat).to_multiset(),
        final(rng).state == next_state(old(rng).state),
{
    let ghost st0 = rng.state;
    let mut buf = alloc_tuples(len);
    proof {
        assert(buf@ =~= zero_tuples(len as nat));
        assert(buf@.subrange(0, 0) =~= id_tuples(1, 0));
        lemma_partition_tessellates(len as int, workers as int);
    }
    let ghost buf0 = buf@;
    let mut w: u32 = 0;
    while w < workers
        invariant
            0 <= w <= workers,
            workers > 0,
            buf.len() == len,
            len as u64 <= MAX_TUPLES,
            rng.state == st0,
            buf0 == zero_tuples(len as nat),
            spec_pk_parallel_fill(buf0, st0, len as int, workers as int, 0)
                == spec_pk_parallel_fill(buf@, st0, len as int, workers as int, w as int),
            buf@.subrange(0, spec_part_start(len as int, workers as int, w as int)).to_multiset()
                == id_tuples(
                1,
                spec_part_start(len as int, workers as int, w as int) as nat,
            ).to_multiset(),
        decreases workers - w,
    {
        let lo = part_start(len, workers, w);
        let hi = part_start(len, workers, w + 1);
        proof {
            lemma_part_start_bounds(len as int, workers as int, w as int);
        }
        let mut wrng = rng.substate(w);
        let ghost pre = buf@;
        let ghost wst = wrng.state;
        fill_perm_range(&mut buf, lo, hi, (lo as u64) + 1, &mut wrng);
        proof {
            let r0 = spec_perm_fill(pre, wst, lo as int, hi as int, lo as int + 1);
            assert(spec_pk_parallel_fill(pre, st0, len as int, workers as int, w as int)
                == spec_pk_parallel_fill(r0.0, st0, len as int, workers as int, w as int + 1)) by {
                reveal_with_fuel(spec_pk_parallel_fill, 2);
            };
            assert(buf@ == r0.0);
            let a = buf@.subrange(0, lo as int);
            let blk = buf@.subrange(lo as int, hi as int);
            assert(a =~= pre.subrange(0, lo as int));
            assert(buf@.subrange(0, hi as int) =~= a + blk);
            vstd::seq_lib::lemma_multiset_commutative(a, blk);
            vstd::seq_lib::lemma_multiset_commutative(
                id_tuples(1, lo as nat),
                id_tuples(1 + lo as int, (hi - lo) as nat),
            );
            lemma_id_tuples_concat(1, lo as nat, (hi - lo) as nat);
            assert(id_tuples(1, lo as nat) + id_tuples(1 + lo as int, (hi - lo) as nat)
                == id_tuples(1, hi as nat));
            assert(buf@.subrange(0, hi as int).to_multiset() == id_tuples(
                1,
                hi as nat,
            ).to_multiset());
        }
        w = w + 1;
    }
    proof {
        assert(spec_part_start(len as int, workers as int, workers as int) == len);
        assert(buf@.subrange(0, len as int) =~= buf@);
    }
    let _ = rng.next_u64();
    buf
}

/// Runs the partitioned foreign-key build: each worker runs the foreign-key
/// fill on its own partition, drawing from its own derived sub-state, and no
/// worker writes outside its partition. The parent state advances by one
/// step.
#[verifier::rlimit(100)]
fn build_fk_parallel(len: usize, max_id: u64, workers: u32, rng: &mut Rng) -> (v: Vec<Tuple>)
    requires
        workers > 0,
        max_id > 0,
        len as u64 <= MAX_TUPLES,
    ensures
        v@ == spec_fk_parallel(old(rng).state, len as nat, max_id, workers),
        v@.len() == len,
        forall|k: int|
            0 <= k < len ==> 1 <= #[trigger] v@[k].key <= max_id && v@[k].payload == v@[k].key,
        final(rng).state == next_state(old(rng).state),
{
    let ghost st0 = rng.state;
    let mut buf = alloc_tuples(len);
    proof {
        assert(buf@ =~= zero_tuples(len as nat));
        lemma_partition_tessellates(len as int, workers as int);
    }
    let ghost buf0 = buf@;
    let mut w: u32 = 0;
    while w < workers
        invariant
            0 <= w <= workers,
            workers > 0,
            max_id > 0,
            buf.len() == len,
            len as u64 <= MAX_TUPLES,
            rng.state == st0,
            buf0 == zero_tuples(len as nat),
            spec_fk_parallel_fill(buf0, st0, len as int, workers as int, max_id, 0)
                == spec_fk_parallel_fill(buf@, st0, len as int, workers as int, max_id, w as int),
            forall|k: int|
                0 <= k < spec_part_start(len as int, workers as int, w as int) ==> 1 <= #[trigger] buf@[k].key
                    <= max_id && buf@[k].payload == buf@[k].key,
        decreases workers - w,
    {
        let lo = part_start(len, workers, w);
        let hi = part_start(len, workers, w + 1);
        proof {
            lemma_part_start_bounds(len as int, workers as int, w as int);
        }
        let mut wrng = rng.substate(w);
        let ghost pre = buf@;
        let ghost wst = wrng.state;
        fill_fk_range(&mut buf, lo, hi, max_id, &mut wrng);
        proof {
            let r0 = spec_fk_range_fill(pre, wst, lo as int, hi as int, max_id);
            assert(spec_fk_parallel_fill(pre, st0, len as int, workers as int, max_id, w as int)
                == spec_fk_parallel_fill(
                r0.0,
                st0,
                len as int,
                workers as int,
                max_id,
                w as int + 1,
            )) by {
                reveal_with_fuel(spec_fk_parallel_fill, 2);
            };
            assert(buf@ == r0.0);
        }
        w = w + 1;
    }
    proof {
        assert(spec_part_start(len as int, workers as int, workers as int) == len);
    }
    let _ = rng.next_u64();
    buf
}

} // verus!
