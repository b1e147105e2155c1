//! Partitioning of a relation of `len` slots into `n` contiguous, disjoint
//! worker ranges.
//!
//! Worker `w` owns the index range `[part_start(len, n, w),
//! part_start(len, n, w + 1))`. Ranges are as close to equal as integer
//! division allows; the remainder is front-loaded, so the first `len % n`
//! workers get one extra slot. `lemma_partition_tessellates` states that the
//! ranges tessellate `[0, len)` exactly: they begin at 0, end at `len`, and
//! consecutive ranges share exactly one boundary, so there is no gap and no
//! overlap.

use vstd::arithmetic::div_mod::lemma_fundamental_div_mod;
use vstd::prelude::*;

verus! {

/// Index where worker `w`'s range begins, of `n` workers over `len` slots.
pub open spec fn spec_part_start(len: int, n: int, w: int) -> int
    recommends
        n > 0,
        0 <= w <= n,
        len >= 0,
{
    w * (len / n) + if w <= len % n {
        w
    } else {
        len % n
    }
}

/// The worker ranges tessellate `[0, len)`: the first range starts at 0, the
/// last ends at `len`, and each range ends where the next begins. Each range
/// holds `len / n` slots, plus one for the first `len % n` workers.
pub proof fn lemma_partition_tessellates(len: int, n: int)
    requires
        n > 0,
        len >= 0,
    ensures
        spec_part_start(len, n, 0) == 0,
        spec_part_start(len, n, n) == len,
        forall|w: int|
            0 <= w < n ==> #[trigger] spec_part_start(len, n, w) <= spec_part_start(len, n, w + 1),
        forall|w: int|
            0 <= w < n ==> spec_part_start(len, n, w + 1) - #[trigger] spec_part_start(len, n, w)
                == len / n + if w < len % n {
                1int
            } else {
                0int
            },
{
    let q = len / n;
    let r = len % n;
    lemma_fundamental_div_mod(len, n);
    assert(n * q + r == len);
    assert(0 <= r < n);
    assert(q >= 0) by (nonlinear_arith)
        requires
            n > 0,
            n * q + r == len,
            len >= 0,
            r < n,
    ;
    assert(spec_part_start(len, n, n) == n * q + r);
    assert forall|w: int| 0 <= w < n implies spec_part_start(len, n, w + 1) - #[trigger] spec_part_start(
        len,
        n,
        w,
    ) == q + if w < r {
        1int
    } else {
        0int
    } by {
        assert((w + 1) * q == w * q + q) by (nonlinear_arith);
    }
    assert forall|w: int| 0 <= w < n implies #[trigger] spec_part_start(len, n, w)
        <= spec_part_start(len, n, w + 1) by {
        assert((w + 1) * q == w * q + q) by (nonlinear_arith);
    }
}

/// Every range start lies within `[0, len]`, and starts are monotone in `w`.
pub proof fn lemma_part_start_bounds(len: int, n: int, w: int)
    requires
        n > 0,
        len >= 0,
        0 <= w <= n,
    ensures
        0 <= spec_part_start(len, n, w) <= len,
        w < n ==> spec_part_start(len, n, w) <= spec_part_start(len, n, w + 1),
{
    let q = len / n;
    let r = len % n;
    lemma_fundamental_div_mod(len, n);
    assert(q >= 0) by (nonlinear_arith)
        requires
            n > 0,
            n * q + r == len,
            len >= 0,
            r < n,
    ;
    assert(0 <= w * q) by (nonlinear_arith)
        requires
            w >= 0,
            q >= 0,
    ;
    assert(w * q <= n * q) by (nonlinear_arith)
        requires
            w <= n,
            q >= 0,
    ;
    if w < n {
        assert((w + 1) * q == w * q + q) by (nonlinear_arith);
    }
}

/// Range starts never decrease with the worker index, so the range of an
/// earlier worker ends at or before the range of a later worker begins: no
/// two worker ranges overlap.
pub proof fn lemma_part_start_monotone(len: int, n: int, w1: int, w2: int)
    requires
        n > 0,
        len >= 0,
        0 <= w1 <= w2 <= n,
    ensures
        spec_part_start(len, n, w1) <= spec_part_start(len, n, w2),
    decreases w2 - w1,
{
    if w1 < w2 {
        lemma_part_start_bounds(len, n, w2 - 1);
        lemma_part_start_monotone(len, n, w1, w2 - 1);
    }
}

/// Computes where worker `w`'s range begins.
pub fn part_start(len: usize, n: u32, w: u32) -> (r: usize)
    requires
        n > 0,
        w <= n,
    ensures
        r == spec_part_start(len as int, n as int, w as int),
        r <= len,
{
    proof {
        lemma_part_start_bounds(len as int, n as int, w as int);
    }
    let nn: usize = n as usize;
    let ww: usize = w as usize;
    let q: usize = len / nn;
    let rem: usize = len % nn;
    let extra: usize = if ww <= rem {
        ww
    } else {
        rem
    };
    proof {
        lemma_fundamental_div_mod(len as int, nn as int);
        assert(ww * q + extra == spec_part_start(len as int, n as int, w as int));
    }
    ww * q + extra
}

} // verus!
