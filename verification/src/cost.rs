//! The cost model of one dictionary-coded segment.
use vstd::arithmetic::power2::{lemma_pow2_unfold, pow2};
use vstd::prelude::*;

verus! {

/// Segments at most this wide are charged nothing for their dictionary.
pub const FREE_DICTIONARY_WIDTH: usize = 20;

/// Upper bound of `ceil_log2` on any count a machine word can hold.
pub const MAX_INDEX_BITS: u32 = 64;

/// The number of bits that an index into `k` dictionary entries takes: the
/// least `b` with `2^b >= k`, which is 0 for `k <= 1`.
pub open spec fn ceil_log2(k: nat) -> nat
    decreases k,
{
    if k <= 1 {
        0
    } else {
        1 + ceil_log2((k + 1) / 2)
    }
}

/// `ceil_log2(k)` bits are enough to tell `k` entries apart, and no smaller
/// number of bits is.
pub proof fn lemma_ceil_log2_is_least(k: nat)
    ensures
        pow2(ceil_log2(k)) >= k,
        forall|b: nat| pow2(b) >= k ==> b >= ceil_log2(k),
    decreases k,
{
    if k <= 1 {
        assert(pow2(0) == 1) by {
            vstd::arithmetic::power2::lemma_pow2(0);
            vstd::arithmetic::power::lemma_pow0(2);
        }
    } else {
        let h = (k + 1) / 2;
        let c = ceil_log2(h);
        lemma_ceil_log2_is_least(h);
        lemma_pow2_unfold(c + 1);
        assert forall|b: nat| pow2(b) >= k implies b >= c + 1 by {
            if b == 0 {
                vstd::arithmetic::power2::lemma_pow2(0);
                vstd::arithmetic::power::lemma_pow0(2);
            } else {
                lemma_pow2_unfold(b);
                assert(pow2((b - 1) as nat) >= h);
            }
        }
    }
}

/// A count that fits a machine word takes at most 64 index bits.
pub proof fn lemma_ceil_log2_bounded(k: nat)
    requires
        k <= u64::MAX,
    ensures
        ceil_log2(k) <= MAX_INDEX_BITS,
{
    lemma_ceil_log2_is_least(k);
    vstd::arithmetic::power2::lemma2_to64();
    assert(pow2(64) >= k);
}

/// The number of bits that an index into `k` dictionary entries takes.
pub fn index_bits(k: usize) -> (b: u32)
    ensures
        b == ceil_log2(k as nat),
        b <= MAX_INDEX_BITS,
{
    let mut left: usize = k;
    let mut b: u32 = 0;
    proof {
        lemma_ceil_log2_bounded(k as nat);
    }
    while left > 1
        invariant
            ceil_log2(k as nat) == b + ceil_log2(left as nat),
            ceil_log2(k as nat) <= MAX_INDEX_BITS,
        decreases left,
    {
        left = left / 2 + left % 2;
        b = b + 1;
    }
    b
}

/// The net number of bits saved by coding a segment of `w` columns, in which
/// `k` distinct patterns occur, with a dictionary, over `n` rules: each rule
/// keeps an index of `ceil_log2(k)` bits in place of `w` raw bits, and a
/// segment wider than `FREE_DICTIONARY_WIDTH` pays for `k` dictionary
/// entries of pattern and index.
pub open spec fn net_saving(n: nat, w: nat, k: nat) -> int {
    let b = ceil_log2(k);
    let saving = (w - b) * n;
    let cost = if w > FREE_DICTIONARY_WIDTH {
        k * (w + b)
    } else {
        0
    };
    saving - cost
}

/// The largest magnitude that `net_saving` reaches for `n` rules and segments
/// of at most `w` columns.
pub open spec fn saving_limit(n: nat, w: nat) -> int {
    2 * ((w + MAX_INDEX_BITS) * n)
}

/// `net_saving` stays within `saving_limit`, also for every narrower segment.
pub proof fn lemma_net_saving_bounded(n: nat, w: nat, k: nat, width: nat)
    requires
        k <= n,
        n <= u64::MAX,
        w <= width,
    ensures
        -saving_limit(n, width) <= net_saving(n, w, k) <= saving_limit(n, width),
{
    lemma_ceil_log2_bounded(k);
    let b = ceil_log2(k) as int;
    let wi = w as int;
    let ni = n as int;
    let ki = k as int;
    let top = (width + MAX_INDEX_BITS) as int;
    assert(-(top * ni) <= (wi - b) * ni <= top * ni) by (nonlinear_arith)
        requires
            0 <= b <= 64,
            0 <= wi,
            wi + 64 <= top,
            0 <= ni,
    ;
    assert(0 <= ki * (wi + b) <= top * ni) by (nonlinear_arith)
        requires
            0 <= b <= 64,
            0 <= wi,
            wi + 64 <= top,
            0 <= ki <= ni,
    ;
}

/// Computes `net_saving` for `n` rules, a segment of `w` columns and `k`
/// distinct patterns.
pub fn segment_saving(n: usize, w: usize, k: usize) -> (s: i64)
    requires
        k <= n,
        saving_limit(n as nat, w as nat) <= i64::MAX,
    ensures
        s == net_saving(n as nat, w as nat, k as nat),
{
    if n == 0 {
        assert(net_saving(0, w as nat, 0) == 0) by (nonlinear_arith)
            requires
                ceil_log2(0) == 0,
        ;
        return 0;
    }
    let b: i64 = index_bits(k) as i64;
    proof {
        lemma_net_saving_bounded(n as nat, w as nat, k as nat, w as nat);
        let top = (w + MAX_INDEX_BITS) as int;
        assert(top <= top * n && n <= top * n) by (nonlinear_arith)
            requires
                n >= 1,
                top >= 1,
        ;
    }
    let wide: i64 = w as i64;
    let count: i64 = n as i64;
    let distinct: i64 = k as i64;
    proof {
        let top = (w + MAX_INDEX_BITS) as int;
        assert(-(top * count) <= (wide - b) * count <= top * count) by (nonlinear_arith)
            requires
                0 <= b <= 64,
                0 <= wide,
                wide + 64 <= top,
                0 <= count,
        ;
        assert(0 <= distinct * (wide + b) <= top * count) by (nonlinear_arith)
            requires
                0 <= b <= 64,
                0 <= wide,
                wide + 64 <= top,
                0 <= distinct <= count,
        ;
    }
    let saving: i64 = (wide - b) * count;
    let cost: i64 = if w > FREE_DICTIONARY_WIDTH {
        distinct * (wide + b)
    } else {
        0
    };
    saving - cost
}

} // verus!
