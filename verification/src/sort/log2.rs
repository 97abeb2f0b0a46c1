//! Integer base-2 logarithms, rounded down and up.
use vstd::prelude::*;
use vstd::arithmetic::power2::{pow2, lemma_pow2_unfold, lemma_pow2_pos};
use vstd::arithmetic::div_mod::{lemma_div_denominator, lemma_div_pos_is_pos, lemma_fundamental_div_mod};

verus! {

/// `floor(log2(x))` for `x >= 1` (and 0 for `x == 0`).
pub open spec fn floor_log2(x: nat) -> nat
    decreases x,
{
    if x <= 1 {
        0
    } else {
        1 + floor_log2(x / 2)
    }
}

/// `ceil(log2(x))` for `x >= 1`: `floor(log2(x))`, plus one unless `x` is a power of two.
pub open spec fn ceil_log2(x: nat) -> nat {
    if pow2(floor_log2(x)) == x {
        floor_log2(x)
    } else {
        floor_log2(x) + 1
    }
}

/// `2^floor_log2(x) <= x < 2^(floor_log2(x) + 1)`.
pub proof fn lemma_floor_log2_bounds(x: nat)
    requires
        x >= 1,
    ensures
        pow2(floor_log2(x)) <= x < pow2(floor_log2(x) + 1),
    decreases x,
{
    lemma_pow2_unfold(floor_log2(x) + 1);
    if x <= 1 {
        assert(pow2(0) == 1) by {
            vstd::arithmetic::power2::lemma2_to64();
        }
    } else {
        lemma_floor_log2_bounds(x / 2);
        lemma_pow2_unfold(floor_log2(x));
    }
}

/// The floor logarithm is the only exponent that brackets `x`.
pub proof fn lemma_floor_log2_unique(x: nat, r: nat)
    requires
        pow2(r) <= x < pow2(r + 1),
    ensures
        r == floor_log2(x),
    decreases r,
{
    lemma_pow2_unfold(r + 1);
    lemma_pow2_pos(r);
    if r == 0 {
        assert(pow2(0) == 1 && pow2(1) == 2) by {
            vstd::arithmetic::power2::lemma2_to64();
        }
    } else {
        lemma_pow2_unfold(r);
        lemma_floor_log2_unique(x / 2, (r - 1) as nat);
    }
}

/// `2^ceil_log2(x) >= x`, and `ceil_log2(x)` is the least such exponent.
pub proof fn lemma_ceil_log2_bounds(x: nat)
    requires
        x >= 1,
    ensures
        x <= pow2(ceil_log2(x)),
        ceil_log2(x) == 0 || pow2((ceil_log2(x) - 1) as nat) < x,
{
    lemma_floor_log2_bounds(x);
    let f = floor_log2(x);
    if pow2(f) == x && f >= 1 {
        vstd::arithmetic::power2::lemma_pow2_strictly_increases((f - 1) as nat, f);
    }
}

/// Below `2^n`, the floor logarithm is below `n`.
pub proof fn lemma_floor_log2_lt(x: nat, n: nat)
    requires
        1 <= x < pow2(n),
    ensures
        floor_log2(x) < n,
{
    lemma_floor_log2_bounds(x);
    if floor_log2(x) >= n {
        if floor_log2(x) > n {
            vstd::arithmetic::power2::lemma_pow2_strictly_increases(n, floor_log2(x));
        }
    }
}

/// `2^64`.
pub proof fn lemma_pow2_64()
    ensures
        pow2(64) == 0x1_0000_0000_0000_0000,
{
    vstd::arithmetic::power2::lemma2_to64();
    vstd::arithmetic::power2::lemma2_to64_rest();
}

/// For `s >= 1`, `ceil_log2(s + 1) == floor_log2(s) + 1`.
pub proof fn lemma_ceil_log2_succ(s: nat)
    requires
        s >= 1,
    ensures
        ceil_log2(s + 1) == floor_log2(s) + 1,
{
    let f = floor_log2(s);
    lemma_floor_log2_bounds(s);
    lemma_pow2_unfold(f + 1);
    lemma_pow2_pos(f);
    if s + 1 == pow2(f + 1) {
        lemma_pow2_unfold(f + 2);
        lemma_floor_log2_unique(s + 1, f + 1);
    } else {
        lemma_floor_log2_unique(s + 1, f);
    }
}

/// `floor(log2(x))` of a nonzero `u64`.
pub fn ilog2_floor_u64(x: u64) -> (r: u32)
    requires
        x >= 1,
    ensures
        r == floor_log2(x as nat),
        r < 64,
{
    let mut y: u64 = x;
    let mut r: u32 = 0;
    proof {
        lemma_pow2_64();
        lemma_floor_log2_lt(x as nat, 64);
    }
    while y > 1
        invariant
            y >= 1,
            r + floor_log2(y as nat) == floor_log2(x as nat),
            r + y <= x + 0,
            r <= 64,
            floor_log2(x as nat) < 64,
        decreases y,
    {
        y = y / 2;
        r = r + 1;
    }
    r
}

/// `floor(log2(x))` and whether `x` is a power of two, for a nonzero `usize`.
fn ilog2_floor_usize(x: usize) -> (res: (u32, bool))
    requires
        x >= 1,
    ensures
        res.0 == floor_log2(x as nat),
        res.1 == (pow2(floor_log2(x as nat)) == x),
        res.0 < 64,
{
    let mut y: usize = x;
    let mut p: usize = 1;
    let mut r: u32 = 0;
    proof {
        vstd::arithmetic::power2::lemma2_to64();
        lemma_pow2_64();
        lemma_floor_log2_lt(x as nat, 64);
    }
    while y > 1
        invariant
            y >= 1,
            p >= 1,
            p == pow2(r as nat),
            y == x / p,
            p <= x,
            r + floor_log2(y as nat) == floor_log2(x as nat),
            r < 64,
        decreases y,
    {
        proof {
            lemma_pow2_unfold((r + 1) as nat);
            lemma_div_denominator(x as int, p as int, 2);
            lemma_fundamental_div_mod(x as int, p as int);
            assert(x as int >= p * (x / p)) by (nonlinear_arith)
                requires p >= 1, x as int == p * (x / p) + x % p, x % p >= 0;
            assert(p * 2 <= p * y) by (nonlinear_arith) requires y >= 2, p >= 1;
            if r + 1 >= 64 {
                vstd::arithmetic::power2::lemma_pow2_strictly_increases(63, (r + 1) as nat);
                lemma_pow2_unfold(64);
                assert(pow2(64) == 0x1_0000_0000_0000_0000) by {
                    vstd::arithmetic::power2::lemma2_to64_rest();
                }
            }
        }
        y = y / 2;
        p = p * 2;
        r = r + 1;
    }
    proof {
        lemma_fundamental_div_mod(x as int, p as int);
        lemma_floor_log2_bounds(x as nat);
        if p != x {
            assert(x % p > 0 || x / p != 1);
        }
    }
    (r, p == x)
}

/// Base-2 logarithms of machine integers.
pub trait Log2 {
    /// Whether the logarithm of `self` is defined (it is not for zero).
    spec fn log2_defined(&self) -> bool;

    /// `ceil(log2(self))`.
    fn ilog2_ceil(&self) -> u32
        requires
            self.log2_defined(),
    ;
}

impl Log2 for usize {
    open spec fn log2_defined(&self) -> bool {
        *self >= 1
    }

    fn ilog2_ceil(&self) -> (r: u32)
        ensures
            r == ceil_log2(*self as nat),
    {
        let (floor, is_power_of_two) = ilog2_floor_usize(*self);
        if is_power_of_two {
            floor
        } else {
            floor + 1
        }
    }
}

/// `floor(log2(x))` of a nonzero `usize`.
pub fn ilog2_usize(x: usize) -> (r: u32)
    requires
        x >= 1,
    ensures
        r == floor_log2(x as nat),
        r < 64,
{
    let (floor, _) = ilog2_floor_usize(x);
    floor
}

} // verus!
