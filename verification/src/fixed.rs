//! Fixed-point scalars.
//!
//! Every colour channel, distance and score in this crate is an integer count
//! of millionths: `1_000_000` stands for `1.0`. The functions here are the
//! scalar building blocks the colour metrics are assembled from.

use std::cmp::Ordering;
use vstd::prelude::*;

verus! {

/// The integer that stands for `1.0`.
pub const SCALE: i64 = 1_000_000;

/// Two scalars closer than this (`1e-5`) are treated as the same value.
pub const EPSILON: i64 = 10;

/// `EPSILON` carried over to products of two scalars (`1e-5` of `SCALE * SCALE`).
pub const EPSILON_SQUARED: i64 = 10_000_000;

/// `x` and `y` differ by less than `EPSILON`.
pub open spec fn near(x: int, y: int) -> bool {
    -EPSILON < x - y < EPSILON
}

/// `x` with magnitudes below `EPSILON` flattened to zero.
pub open spec fn snap(x: int) -> int {
    if -EPSILON < x < EPSILON {
        0
    } else {
        x
    }
}

/// `x` with magnitudes below `EPSILON_SQUARED` flattened to zero.
pub open spec fn snap_squared(x: int) -> int {
    if -EPSILON_SQUARED < x < EPSILON_SQUARED {
        0
    } else {
        x
    }
}

/// Quotient rounded towards zero, for a positive divisor.
pub open spec fn div_trunc(a: int, b: int) -> int
    recommends
        b > 0,
{
    if a >= 0 {
        a / b
    } else {
        -((-a) / b)
    }
}

/// `r` is the integer square root of `n`, rounded down.
pub open spec fn is_sqrt_floor(n: nat, r: nat) -> bool {
    r * r <= n && n < (r + 1) * (r + 1)
}

/// The integer square root of `n`, rounded down.
pub open spec fn sqrt_floor(n: nat) -> nat {
    choose|r: nat| is_sqrt_floor(n, r)
}

/// Every natural number has a rounded-down square root.
pub proof fn lemma_sqrt_floor_exists(n: nat)
    ensures
        exists|r: nat| is_sqrt_floor(n, r),
    decreases n,
{
    if n == 0 {
        assert(0nat * 0nat == 0 && (0nat + 1) * (0nat + 1) == 1) by (nonlinear_arith);
        assert(is_sqrt_floor(0, 0));
    } else {
        let m = (n - 1) as nat;
        lemma_sqrt_floor_exists(m);
        let p = choose|r: nat| is_sqrt_floor(m, r);
        assert((p + 2) * (p + 2) > (p + 1) * (p + 1)) by (nonlinear_arith);
        if (p + 1) * (p + 1) <= n {
            assert(is_sqrt_floor(n, p + 1));
        } else {
            assert(is_sqrt_floor(n, p));
        }
    }
}

/// The rounded-down square root is unique, so any witness is `sqrt_floor(n)`.
pub proof fn lemma_sqrt_floor_is(n: nat, r: nat)
    requires
        is_sqrt_floor(n, r),
    ensures
        sqrt_floor(n) == r,
{
    let s = sqrt_floor(n);
    assert(is_sqrt_floor(n, s));
    assert(s == r) by (nonlinear_arith)
        requires
            r * r <= n,
            n < (r + 1) * (r + 1),
            s * s <= n,
            n < (s + 1) * (s + 1),
    {
        if s < r {
            assert((s + 1) * (s + 1) <= r * r);
        }
        if r < s {
            assert((r + 1) * (r + 1) <= s * s);
        }
    }
}

/// `sqrt_floor(n)` satisfies its defining inequalities.
pub proof fn lemma_sqrt_floor_bounds(n: nat)
    ensures
        is_sqrt_floor(n, sqrt_floor(n)),
{
    lemma_sqrt_floor_exists(n);
}

/// Integer square root, rounded down.
pub fn isqrt(n: u128) -> (r: u64)
    ensures
        r as nat == sqrt_floor(n as nat),
{
    let mut lo: u128 = 0;
    let mut hi: u128 = if n < 0x1_0000_0000 {
        0x1_0000
    } else if n < 0x1_0000_0000_0000_0000 {
        0x1_0000_0000
    } else if n < 0x1_0000_0000_0000_0000_0000_0000 {
        0x1_0000_0000_0000
    } else {
        0x1_0000_0000_0000_0000
    };
    assert(0x1_0000int * 0x1_0000int == 0x1_0000_0000int) by (nonlinear_arith);
    assert(0x1_0000_0000int * 0x1_0000_0000int == 0x1_0000_0000_0000_0000int)
        by (nonlinear_arith);
    assert(0x1_0000_0000_0000int * 0x1_0000_0000_0000int == 0x1_0000_0000_0000_0000_0000_0000int)
        by (nonlinear_arith);
    assert(0x1_0000_0000_0000_0000int * 0x1_0000_0000_0000_0000int
        == 0x1_0000_0000_0000_0000_0000_0000_0000_0000int) by (nonlinear_arith);
    while hi - lo > 1
        invariant
            lo < hi <= 0x1_0000_0000_0000_0000,
            lo * lo <= n,
            n < hi * hi,
        decreases hi - lo,
    {
        let mid: u128 = lo + (hi - lo) / 2;
        assert(mid * mid <= 0xffff_ffff_ffff_ffff * 0xffff_ffff_ffff_ffff) by (nonlinear_arith)
            requires
                0 <= mid <= 0xffff_ffff_ffff_ffff,
        ;
        assert(0xffff_ffff_ffff_ffffint * 0xffff_ffff_ffff_ffffint < 0x1_0000_0000_0000_0000_0000_0000_0000_0000int)
            by (nonlinear_arith);
        if mid * mid <= n {
            lo = mid;
        } else {
            hi = mid;
        }
    }
    proof {
        assert(hi == lo + 1);
        assert(is_sqrt_floor(n as nat, lo as nat));
        lemma_sqrt_floor_is(n as nat, lo as nat);
    }
    lo as u64
}

/// Whether two scalars are the same up to `EPSILON`.
pub fn f32_equal(x: i64, y: i64) -> (r: bool)
    ensures
        r == near(x as int, y as int),
{
    let d: i128 = (x as i128) - (y as i128);
    -(EPSILON as i128) < d && d < (EPSILON as i128)
}

/// [`near`] on machine scalars.
pub open spec fn spec_f32_equal(x: i64, y: i64) -> bool {
    -EPSILON < x - y < EPSILON
}

/// Orders two scalars, treating values closer than `EPSILON` as equal.
pub fn compare_f32(x1: i64, x2: i64) -> (r: Ordering)
    ensures
        match r {
            Ordering::Equal => spec_f32_equal(x1, x2),
            Ordering::Less => !spec_f32_equal(x1, x2) && x1 < x2,
            Ordering::Greater => !spec_f32_equal(x1, x2) && x1 > x2,
        },
{
    if f32_equal(x1, x2) {
        Ordering::Equal
    } else if x1 < x2 {
        Ordering::Less
    } else {
        Ordering::Greater
    }
}

/// `b` raised to the power `e`.
pub open spec fn power(b: int, e: nat) -> int
    decreases e,
{
    if e == 0 {
        1
    } else {
        b * power(b, (e - 1) as nat)
    }
}

/// Powers of natural numbers are natural, and positive for a positive base.
pub proof fn lemma_power_sign(b: int, e: nat)
    requires
        b >= 0,
    ensures
        power(b, e) >= 0,
        b > 0 ==> power(b, e) > 0,
    decreases e,
{
    if e > 0 {
        lemma_power_sign(b, (e - 1) as nat);
        let p = power(b, (e - 1) as nat);
        assert(b * p >= 0 && (b > 0 && p > 0 ==> b * p > 0)) by (nonlinear_arith)
            requires
                b >= 0,
                p >= 0,
        ;
    }
}

/// A larger base gives a larger power.
pub proof fn lemma_power_base_monotonic(a: int, b: int, e: nat)
    requires
        0 <= a <= b,
    ensures
        power(a, e) <= power(b, e),
        a < b && e > 0 ==> power(a, e) < power(b, e),
    decreases e,
{
    if e > 0 {
        lemma_power_base_monotonic(a, b, (e - 1) as nat);
        lemma_power_sign(a, (e - 1) as nat);
        lemma_power_sign(b, (e - 1) as nat);
        let pa = power(a, (e - 1) as nat);
        let pb = power(b, (e - 1) as nat);
        assert(a * pa <= b * pb && (a < b ==> a * pa < b * pb)) by (nonlinear_arith)
            requires
                0 <= a <= b,
                0 <= pa <= pb,
                b > 0 ==> pb > 0,
        {
            assert(a * pa <= a * pb);
            assert(a * pb <= b * pb);
            if a < b {
                assert(a * pb < b * pb);
            }
        }
    }
}

/// A larger exponent does not shrink the power of a positive base.
pub proof fn lemma_power_exponent_monotonic(b: int, e1: nat, e2: nat)
    requires
        b >= 1,
        e1 <= e2,
    ensures
        power(b, e1) <= power(b, e2),
    decreases e2,
{
    if e1 < e2 {
        lemma_power_exponent_monotonic(b, e1, (e2 - 1) as nat);
        lemma_power_sign(b, (e2 - 1) as nat);
        let p = power(b, (e2 - 1) as nat);
        assert(b * p >= p) by (nonlinear_arith)
            requires
                b >= 1,
                p >= 0,
        ;
    }
}

/// The power of a product is the product of the powers.
pub proof fn lemma_power_product(a: int, b: int, e: nat)
    ensures
        power(a * b, e) == power(a, e) * power(b, e),
    decreases e,
{
    if e > 0 {
        lemma_power_product(a, b, (e - 1) as nat);
        let pa = power(a, (e - 1) as nat);
        let pb = power(b, (e - 1) as nat);
        assert((a * b) * (pa * pb) == (a * pa) * (b * pb)) by (nonlinear_arith);
    }
}

/// Powers of one base multiply by adding their exponents.
pub proof fn lemma_power_sum(a: int, e1: nat, e2: nat)
    ensures
        power(a, e1 + e2) == power(a, e1) * power(a, e2),
    decreases e1,
{
    if e1 > 0 {
        lemma_power_sum(a, (e1 - 1) as nat, e2);
        let head = power(a, (e1 - 1) as nat);
        let tail = power(a, e2);
        assert(power(a, e1 + e2) == a * power(a, (e1 - 1 + e2) as nat));
        assert(a * (head * tail) == (a * head) * tail) by (nonlinear_arith);
    }
}

/// A power of a power multiplies the exponents.
pub proof fn lemma_power_power(a: int, e1: nat, e2: nat)
    ensures
        power(power(a, e1), e2) == power(a, e1 * e2),
    decreases e2,
{
    if e2 > 0 {
        lemma_power_power(a, e1, (e2 - 1) as nat);
        assert(e1 * e2 == e1 + e1 * (e2 - 1)) by (nonlinear_arith);
        assert(e1 * (e2 - 1) >= 0) by (nonlinear_arith)
            requires
                e1 >= 0,
                e2 >= 1,
        ;
        lemma_power_sum(a, e1, (e1 * (e2 - 1)) as nat);
    } else {
        assert(e1 * e2 == 0) by (nonlinear_arith)
            requires
                e2 == 0,
        ;
    }
}

/// Bernoulli's inequality: `(u + d)^n` is at least `u^(n-1) * (u + n * d)`.
pub proof fn lemma_power_bernoulli(u: int, d: int, n: nat)
    requires
        u >= 0,
        d >= 0,
        n >= 1,
    ensures
        power(u + d, n) >= power(u, (n - 1) as nat) * (u + n * d),
    decreases n,
{
    if n == 1 {
        assert(power(u + d, 1) == (u + d) * power(u + d, 0));
        assert(power(u, 0) == 1);
    } else {
        let m = (n - 1) as nat;
        lemma_power_bernoulli(u, d, m);
        let q = power(u, (m - 1) as nat);
        let big = power(u + d, m);
        lemma_power_sign(u, (m - 1) as nat);
        assert(power(u, m) == u * q);
        assert(power(u + d, n) == (u + d) * big);
        assert((u + d) * big >= (u * q) * (u + n * d)) by (nonlinear_arith)
            requires
                big >= q * (u + m * d),
                m + 1 == n,
                u >= 0,
                d >= 0,
                q >= 0,
                m >= 1,
        {
            assert((u + d) * big >= (u + d) * (q * (u + m * d)));
            assert((u + d) * (u + m * d) >= u * (u + n * d));
            assert((u + d) * (q * (u + m * d)) == q * ((u + d) * (u + m * d)));
            assert(q * ((u + d) * (u + m * d)) >= q * (u * (u + n * d)));
            assert(q * (u * (u + n * d)) == (u * q) * (u + n * d));
        }
    }
}

/// Raising `w + 1` instead of `w` to the power `n` gains less than a
/// factor of `w / (w - n)`.
pub proof fn lemma_power_slack(w: int, n: nat)
    requires
        w >= n,
    ensures
        power(w + 1, n) * (w - n) <= power(w, n) * w,
    decreases n,
{
    if n == 0 {
    } else {
        let m = (n - 1) as nat;
        lemma_power_slack(w, m);
        let hi = power(w + 1, m);
        let lo = power(w, m);
        lemma_power_sign(w + 1, m);
        lemma_power_sign(w, m);
        assert(power(w + 1, n) == (w + 1) * hi);
        assert(power(w, n) == w * lo);
        assert(((w + 1) * hi) * (w - n) <= (w * lo) * w) by (nonlinear_arith)
            requires
                hi * (w - m) <= lo * w,
                m + 1 == n,
                w >= n,
                hi >= 0,
                lo >= 0,
        {
            assert((w + 1) * (w - n) <= w * (w - m));
            assert(((w + 1) * hi) * (w - n) == hi * ((w + 1) * (w - n)));
            assert(hi * ((w + 1) * (w - n)) <= hi * (w * (w - m)));
            assert(hi * (w * (w - m)) == w * (hi * (w - m)));
            assert(w * (hi * (w - m)) <= w * (lo * w));
            assert(w * (lo * w) == (w * lo) * w);
        }
    }
}

/// `r` is the `k`-th root of `n`, rounded down.
pub open spec fn is_root_floor(n: nat, k: nat, r: nat) -> bool {
    power(r as int, k) <= n && n < power(r as int + 1, k)
}

/// The `k`-th root of `n`, rounded down.
pub open spec fn root_floor(n: nat, k: nat) -> nat
    recommends
        k >= 1,
{
    choose|r: nat| is_root_floor(n, k, r)
}

/// Every natural number has a rounded-down `k`-th root, for `k` at least one.
pub proof fn lemma_root_floor_exists(n: nat, k: nat)
    requires
        k >= 1,
    ensures
        is_root_floor(n, k, root_floor(n, k)),
    decreases n,
{
    if n == 0 {
        lemma_power_of_zero(k);
        lemma_power_sign(1, k);
        assert(is_root_floor(0, k, 0));
    } else {
        let m = (n - 1) as nat;
        lemma_root_floor_exists(m, k);
        let p = root_floor(m, k);
        lemma_power_base_monotonic(p as int + 1, p as int + 2, k);
        if power(p as int + 1, k) <= n {
            assert(is_root_floor(n, k, p + 1));
        } else {
            assert(is_root_floor(n, k, p));
        }
    }
}

/// The rounded-down root is unique, so any witness is `root_floor(n, k)`.
pub proof fn lemma_root_floor_is(n: nat, k: nat, r: nat)
    requires
        k >= 1,
        is_root_floor(n, k, r),
    ensures
        root_floor(n, k) == r,
{
    let s = root_floor(n, k);
    assert(is_root_floor(n, k, s));
    if s < r {
        lemma_power_base_monotonic(s as int + 1, r as int, k);
    }
    if r < s {
        lemma_power_base_monotonic(r as int + 1, s as int, k);
    }
}

/// `base` raised to the power `k`, for a base whose power is known to fit.
fn raise(base: u128, k: u32, limit: u128) -> (p: u128)
    requires
        base <= limit,
        power(limit as int, k as nat) <= u128::MAX,
    ensures
        p == power(base as int, k as nat),
{
    let mut acc: u128 = 1;
    let mut i: u32 = 0;
    while i < k
        invariant
            i <= k,
            base <= limit,
            power(limit as int, k as nat) <= u128::MAX,
            acc == power(base as int, i as nat),
        decreases k - i,
    {
        proof {
            lemma_power_base_monotonic(base as int, limit as int, (i + 1) as nat);
            if limit >= 1 {
                lemma_power_exponent_monotonic(limit as int, (i + 1) as nat, k as nat);
            } else {
                lemma_power_of_zero((i + 1) as nat);
            }
            assert(power(base as int, (i + 1) as nat) == base * power(base as int, i as nat));
            assert(base * acc == acc * base) by (nonlinear_arith);
        }
        acc = acc * base;
        i += 1;
    }
    acc
}

/// Zero to the power zero is one; zero to any other power is zero.
pub proof fn lemma_power_of_zero(k: nat)
    ensures
        power(0, k) == if k == 0 {
            1int
        } else {
            0int
        },
{
    if k > 0 {
        assert(power(0, k) == 0 * power(0, (k - 1) as nat));
    }
}

/// The `k`-th root of `n`, rounded down, searched for below `limit`.
pub fn iroot(n: u128, k: u32, limit: u64) -> (r: u64)
    requires
        k >= 1,
        n < power(limit as int, k as nat),
        power(limit as int, k as nat) <= u128::MAX,
    ensures
        r as nat == root_floor(n as nat, k as nat),
        is_root_floor(n as nat, k as nat, r as nat),
        r < limit,
{
    let mut lo: u64 = 0;
    let mut hi: u64 = limit;
    proof {
        lemma_power_of_zero(k as nat);
    }
    while hi - lo > 1
        invariant
            k >= 1,
            lo < hi <= limit,
            power(limit as int, k as nat) <= u128::MAX,
            power(lo as int, k as nat) <= n,
            n < power(hi as int, k as nat),
        decreases hi - lo,
    {
        let mid: u64 = lo + (hi - lo) / 2;
        if raise(mid as u128, k, limit as u128) <= n {
            lo = mid;
        } else {
            hi = mid;
        }
    }
    proof {
        assert(hi == lo + 1);
        assert(is_root_floor(n as nat, k as nat, lo as nat));
        lemma_root_floor_is(n as nat, k as nat, lo as nat);
    }
    lo
}

} // verus!
