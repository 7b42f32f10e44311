//! Why decoding an intensity and encoding it again lands close to where it
//! started.
//!
//! Every root on the way is rounded down, so the round trip can only lose.
//! How much it can lose is bounded by following the rounding errors through
//! the twelfth power of the encoded value, where both directions of the
//! curve meet in whole numbers.

use vstd::prelude::*;
use crate::fixed::{
    lemma_power_base_monotonic, lemma_power_bernoulli, lemma_power_power, lemma_power_product,
    lemma_power_sign, lemma_power_slack, lemma_power_sum, lemma_root_floor_exists,
    lemma_sqrt_floor_bounds, power, root_floor, sqrt_floor,
};
use crate::transfer::{
    spec_compress, spec_expand, spec_linear_to_srgb, spec_srgb_to_linear, spec_twelfth_root,
};

verus! {

/// Multiplying both sides of an inequality by a non-negative number keeps it.
proof fn lemma_scale(a: int, b: int, c: int)
    requires
        a <= b,
        c >= 0,
    ensures
        a * c <= b * c,
        c * a <= c * b,
{
    assert(a * c <= b * c && c * a <= c * b) by (nonlinear_arith)
        requires
            a <= b,
            c >= 0,
    ;
}

/// Multiplying both sides of a strict inequality by a positive number keeps it.
proof fn lemma_scale_strict(a: int, b: int, c: int)
    requires
        a < b,
        c > 0,
    ensures
        a * c < b * c,
        c * a < c * b,
{
    assert(a * c < b * c && c * a < c * b) by (nonlinear_arith)
        requires
            a < b,
            c > 0,
    ;
}

/// A positive common factor can be dropped from both sides of an inequality.
proof fn lemma_cancel(a: int, b: int, c: int)
    requires
        c > 0,
    ensures
        a * c <= b * c ==> a <= b,
        a * c < b * c ==> a < b,
{
    assert((a * c <= b * c ==> a <= b) && (a * c < b * c ==> a < b)) by (nonlinear_arith)
        requires
            c > 0,
    ;
}

/// The powers of one million that the fixed-point formulas are written with.
proof fn lemma_unit_powers()
    ensures
        power(1_000_000, 1) == 1_000_000,
        power(1_000_000, 2) == 1_000_000_000_000,
        power(1_000_000, 3) == 1_000_000_000_000_000_000,
        power(1_000_000, 4) == 1_000_000_000_000_000_000_000_000,
{
    reveal_with_fuel(power, 5);
    assert(1_000_000int * (1_000_000int * 1) == 1_000_000_000_000) by (nonlinear_arith);
    assert(1_000_000int * (1_000_000int * (1_000_000int * 1)) == 1_000_000_000_000_000_000)
        by (nonlinear_arith);
    assert(1_000_000int * (1_000_000int * (1_000_000int * (1_000_000int * 1)))
        == 1_000_000_000_000_000_000_000_000) by (nonlinear_arith);
}

/// Rounding down at every step, the twelfth root of the expanded value,
/// raised to the fifth power, cannot exceed the value that was expanded.
proof fn lemma_round_trip_upper(t: int, v: int, y: int, a: int, b: int, r: int)
    requires
        t >= 0,
        v >= 0,
        y >= 0,
        a >= 0,
        b >= 0,
        r >= 0,
        power(v, 5) <= t * t * 1_000_000_000_000_000_000,
        y * 1_000_000_000_000 <= t * t * v,
        a * a <= y * 1_000_000,
        b * b <= a * 1_000_000,
        power(r, 3) <= b * 1_000_000_000_000,
    ensures
        power(r, 5) <= t * 1_000_000_000_000_000_000_000_000,
{
    let s = 1_000_000int;
    let s2 = power(s, 2);
    let s3 = power(s, 3);
    let s4 = power(s, 4);
    let s7 = power(s, 7);
    let s8 = power(s, 8);
    let s10 = power(s, 10);
    let s11 = power(s, 11);
    let s48 = power(s, 48);
    let s55 = power(s, 55);
    lemma_unit_powers();
    lemma_power_sign(s, 3);
    lemma_power_sign(s, 7);
    lemma_power_sign(s, 8);
    lemma_power_sign(s, 11);
    lemma_power_sign(s, 48);
    let r12 = power(r, 12);
    let r60 = power(r, 60);
    let b4 = power(b, 4);
    let a2 = a * a;
    let y5 = power(y, 5);
    let v5 = power(v, 5);
    let tt = t * t;
    let t10 = power(t, 10);
    let t12 = power(t, 12);
    lemma_power_sign(r, 3);
    lemma_power_sign(r, 12);
    lemma_power_sign(b, 4);
    lemma_power_sign(y, 5);
    lemma_power_sign(v, 5);
    lemma_power_sign(t, 10);
    lemma_power_sign(t, 12);
    assert(tt >= 0) by (nonlinear_arith)
        requires
            tt == t * t,
    ;
    assert(a2 >= 0) by (nonlinear_arith)
        requires
            a2 == a * a,
    ;
    // r^12 <= b^4 * s^8
    assert(r12 <= b4 * s8) by {
        lemma_power_base_monotonic(power(r, 3), b * s2, 4);
        lemma_power_power(r, 3, 4);
        lemma_power_product(b, s2, 4);
        lemma_power_power(s, 2, 4);
    }
    // b^4 <= a^2 * s^2
    assert(b4 <= a2 * s2) by {
        assert(power(b, 2) == b * b) by {
            reveal_with_fuel(power, 3);
        }
        assert(power(a, 2) == a * a) by {
            reveal_with_fuel(power, 3);
        }
        assert(b * b >= 0) by (nonlinear_arith);
        lemma_power_base_monotonic(b * b, a * s, 2);
        lemma_power_power(b, 2, 2);
        lemma_power_product(a, s, 2);
    }
    // r^12 <= y * s^11
    assert(r12 <= y * s11) by {
        lemma_scale(b4, a2 * s2, s8);
        lemma_scale(a2, y * s, s2);
        lemma_scale(a2 * s2, (y * s) * s2, s8);
        lemma_power_sum(s, 1, 2);
        lemma_power_sum(s, 3, 8);
        assert(((y * s) * s2) * s8 == y * ((s * s2) * s8)) by (nonlinear_arith);
    }
    // r^60 <= y^5 * s^55
    assert(r60 <= y5 * s55) by {
        assert(y * s11 >= 0) by (nonlinear_arith)
            requires
                y >= 0,
                s11 >= 0,
        ;
        lemma_power_base_monotonic(r12, y * s11, 5);
        lemma_power_power(r, 12, 5);
        lemma_power_product(y, s11, 5);
        lemma_power_power(s, 11, 5);
    }
    // y^5 * s^7 <= t^12
    assert(y5 * s7 <= t12) by {
        assert(y * s2 >= 0 && tt * v >= 0) by (nonlinear_arith)
            requires
                y >= 0,
                s2 >= 0,
                tt >= 0,
                v >= 0,
        ;
        lemma_power_base_monotonic(y * s2, tt * v, 5);
        lemma_power_product(y, s2, 5);
        lemma_power_power(s, 2, 5);
        lemma_power_product(tt, v, 5);
        assert(power(t, 2) == tt) by {
            reveal_with_fuel(power, 3);
        }
        lemma_power_power(t, 2, 5);
        // y5 * s10 <= t10 * v5 <= t10 * (tt * s3)
        lemma_scale(v5, tt * s3, t10);
        lemma_power_sum(t, 10, 2);
        lemma_power_sum(s, 7, 3);
        assert(t10 * (tt * s3) == (t10 * tt) * s3) by (nonlinear_arith);
        assert(y5 * (s7 * s3) == (y5 * s7) * s3) by (nonlinear_arith);
        lemma_cancel(y5 * s7, t12, s3);
    }
    // r^60 <= t^12 * s^48
    assert(r60 <= t12 * s48) by {
        lemma_power_sum(s, 7, 48);
        lemma_scale(y5 * s7, t12, s48);
        assert(y5 * (s7 * s48) == (y5 * s7) * s48) by (nonlinear_arith);
    }
    if power(r, 5) > t * s4 {
        assert(t * s4 >= 0) by (nonlinear_arith)
            requires
                t >= 0,
                s4 >= 0,
        ;
        lemma_power_base_monotonic(t * s4, power(r, 5), 12);
        lemma_power_power(r, 5, 12);
        lemma_power_product(t, s4, 12);
        lemma_power_power(s, 4, 12);
        assert(false);
    }
}

/// What rounding a root down costs: if `w` is at least `wl` and the `n`-th
/// power of `w + 1` exceeds `m`, then the `n`-th power of `w`, enlarged by
/// the factor `((wl + 1) / wl)^n`, exceeds `m` too.
proof fn lemma_root_slack(w: int, wl: int, n: nat, m: int)
    requires
        w >= wl >= 1,
        m >= 0,
        power(w + 1, n) > m,
    ensures
        power(w, n) * power(wl + 1, n) > m * power(wl, n),
        power(w, n) >= 0,
        power(wl + 1, n) > 0,
        power(wl, n) > 0,
{
    lemma_power_sign(w, n);
    lemma_power_sign(wl + 1, n);
    lemma_power_sign(wl, n);
    assert(0 <= (w + 1) * wl <= w * (wl + 1)) by (nonlinear_arith)
        requires
            w >= wl >= 1,
    ;
    lemma_power_base_monotonic((w + 1) * wl, w * (wl + 1), n);
    lemma_power_product(w + 1, wl, n);
    lemma_power_product(w, wl + 1, n);
    lemma_scale_strict(m, power(w + 1, n), power(wl, n));
}

/// The backward half of the round trip, with its rounding losses made
/// explicit: the twelfth power of the root that comes out is, up to the
/// slack factors of the three roots taken, at least `y * 10^66`.
proof fn lemma_backward_slack(y: int, a: int, b: int, r: int, al: int, bl: int, rl: int)
    requires
        y >= 0,
        a >= al >= 1,
        b >= bl >= 1,
        r >= rl >= 1,
        y * 1_000_000 < power(a + 1, 2),
        a * 1_000_000 < power(b + 1, 2),
        b * 1_000_000_000_000 < power(r + 1, 3),
    ensures
        power(r, 12) * (power(rl + 1, 12) * power(bl + 1, 4) * power(al + 1, 2)) > (y * power(
            1_000_000,
            11,
        )) * (power(rl, 12) * power(bl, 4) * power(al, 2)),
{
    let s = 1_000_000int;
    let s2 = power(s, 2);
    let s3 = power(s, 3);
    let s8 = power(s, 8);
    let s11 = power(s, 11);
    lemma_unit_powers();
    lemma_power_sign(s, 3);
    lemma_power_sign(s, 8);
    lemma_power_sign(s, 11);
    let a2 = power(a, 2);
    let ka2 = power(al + 1, 2);
    let la2 = power(al, 2);
    let b2 = power(b, 2);
    let kb2 = power(bl + 1, 2);
    let lb2 = power(bl, 2);
    let b4 = power(b, 4);
    let kb4 = power(bl + 1, 4);
    let lb4 = power(bl, 4);
    let r3 = power(r, 3);
    let kr3 = power(rl + 1, 3);
    let lr3 = power(rl, 3);
    let r12 = power(r, 12);
    let kr12 = power(rl + 1, 12);
    let lr12 = power(rl, 12);
    // a^2 * Ka^2 > y * s * La^2
    assert(y * s >= 0) by (nonlinear_arith)
        requires
            y >= 0,
            s == 1_000_000,
    ;
    lemma_root_slack(a, al, 2, y * s);
    // b^2 * Kb^2 > a * s * Lb^2
    lemma_root_slack(b, bl, 2, a * s);
    // r^3 * Kr^3 > b * s2 * Lr^3
    lemma_root_slack(r, rl, 3, b * s2);
    lemma_power_sign(bl + 1, 4);
    lemma_power_sign(bl, 4);
    lemma_power_sign(rl + 1, 12);
    lemma_power_sign(rl, 12);
    lemma_power_sign(b, 4);
    lemma_power_sign(r, 12);
    // b^4 * Kb^4 > a^2 * s^2 * Lb^4
    assert(b4 * kb4 > (a2 * s2) * lb4) by {
        assert((a * s) * lb2 >= 0) by (nonlinear_arith)
            requires
                a >= 0,
                s == 1_000_000,
                lb2 > 0,
        ;
        lemma_power_base_monotonic((a * s) * lb2, b2 * kb2, 2);
        lemma_power_product(b2, kb2, 2);
        lemma_power_power(b, 2, 2);
        lemma_power_power(bl + 1, 2, 2);
        lemma_power_product(a * s, lb2, 2);
        lemma_power_product(a, s, 2);
        lemma_power_power(bl, 2, 2);
    }
    // b^4 * Kb^4 * Ka^2 > y * s^3 * La^2 * Lb^4
    assert((b4 * kb4) * ka2 > ((y * s3) * la2) * lb4) by {
        lemma_scale_strict((a2 * s2) * lb4, b4 * kb4, ka2);
        assert(s2 * lb4 > 0) by (nonlinear_arith)
            requires
                s2 > 0,
                lb4 > 0,
        ;
        lemma_scale_strict((y * s) * la2, a2 * ka2, s2 * lb4);
        assert(((a2 * s2) * lb4) * ka2 == (a2 * ka2) * (s2 * lb4)) by (nonlinear_arith);
        lemma_power_sum(s, 1, 2);
        assert(((y * s) * la2) * (s2 * lb4) == ((y * (s * s2)) * la2) * lb4) by (nonlinear_arith);
    }
    // r^12 * Kr^12 > b^4 * s^8 * Lr^12
    assert(r12 * kr12 > (b4 * s8) * lr12) by {
        assert((b * s2) * lr3 >= 0) by (nonlinear_arith)
            requires
                b >= 0,
                s2 > 0,
                lr3 > 0,
        ;
        lemma_power_base_monotonic((b * s2) * lr3, r3 * kr3, 4);
        lemma_power_product(r3, kr3, 4);
        lemma_power_power(r, 3, 4);
        lemma_power_power(rl + 1, 3, 4);
        lemma_power_product(b * s2, lr3, 4);
        lemma_power_product(b, s2, 4);
        lemma_power_power(s, 2, 4);
        lemma_power_power(rl, 3, 4);
    }
    // join the two
    let kf = kr12 * kb4 * ka2;
    let lf = lr12 * lb4 * la2;
    assert(r12 * kf > (y * s11) * lf) by {
        assert(kb4 * ka2 > 0) by (nonlinear_arith)
            requires
                kb4 > 0,
                ka2 > 0,
        ;
        lemma_scale_strict((b4 * s8) * lr12, r12 * kr12, kb4 * ka2);
        assert(s8 * lr12 > 0) by (nonlinear_arith)
            requires
                s8 > 0,
                lr12 > 0,
        ;
        lemma_scale_strict(((y * s3) * la2) * lb4, (b4 * kb4) * ka2, s8 * lr12);
        assert(((b4 * s8) * lr12) * (kb4 * ka2) == ((b4 * kb4) * ka2) * (s8 * lr12))
            by (nonlinear_arith);
        assert((r12 * kr12) * (kb4 * ka2) == r12 * (kr12 * kb4 * ka2)) by (nonlinear_arith);
        lemma_power_sum(s, 3, 8);
        assert((((y * s3) * la2) * lb4) * (s8 * lr12) == (y * (s3 * s8)) * (lr12 * lb4 * la2))
            by (nonlinear_arith);
    }
}

/// The forward half of the round trip, with its rounding losses made
/// explicit: the fifth power of the expanded value is, up to the slack
/// factors of the root and the division, at least `t^12 / 10^42`.
proof fn lemma_forward_slack(t: int, v: int, y: int, vl: int, yl: int)
    requires
        t >= 1,
        v >= vl >= 1,
        y >= yl >= 1,
        t * t * 1_000_000_000_000_000_000 < power(v + 1, 5),
        t * t * v < (y + 1) * 1_000_000_000_000,
    ensures
        (power(y, 5) * (power(yl + 1, 5) * power(vl + 1, 5))) * power(1_000_000, 7) > power(t, 12)
            * (power(yl, 5) * power(vl, 5)),
{
    let s = 1_000_000int;
    let s2 = power(s, 2);
    let s3 = power(s, 3);
    let s7 = power(s, 7);
    let s10 = power(s, 10);
    lemma_unit_powers();
    lemma_power_sign(s, 3);
    lemma_power_sign(s, 7);
    lemma_power_sign(s, 10);
    let tt = t * t;
    let t10 = power(t, 10);
    let t12 = power(t, 12);
    let v5 = power(v, 5);
    let kv5 = power(vl + 1, 5);
    let lv5 = power(vl, 5);
    let y5 = power(y, 5);
    let ky5 = power(yl + 1, 5);
    let ly5 = power(yl, 5);
    lemma_power_sign(t, 10);
    lemma_power_sign(t, 12);
    lemma_power_sign(y, 5);
    lemma_power_sign(yl + 1, 5);
    lemma_power_sign(yl, 5);
    assert(tt >= 1) by (nonlinear_arith)
        requires
            tt == t * t,
            t >= 1,
    ;
    assert(tt * s3 >= 0) by (nonlinear_arith)
        requires
            tt >= 1,
            s3 > 0,
    ;
    // v^5 * Kv^5 > t^2 * s^3 * Lv^5
    lemma_root_slack(v, vl, 5, tt * s3);
    // y * Ky * s2 > t^2 * v * yl
    let more = (y * (yl + 1)) * s2;
    let less = (tt * v) * yl;
    assert(more > less && less >= 0) by (nonlinear_arith)
        requires
            more == (y * (yl + 1)) * s2,
            less == (tt * v) * yl,
            tt * v < (y + 1) * s2,
            y >= yl >= 1,
            s2 > 0,
            tt >= 1,
            v >= 1,
    {
        assert((tt * v) * yl < ((y + 1) * s2) * yl);
        assert((y + 1) * yl <= y * (yl + 1));
        assert(((y + 1) * yl) * s2 <= (y * (yl + 1)) * s2);
        assert(((y + 1) * s2) * yl == ((y + 1) * yl) * s2);
    }
    // (y^5 * Ky^5) * s^10 > (t^10 * v^5) * Ly^5
    assert((y5 * ky5) * s10 > (t10 * v5) * ly5) by {
        lemma_power_base_monotonic(less, more, 5);
        lemma_power_product(y * (yl + 1), s2, 5);
        lemma_power_product(y, yl + 1, 5);
        lemma_power_power(s, 2, 5);
        lemma_power_product(tt * v, yl, 5);
        lemma_power_product(tt, v, 5);
        assert(power(t, 2) == tt) by {
            reveal_with_fuel(power, 3);
        }
        lemma_power_power(t, 2, 5);
    }
    assert(t10 * ly5 > 0) by (nonlinear_arith)
        requires
            t10 > 0,
            ly5 > 0,
    ;
    assert(power(t, 2) == tt) by {
        reveal_with_fuel(power, 3);
    }
    lemma_power_sum(t, 10, 2);
    lemma_power_sum(s, 7, 3);
    let x1 = ((y5 * ky5) * s10) * kv5;
    let x2 = ((t10 * v5) * ly5) * kv5;
    let x3 = ((tt * s3) * lv5) * (t10 * ly5);
    lemma_scale_strict((t10 * v5) * ly5, (y5 * ky5) * s10, kv5);
    assert(x2 < x1);
    lemma_scale_strict((tt * s3) * lv5, v5 * kv5, t10 * ly5);
    assert(x2 == (v5 * kv5) * (t10 * ly5)) by (nonlinear_arith)
        requires
            x2 == ((t10 * v5) * ly5) * kv5,
    ;
    assert(x3 < x2);
    assert(x3 == ((t10 * tt) * (ly5 * lv5)) * s3) by (nonlinear_arith)
        requires
            x3 == ((tt * s3) * lv5) * (t10 * ly5),
    ;
    assert(x1 == ((y5 * (ky5 * kv5)) * s7) * s3) by (nonlinear_arith)
        requires
            x1 == ((y5 * ky5) * s10) * kv5,
            s10 == s7 * s3,
    ;
    assert(t12 == t10 * tt);
    lemma_cancel(t12 * (ly5 * lv5), (y5 * (ky5 * kv5)) * s7, s3);
}

/// The product of the slack factors of all five roundings, as a numerator.
pub open spec fn slack_high(vl: int, yl: int, al: int, bl: int, rl: int) -> int {
    ((power(rl + 1, 60) * power(bl + 1, 20)) * power(al + 1, 10)) * (power(yl + 1, 5) * power(
        vl + 1,
        5,
    ))
}

/// The product of the slack factors of all five roundings, as a denominator.
pub open spec fn slack_low(vl: int, yl: int, al: int, bl: int, rl: int) -> int {
    ((power(rl, 60) * power(bl, 20)) * power(al, 10)) * (power(yl, 5) * power(vl, 5))
}

/// Both halves of the round trip joined: the sixtieth power of the root that
/// comes out, enlarged by all the slack, exceeds `t^12 * 10^288`.
proof fn lemma_joined_slack(
    t: int,
    v: int,
    y: int,
    a: int,
    b: int,
    r: int,
    vl: int,
    yl: int,
    al: int,
    bl: int,
    rl: int,
)
    requires
        t >= 1,
        v >= vl >= 1,
        y >= yl >= 1,
        a >= al >= 1,
        b >= bl >= 1,
        r >= rl >= 1,
        t * t * 1_000_000_000_000_000_000 < power(v + 1, 5),
        t * t * v < (y + 1) * 1_000_000_000_000,
        y * 1_000_000 < power(a + 1, 2),
        a * 1_000_000 < power(b + 1, 2),
        b * 1_000_000_000_000 < power(r + 1, 3),
    ensures
        power(r, 60) * slack_high(vl, yl, al, bl, rl) > (power(t, 12) * power(1_000_000, 48))
            * slack_low(vl, yl, al, bl, rl),
        slack_high(vl, yl, al, bl, rl) > 0,
        slack_low(vl, yl, al, bl, rl) > 0,
{
    let s = 1_000_000int;
    let s7 = power(s, 7);
    let s11 = power(s, 11);
    let s48 = power(s, 48);
    let s55 = power(s, 55);
    lemma_power_sign(s, 7);
    lemma_power_sign(s, 11);
    lemma_power_sign(s, 48);
    lemma_power_sign(s, 55);
    let r12 = power(r, 12);
    let r60 = power(r, 60);
    let y5 = power(y, 5);
    let t12 = power(t, 12);
    lemma_power_sign(r, 12);
    lemma_power_sign(r, 60);
    lemma_power_sign(y, 5);
    lemma_power_sign(t, 12);
    let kr12 = power(rl + 1, 12);
    let kb4 = power(bl + 1, 4);
    let ka2 = power(al + 1, 2);
    let lr12 = power(rl, 12);
    let lb4 = power(bl, 4);
    let la2 = power(al, 2);
    let kf = kr12 * kb4 * ka2;
    let lf = lr12 * lb4 * la2;
    let kr60 = power(rl + 1, 60);
    let kb20 = power(bl + 1, 20);
    let ka10 = power(al + 1, 10);
    let lr60 = power(rl, 60);
    let lb20 = power(bl, 20);
    let la10 = power(al, 10);
    let kyv = power(yl + 1, 5) * power(vl + 1, 5);
    let lyv = power(yl, 5) * power(vl, 5);
    lemma_power_sign(rl + 1, 12);
    lemma_power_sign(bl + 1, 4);
    lemma_power_sign(al + 1, 2);
    lemma_power_sign(rl, 12);
    lemma_power_sign(bl, 4);
    lemma_power_sign(al, 2);
    lemma_power_sign(rl + 1, 60);
    lemma_power_sign(bl + 1, 20);
    lemma_power_sign(al + 1, 10);
    lemma_power_sign(rl, 60);
    lemma_power_sign(bl, 20);
    lemma_power_sign(al, 10);
    lemma_power_sign(yl + 1, 5);
    lemma_power_sign(vl + 1, 5);
    lemma_power_sign(yl, 5);
    lemma_power_sign(vl, 5);
    let kf5 = (kr60 * kb20) * ka10;
    let lf5 = (lr60 * lb20) * la10;
    assert(kf5 > 0 && lf5 > 0 && kyv > 0 && lyv > 0 && kf > 0 && lf > 0) by (nonlinear_arith)
        requires
            kf5 == (kr60 * kb20) * ka10,
            lf5 == (lr60 * lb20) * la10,
            kr60 > 0,
            kb20 > 0,
            ka10 > 0,
            lr60 > 0,
            lb20 > 0,
            la10 > 0,
            kyv == power(yl + 1, 5) * power(vl + 1, 5),
            lyv == power(yl, 5) * power(vl, 5),
            power(yl + 1, 5) > 0,
            power(vl + 1, 5) > 0,
            power(yl, 5) > 0,
            power(vl, 5) > 0,
            kf == kr12 * kb4 * ka2,
            lf == lr12 * lb4 * la2,
            kr12 > 0,
            kb4 > 0,
            ka2 > 0,
            lr12 > 0,
            lb4 > 0,
            la2 > 0,
    ;
    assert(slack_high(vl, yl, al, bl, rl) == kf5 * kyv);
    assert(slack_low(vl, yl, al, bl, rl) == lf5 * lyv);
    assert(kf5 * kyv > 0 && lf5 * lyv > 0) by (nonlinear_arith)
        requires
            kf5 > 0,
            kyv > 0,
            lf5 > 0,
            lyv > 0,
    ;
    lemma_backward_slack(y, a, b, r, al, bl, rl);
    lemma_forward_slack(t, v, y, vl, yl);
    // the fifth power of the backward half
    assert(power(kf, 5) == kf5) by {
        lemma_power_product(kr12 * kb4, ka2, 5);
        lemma_power_product(kr12, kb4, 5);
        lemma_power_power(rl + 1, 12, 5);
        lemma_power_power(bl + 1, 4, 5);
        lemma_power_power(al + 1, 2, 5);
    }
    assert(power(lf, 5) == lf5) by {
        lemma_power_product(lr12 * lb4, la2, 5);
        lemma_power_product(lr12, lb4, 5);
        lemma_power_power(rl, 12, 5);
        lemma_power_power(bl, 4, 5);
        lemma_power_power(al, 2, 5);
    }
    assert(r60 * kf5 > (y5 * s55) * lf5) by {
        assert((y * s11) * lf >= 0) by (nonlinear_arith)
            requires
                y >= 1,
                s11 > 0,
                lf > 0,
        ;
        lemma_power_base_monotonic((y * s11) * lf, r12 * kf, 5);
        lemma_power_product(r12, kf, 5);
        lemma_power_power(r, 12, 5);
        lemma_power_product(y * s11, lf, 5);
        lemma_power_product(y, s11, 5);
        lemma_power_power(s, 11, 5);
    }
    // join with the forward half
    lemma_power_sum(s, 7, 48);
    let x1 = (r60 * kf5) * kyv;
    let x2 = ((y5 * s55) * lf5) * kyv;
    let x3 = (t12 * lyv) * (s48 * lf5);
    lemma_scale_strict((y5 * s55) * lf5, r60 * kf5, kyv);
    assert(x2 < x1);
    assert(s48 * lf5 > 0) by (nonlinear_arith)
        requires
            s48 > 0,
            lf5 > 0,
    ;
    lemma_scale_strict(t12 * lyv, (y5 * kyv) * s7, s48 * lf5);
    assert(x2 == ((y5 * kyv) * s7) * (s48 * lf5)) by (nonlinear_arith)
        requires
            x2 == ((y5 * s55) * lf5) * kyv,
            s55 == s7 * s48,
    ;
    assert(x3 < x2);
    assert(x1 == r60 * (kf5 * kyv)) by (nonlinear_arith)
        requires
            x1 == (r60 * kf5) * kyv,
    ;
    assert(x3 == (t12 * s48) * (lf5 * lyv)) by (nonlinear_arith)
        requires
            x3 == (t12 * lyv) * (s48 * lf5),
    ;
}

/// All the slack together is less than the product of the factors
/// `w / (w - n)`, one for each rounding: `n` is how often the rounded value
/// enters the sixtieth power, `w` a lower bound of the rounded value.
proof fn lemma_slack_product(vl: int, yl: int, al: int, bl: int, rl: int)
    requires
        vl > 5,
        yl > 5,
        al > 10,
        bl > 20,
        rl > 60,
    ensures
        slack_high(vl, yl, al, bl, rl) * (((((rl - 60) * (bl - 20)) * (al - 10)) * (yl - 5)) * (vl
            - 5)) <= slack_low(vl, yl, al, bl, rl) * ((((rl * bl) * al) * yl) * vl),
{
    let kr = power(rl + 1, 60);
    let kb = power(bl + 1, 20);
    let ka = power(al + 1, 10);
    let ky = power(yl + 1, 5);
    let kv = power(vl + 1, 5);
    let lr = power(rl, 60);
    let lb = power(bl, 20);
    let la = power(al, 10);
    let ly = power(yl, 5);
    let lv = power(vl, 5);
    lemma_power_slack(rl, 60);
    lemma_power_slack(bl, 20);
    lemma_power_slack(al, 10);
    lemma_power_slack(yl, 5);
    lemma_power_slack(vl, 5);
    lemma_power_sign(rl + 1, 60);
    lemma_power_sign(bl + 1, 20);
    lemma_power_sign(al + 1, 10);
    lemma_power_sign(yl + 1, 5);
    lemma_power_sign(vl + 1, 5);
    lemma_power_sign(rl, 60);
    lemma_power_sign(bl, 20);
    lemma_power_sign(al, 10);
    lemma_power_sign(yl, 5);
    lemma_power_sign(vl, 5);
    let h1 = kr * (rl - 60);
    let h2 = kb * (bl - 20);
    let h3 = ka * (al - 10);
    let h4 = ky * (yl - 5);
    let h5 = kv * (vl - 5);
    let g1 = lr * rl;
    let g2 = lb * bl;
    let g3 = la * al;
    let g4 = ly * yl;
    let g5 = lv * vl;
    assert(0 <= h1 <= g1 && 0 <= h2 <= g2 && 0 <= h3 <= g3 && 0 <= h4 <= g4 && 0 <= h5 <= g5)
        by (nonlinear_arith)
        requires
            h1 == kr * (rl - 60),
            h2 == kb * (bl - 20),
            h3 == ka * (al - 10),
            h4 == ky * (yl - 5),
            h5 == kv * (vl - 5),
            kr > 0,
            kb > 0,
            ka > 0,
            ky > 0,
            kv > 0,
            rl > 60,
            bl > 20,
            al > 10,
            yl > 5,
            vl > 5,
            h1 <= g1,
            h2 <= g2,
            h3 <= g3,
            h4 <= g4,
            h5 <= g5,
    ;
    assert((((h1 * h2) * h3) * h4) * h5 <= (((g1 * g2) * g3) * g4) * g5) by (nonlinear_arith)
        requires
            0 <= h1 <= g1,
            0 <= h2 <= g2,
            0 <= h3 <= g3,
            0 <= h4 <= g4,
            0 <= h5 <= g5,
    {
        assert(h1 * h2 <= g1 * g2);
        assert(0 <= h1 * h2);
        assert((h1 * h2) * h3 <= (g1 * g2) * g3);
        assert(0 <= (h1 * h2) * h3);
        assert(((h1 * h2) * h3) * h4 <= ((g1 * g2) * g3) * g4);
        assert(0 <= ((h1 * h2) * h3) * h4);
    }
    let d1 = rl - 60;
    let d2 = bl - 20;
    let d3 = al - 10;
    let d4 = yl - 5;
    let d5 = vl - 5;
    lemma_regroup(kr, d1, kb, d2);
    lemma_regroup(kr * kb, d1 * d2, ka, d3);
    lemma_regroup((kr * kb) * ka, (d1 * d2) * d3, ky, d4);
    lemma_regroup(((kr * kb) * ka) * ky, ((d1 * d2) * d3) * d4, kv, d5);
    assert((((kr * kb) * ka) * ky) * kv == ((kr * kb) * ka) * (ky * kv)) by (nonlinear_arith);
    lemma_regroup(lr, rl, lb, bl);
    lemma_regroup(lr * lb, rl * bl, la, al);
    lemma_regroup((lr * lb) * la, (rl * bl) * al, ly, yl);
    lemma_regroup(((lr * lb) * la) * ly, ((rl * bl) * al) * yl, lv, vl);
    assert((((lr * lb) * la) * ly) * lv == ((lr * lb) * la) * (ly * lv)) by (nonlinear_arith);
}

/// `(a * x) * (b * y)` regrouped as `(a * b) * (x * y)`.
proof fn lemma_regroup(a: int, x: int, b: int, y: int)
    ensures
        (a * x) * (b * y) == (a * b) * (x * y),
{
    assert((a * x) * (b * y) == (a * b) * (x * y)) by (nonlinear_arith);
}

/// The numerator of the bound on all the slack together.
pub open spec fn slack_numerator(vl: int, yl: int, al: int, bl: int, rl: int) -> int {
    (((rl * bl) * al) * yl) * vl
}

/// The denominator of the bound on all the slack together.
pub open spec fn slack_denominator(vl: int, yl: int, al: int, bl: int, rl: int) -> int {
    ((((rl - 60) * (bl - 20)) * (al - 10)) * (yl - 5)) * (vl - 5)
}

/// Rounding down at every step, the twelfth root of the expanded value,
/// raised to the fifth power, falls short of the value that was expanded by
/// less than ninety millionths, provided the slack is small enough for the
/// largest value considered.
proof fn lemma_round_trip_lower(
    t: int,
    v: int,
    y: int,
    a: int,
    b: int,
    r: int,
    vl: int,
    yl: int,
    al: int,
    bl: int,
    rl: int,
    tmax: int,
)
    requires
        91 <= t <= tmax,
        v >= vl > 5,
        y >= yl > 5,
        a >= al > 10,
        b >= bl > 20,
        r >= rl > 60,
        t * t * 1_000_000_000_000_000_000 < power(v + 1, 5),
        t * t * v < (y + 1) * 1_000_000_000_000,
        y * 1_000_000 < power(a + 1, 2),
        a * 1_000_000 < power(b + 1, 2),
        b * 1_000_000_000_000 < power(r + 1, 3),
        1080 * slack_denominator(vl, yl, al, bl, rl) >= (tmax - 90) * (slack_numerator(
            vl,
            yl,
            al,
            bl,
            rl,
        ) - slack_denominator(vl, yl, al, bl, rl)),
    ensures
        power(r, 5) >= (t - 90) * 1_000_000_000_000_000_000_000_000,
{
    let s = 1_000_000int;
    let s4 = power(s, 4);
    let s48 = power(s, 48);
    lemma_unit_powers();
    lemma_power_sign(s, 48);
    let u = t - 90;
    let r5 = power(r, 5);
    let r60 = power(r, 60);
    let t12 = power(t, 12);
    let u11 = power(u, 11);
    let u12 = power(u, 12);
    let c1 = slack_high(vl, yl, al, bl, rl);
    let c2 = slack_low(vl, yl, al, bl, rl);
    let num = slack_numerator(vl, yl, al, bl, rl);
    let den = slack_denominator(vl, yl, al, bl, rl);
    lemma_power_sign(r, 5);
    lemma_power_sign(u, 11);
    lemma_power_sign(u, 12);
    lemma_power_sign(t, 12);
    if r5 < u * s4 {
        lemma_joined_slack(t, v, y, a, b, r, vl, yl, al, bl, rl);
        lemma_slack_product(vl, yl, al, bl, rl);
        assert(den > 0) by (nonlinear_arith)
            requires
                den == ((((rl - 60) * (bl - 20)) * (al - 10)) * (yl - 5)) * (vl - 5),
                vl > 5,
                yl > 5,
                al > 10,
                bl > 20,
                rl > 60,
        {
            assert((rl - 60) * (bl - 20) > 0);
            assert(((rl - 60) * (bl - 20)) * (al - 10) > 0);
            assert((((rl - 60) * (bl - 20)) * (al - 10)) * (yl - 5) > 0);
        }
        // r^60 < u^12 * s^48
        assert(r60 < u12 * s48) by {
            lemma_power_base_monotonic(r5, u * s4, 12);
            lemma_power_power(r, 5, 12);
            lemma_power_product(u, s4, 12);
            lemma_power_power(s, 4, 12);
        }
        // t^12 * c2 < u^12 * c1
        assert(t12 * c2 < u12 * c1) by {
            lemma_scale_strict(r60, u12 * s48, c1);
            assert((t12 * s48) * c2 == (t12 * c2) * s48) by (nonlinear_arith);
            assert((u12 * s48) * c1 == (u12 * c1) * s48) by (nonlinear_arith);
            lemma_cancel(t12 * c2, u12 * c1, s48);
        }
        // (u + 1080) * c2 < u * c1
        assert((u + 1080) * c2 < u * c1) by {
            lemma_power_bernoulli(u, 90, 12);
            assert(u12 == u * u11);
            lemma_scale(u11 * (u + 1080), t12, c2);
            assert((u11 * (u + 1080)) * c2 == ((u + 1080) * c2) * u11) by (nonlinear_arith);
            assert((u * u11) * c1 == (u * c1) * u11) by (nonlinear_arith);
            lemma_cancel((u + 1080) * c2, u * c1, u11);
        }
        // (u + 1080) * den < u * num
        assert((u + 1080) * den < u * num) by {
            lemma_scale_strict((u + 1080) * c2, u * c1, den);
            lemma_scale(c1 * den, c2 * num, u);
            assert(((u + 1080) * c2) * den == ((u + 1080) * den) * c2) by (nonlinear_arith);
            assert((u * c1) * den == u * (c1 * den)) by (nonlinear_arith);
            assert(u * (c2 * num) == (u * num) * c2) by (nonlinear_arith);
            lemma_cancel((u + 1080) * den, u * num, c2);
        }
        assert(false) by (nonlinear_arith)
            requires
                (u + 1080) * den < u * num,
                1080 * den >= (tmax - 90) * (num - den),
                1 <= u <= tmax - 90,
                den > 0,
        {
            assert(u * den + 1080 * den < u * num);
            assert(1080 * den < u * (num - den));
            assert(num - den > 0);
            assert(u * (num - den) <= (tmax - 90) * (num - den));
        }
    }
}

/// The fifth power of a number, multiplied out.
proof fn lemma_fifth_power(a: int)
    ensures
        power(a, 5) == a * (a * (a * (a * a))),
{
    reveal_with_fuel(power, 6);
    assert(a * (a * (a * (a * (a * 1)))) == a * (a * (a * (a * a))));
}

/// The third power of a number, multiplied out.
proof fn lemma_third_power(a: int)
    ensures
        power(a, 3) == a * (a * a),
{
    reveal_with_fuel(power, 4);
    assert(a * (a * (a * 1)) == a * (a * a));
}

/// A rounded-down root is at least any number whose power does not exceed
/// the argument.
proof fn lemma_root_at_least(n: int, k: nat, w: int, wl: int)
    requires
        k >= 1,
        w >= 0,
        wl >= 0,
        n < power(w + 1, k),
        power(wl, k) <= n,
    ensures
        w >= wl,
{
    if w + 1 <= wl {
        lemma_power_base_monotonic(w + 1, wl, k);
    }
}

/// The square of a number, written as a power.
proof fn lemma_square(a: int)
    ensures
        power(a, 2) == a * a,
{
    reveal_with_fuel(power, 3);
}

/// The values that the round trip passes through, for an intensity `t` on
/// the power-law piece: the fifth root, the expanded value, the two square
/// roots, the cube root and the compressed value, with the inequalities
/// that rounding down gives for each.
proof fn lemma_stages(t: int) -> (stages: (int, int, int, int, int, int))
    requires
        0 <= t,
    ensures
        ({
            let (v, y, a, b, r, p) = stages;
            &&& v >= 0 && y >= 0 && a >= 0 && b >= 0 && r >= 0 && p >= 0
            &&& y == spec_expand(t)
            &&& r == spec_twelfth_root(y)
            &&& p == spec_compress(y)
            &&& power(v, 5) <= t * t * 1_000_000_000_000_000_000 < power(v + 1, 5)
            &&& y * 1_000_000_000_000 <= t * t * v < (y + 1) * 1_000_000_000_000
            &&& a * a <= y * 1_000_000 < power(a + 1, 2)
            &&& b * b <= a * 1_000_000 < power(b + 1, 2)
            &&& power(r, 3) <= b * 1_000_000_000_000 < power(r + 1, 3)
            &&& p * 1_000_000_000_000_000_000_000_000 <= power(r, 5) < (p + 1)
                * 1_000_000_000_000_000_000_000_000
        }),
{
    let tt = t * t;
    assert(tt >= 0) by (nonlinear_arith)
        requires
            tt == t * t,
    ;
    let n = (tt * 1_000_000_000_000_000_000) as nat;
    lemma_root_floor_exists(n, 5);
    let v = root_floor(n, 5) as int;
    assert(tt * v >= 0) by (nonlinear_arith)
        requires
            tt >= 0,
            v >= 0,
    ;
    let y = tt * v / 1_000_000_000_000;
    lemma_sqrt_floor_bounds((y * 1_000_000) as nat);
    let a = sqrt_floor((y * 1_000_000) as nat) as int;
    lemma_sqrt_floor_bounds((a * 1_000_000) as nat);
    let b = sqrt_floor((a * 1_000_000) as nat) as int;
    lemma_root_floor_exists((b * 1_000_000_000_000) as nat, 3);
    let r = root_floor((b * 1_000_000_000_000) as nat, 3) as int;
    lemma_power_sign(r, 5);
    let p = power(r, 5) / 1_000_000_000_000_000_000_000_000;
    lemma_square(a + 1);
    lemma_square(b + 1);
    (v, y, a, b, r, p)
}

/// Expanding and compressing again loses less than ninety millionths and
/// gains nothing.
pub proof fn lemma_compress_expand(t: int)
    requires
        90_474 <= t <= 1_000_000,
        spec_expand(t) > 3_130,
    ensures
        t - 90 <= spec_compress(spec_expand(t)) <= t,
{
    let (v, y, a, b, r, p) = lemma_stages(t);
    lemma_round_trip_upper(t, v, y, a, b, r);
    let tt = t * t;
    if t <= 300_000 {
        let (vl, yl, al, bl, rl) = (382_480int, 3_131int, 55_955int, 236_548int, 618_452int);
        lemma_fifth_power(vl);
        lemma_third_power(rl);
        assert(382_480int * (382_480int * (382_480int * (382_480int * 382_480int)))
            == 8185470608774358305996800000) by (nonlinear_arith);
        assert(618_452int * (618_452int * 618_452int) == 236547299815961408) by (nonlinear_arith);
        assert(90_474int * 90_474int * 1_000_000_000_000_000_000 == 8185544676000000000000000000);
        lemma_lower_bounds(t, v, y, a, b, r, 90_474, vl, yl, al, bl, rl);
        assert(1080 * slack_denominator(vl, yl, al, bl, rl) >= (300_000 - 90) * (slack_numerator(
            vl,
            yl,
            al,
            bl,
            rl,
        ) - slack_denominator(vl, yl, al, bl, rl))) by {
            assert(slack_numerator(vl, yl, al, bl, rl) == 9802931708445851650438400)
                by (nonlinear_arith)
                requires
                    vl == 382_480,
                    yl == 3_131,
                    al == 55_955,
                    bl == 236_548,
                    rl == 618_452,
            ;
            assert(slack_denominator(vl, yl, al, bl, rl) == 9783623404638974402592000)
                by (nonlinear_arith)
                requires
                    vl == 382_480,
                    yl == 3_131,
                    al == 55_955,
                    bl == 236_548,
                    rl == 618_452,
            ;
        }
        lemma_round_trip_lower(t, v, y, a, b, r, vl, yl, al, bl, rl, 300_000);
    } else {
        let (vl, yl, al, bl, rl) = (617_800int, 55_602int, 235_800int, 485_592int, 786_002int);
        lemma_fifth_power(vl);
        lemma_third_power(rl);
        assert(617_800int * (617_800int * (617_800int * (617_800int * 617_800int)))
            == 89999380456855823680000000000) by (nonlinear_arith);
        assert(786_002int * (786_002int * 786_002int) == 485591362785432008) by (nonlinear_arith);
        assert(300_000int * 300_000int * 1_000_000_000_000_000_000 == 90000000000000000000000000000);
        lemma_lower_bounds(t, v, y, a, b, r, 300_000, vl, yl, al, bl, rl);
        assert(1080 * slack_denominator(vl, yl, al, bl, rl) >= (1_000_000 - 90) * (
        slack_numerator(vl, yl, al, bl, rl) - slack_denominator(vl, yl, al, bl, rl))) by {
            assert(slack_numerator(vl, yl, al, bl, rl) == 3091557244523331795160320000)
                by (nonlinear_arith)
                requires
                    vl == 617_800,
                    yl == 55_602,
                    al == 235_800,
                    bl == 485_592,
                    rl == 786_002,
            ;
            assert(slack_denominator(vl, yl, al, bl, rl) == 3090759855020989244808820400)
                by (nonlinear_arith)
                requires
                    vl == 617_800,
                    yl == 55_602,
                    al == 235_800,
                    bl == 485_592,
                    rl == 786_002,
            ;
        }
        lemma_round_trip_lower(t, v, y, a, b, r, vl, yl, al, bl, rl, 1_000_000);
    }
}

/// Lower bounds for the values that the round trip passes through, for
/// every intensity from `tl` on, given lower bounds that fit `tl` itself.
proof fn lemma_lower_bounds(
    t: int,
    v: int,
    y: int,
    a: int,
    b: int,
    r: int,
    tl: int,
    vl: int,
    yl: int,
    al: int,
    bl: int,
    rl: int,
)
    requires
        0 <= tl <= t,
        v >= 0,
        a >= 0,
        b >= 0,
        r >= 0,
        vl >= 0,
        al >= 0,
        bl >= 0,
        rl >= 0,
        t * t * 1_000_000_000_000_000_000 < power(v + 1, 5),
        t * t * v < (y + 1) * 1_000_000_000_000,
        y * 1_000_000 < power(a + 1, 2),
        a * 1_000_000 < power(b + 1, 2),
        b * 1_000_000_000_000 < power(r + 1, 3),
        power(vl, 5) <= tl * tl * 1_000_000_000_000_000_000,
        y >= yl || tl * tl * vl >= yl * 1_000_000_000_000,
        al * al <= yl * 1_000_000,
        bl * bl <= al * 1_000_000,
        power(rl, 3) <= bl * 1_000_000_000_000,
    ensures
        v >= vl,
        y >= yl,
        a >= al,
        b >= bl,
        r >= rl,
{
    assert(tl * tl <= t * t) by (nonlinear_arith)
        requires
            0 <= tl <= t,
    ;
    lemma_root_at_least(t * t * 1_000_000_000_000_000_000, 5, v, vl);
    if !(y >= yl) {
        assert(tl * tl * vl <= t * t * v) by (nonlinear_arith)
            requires
                0 <= tl * tl <= t * t,
                0 <= vl <= v,
        ;
    }
    lemma_square(al);
    lemma_square(bl);
    lemma_root_at_least(y * 1_000_000, 2, a, al);
    lemma_root_at_least(a * 1_000_000, 2, b, bl);
    lemma_root_at_least(b * 1_000_000_000_000, 3, r, rl);
}

/// From the intensity `tl` on, the expanded value is at least
/// `tl^2 * vl / 10^12`, rounded down, for any `vl` whose fifth power does
/// not exceed `tl^2 * 10^18`.
proof fn lemma_expand_at_least(t: int, tl: int, vl: int)
    requires
        0 <= tl <= t,
        vl >= 0,
        power(vl, 5) <= tl * tl * 1_000_000_000_000_000_000,
    ensures
        spec_expand(t) >= tl * tl * vl / 1_000_000_000_000,
{
    let (v, y, a, b, r, p) = lemma_stages(t);
    assert(tl * tl <= t * t) by (nonlinear_arith)
        requires
            0 <= tl <= t,
    ;
    lemma_root_at_least(t * t * 1_000_000_000_000_000_000, 5, v, vl);
    assert(0 <= tl * tl * vl <= t * t * v) by (nonlinear_arith)
        requires
            0 <= tl * tl <= t * t,
            0 <= vl <= v,
    ;
}

/// Decoding an encoded intensity between zero and one and encoding it
/// again gives back the intensity to within a hundred millionths, and never
/// more than what went in.
pub proof fn lemma_round_trip(x: int)
    requires
        0 <= x <= 1_000_000,
    ensures
        x - 100 <= spec_linear_to_srgb(spec_srgb_to_linear(x)) <= x,
{
    if x > 40_450 {
        let t = (x + 55_000) * 1000 / 1055;
        let y = spec_expand(t);
        assert(y == spec_srgb_to_linear(x));
        lemma_fifth_power(382_480);
        assert(382_480int * (382_480int * (382_480int * (382_480int * 382_480int)))
            == 8185470608774358305996800000) by (nonlinear_arith);
        assert(90_474int * 90_474int * 1_000_000_000_000_000_000 == 8185544676000000000000000000);
        lemma_expand_at_least(t, 90_474, 382_480);
        assert(90_474int * 90_474int * 382_480int == 3130807127676480);
        if y <= 3_130 {
            if t >= 90_477 {
                lemma_fifth_power(382_485);
                assert(382_485int * (382_485int * (382_485int * (382_485int * 382_485int)))
                    == 8186005648817105229632053125) by (nonlinear_arith);
                assert(90_477int * 90_477int * 1_000_000_000_000_000_000
                    == 8186087529000000000000000000);
                lemma_expand_at_least(t, 90_477, 382_485);
                assert(90_477int * 90_477int * 382_485int == 3131055688529565);
                assert(false);
            }
        } else {
            lemma_compress_expand(t);
        }
    }
}

} // verus!
