//! Perceptual colours and the metrics over them.
//!
//! A [`Lab`] is a point of a perceptually uniform colour space, held as three
//! fixed-point channels. Distances and scores come out in the same unit.

use vstd::prelude::*;
use crate::fixed::{
    div_trunc, f32_equal, isqrt, lemma_sqrt_floor_bounds, near, snap, snap_squared, sqrt_floor,
    EPSILON, EPSILON_SQUARED,
};

verus! {

/// A perceptual colour: lightness and two chroma axes, in millionths.
#[derive(Clone, Copy, Debug, PartialEq, Eq, Structural)]
pub struct Lab {
    pub l: i32,
    pub a: i32,
    pub b: i32,
}

/// A pixel position together with the colour found there.
pub type Member = (u32, u32, Lab);

/// Every channel of `c1` is within `EPSILON` of the same channel of `c2`.
pub open spec fn spec_lab_equal(c1: Lab, c2: Lab) -> bool {
    &&& near(c1.l as int, c2.l as int)
    &&& near(c1.a as int, c2.a as int)
    &&& near(c1.b as int, c2.b as int)
}

/// Length of the chroma vector `(a, b)` of `c`, rounded down.
pub open spec fn chroma(c: Lab) -> int {
    sqrt_floor((c.a * c.a + c.b * c.b) as nat) as int
}

/// The hue term of the distance: what is left of the squared chroma-plane
/// offset once the squared change of chroma has been taken out.
pub open spec fn hue_term(c1: Lab, c2: Lab) -> int {
    let dc = snap(chroma(c1) - chroma(c2));
    let da = snap(c1.a - c2.a);
    let db = snap(c1.b - c2.b);
    snap_squared(da * da + db * db - dc * dc)
}

/// The squared distance before the final square root; may be negative.
pub open spec fn distance_squared(c1: Lab, c2: Lab) -> int {
    let dl = c1.l - c2.l;
    let dc = snap(chroma(c1) - chroma(c2));
    dl * dl + dc * dc + hue_term(c1, c2)
}

/// Perceptual distance between two colours.
///
/// Colours that are equal up to `EPSILON` are at distance zero. Otherwise the
/// distance is the root of the squared lightness delta, the squared chroma
/// delta and the hue term, with a negative sum clamped to zero.
pub open spec fn spec_oklab_distance(c1: Lab, c2: Lab) -> int {
    if spec_lab_equal(c1, c2) {
        0
    } else if distance_squared(c1, c2) < 0 {
        0
    } else {
        sqrt_floor(distance_squared(c1, c2) as nat) as int
    }
}

/// Plain Euclidean distance over the three channels.
pub open spec fn spec_oklab_distance2(c1: Lab, c2: Lab) -> int {
    let dl = c1.l - c2.l;
    let da = c1.a - c2.a;
    let db = c1.b - c2.b;
    sqrt_floor((dl * dl + da * da + db * db) as nat) as int
}

/// Whether two colours agree up to `EPSILON` on every channel.
pub fn lab_equal(c1: &Lab, c2: &Lab) -> (r: bool)
    ensures
        r == spec_lab_equal(*c1, *c2),
{
    f32_equal(c1.l as i64, c2.l as i64) && f32_equal(c1.a as i64, c2.a as i64) && f32_equal(
        c1.b as i64,
        c2.b as i64,
    )
}

/// `x * x` for a difference of two channels or two chromas.
fn square(x: i128) -> (r: i128)
    requires
        -0x1_0000_0000 <= x <= 0x1_0000_0000,
    ensures
        r == x * x,
        0 <= r <= 0x1_0000_0000_0000_0000,
{
    assert(0 <= x * x <= 0x1_0000_0000_0000_0000) by (nonlinear_arith)
        requires
            -0x1_0000_0000 <= x <= 0x1_0000_0000,
    ;
    x * x
}

fn snap_to_zero(x: i128) -> (r: i128)
    ensures
        r == snap(x as int),
{
    if -(EPSILON as i128) < x && x < (EPSILON as i128) {
        0
    } else {
        x
    }
}

/// The chroma of any colour fits comfortably in 32 bits.
pub proof fn lemma_chroma_bound(c: Lab)
    ensures
        0 <= chroma(c) < 0x1_0000_0000,
{
    let a = c.a as int;
    let b = c.b as int;
    assert(0 <= a * a <= 0x4000_0000_0000_0000 && 0 <= b * b <= 0x4000_0000_0000_0000)
        by (nonlinear_arith)
        requires
            -0x8000_0000 <= a <= 0x8000_0000,
            -0x8000_0000 <= b <= 0x8000_0000,
    ;
    let n = (a * a + b * b) as nat;
    lemma_sqrt_floor_bounds(n);
    let r = sqrt_floor(n);
    assert(r < 0x1_0000_0000) by (nonlinear_arith)
        requires
            r * r <= n,
            n <= 0x8000_0000_0000_0000,
    {
        if r >= 0x1_0000_0000 {
            assert(r * r >= 0x1_0000_0000 * 0x1_0000_0000);
        }
    }
}

fn chroma_of(c: &Lab) -> (r: i128)
    ensures
        r == chroma(*c),
        0 <= r < 0x1_0000_0000,
{
    let a2 = square(c.a as i128);
    let b2 = square(c.b as i128);
    proof {
        lemma_chroma_bound(*c);
    }
    isqrt((a2 + b2) as u128) as i128
}

/// Perceptual distance between two colours, in millionths.
pub fn oklab_distance(col1: &Lab, col2: &Lab) -> (d: i64)
    ensures
        d == spec_oklab_distance(*col1, *col2),
        0 <= d < 0x4_0000_0000,
{
    if lab_equal(col1, col2) {
        return 0;
    }
    let delta_l: i128 = col1.l as i128 - col2.l as i128;
    let delta_c = snap_to_zero(chroma_of(col1) - chroma_of(col2));
    let delta_a = snap_to_zero(col1.a as i128 - col2.a as i128);
    let delta_b = snap_to_zero(col1.b as i128 - col2.b as i128);
    let l2 = square(delta_l);
    let c2 = square(delta_c);
    let hue = square(delta_a) + square(delta_b) - c2;
    let delta_h: i128 = if -(EPSILON_SQUARED as i128) < hue && hue < (EPSILON_SQUARED as i128) {
        0
    } else {
        hue
    };
    let sum = l2 + c2 + delta_h;
    if sum < 0 {
        0
    } else {
        let r = isqrt(sum as u128);
        proof {
            lemma_root_below(sum as nat, 0x4_0000_0000);
        }
        r as i64
    }
}

/// A number below `bound * bound` has its root below `bound`.
pub proof fn lemma_root_below(n: nat, bound: nat)
    requires
        n < bound * bound,
    ensures
        sqrt_floor(n) < bound,
{
    lemma_sqrt_floor_bounds(n);
    let r = sqrt_floor(n);
    assert(r < bound) by (nonlinear_arith)
        requires
            r * r <= n,
            n < bound * bound,
    {
        if r >= bound {
            assert(r * r >= bound * bound);
        }
    }
}

/// Euclidean distance between two colours, in millionths.
pub fn oklab_distance2(col1: &Lab, col2: &Lab) -> (d: i64)
    ensures
        d == spec_oklab_distance2(*col1, *col2),
        0 <= d < 0x4_0000_0000,
{
    let l2 = square(col1.l as i128 - col2.l as i128);
    let a2 = square(col1.a as i128 - col2.a as i128);
    let b2 = square(col1.b as i128 - col2.b as i128);
    let sum = l2 + a2 + b2;
    proof {
        lemma_root_below(sum as nat, 0x4_0000_0000);
    }
    isqrt(sum as u128) as i64
}

/// Equality up to tolerance holds between any colour and itself.
pub proof fn lemma_lab_equal_reflexive(c: Lab)
    ensures
        spec_lab_equal(c, c),
{
}

/// Equality up to tolerance does not depend on the order of its arguments.
pub proof fn lemma_lab_equal_symmetric(c1: Lab, c2: Lab)
    ensures
        spec_lab_equal(c1, c2) == spec_lab_equal(c2, c1),
{
}

/// Every distance lies between zero and the diagonal of the channel range.
pub proof fn lemma_distance_range(c1: Lab, c2: Lab)
    ensures
        0 <= spec_oklab_distance(c1, c2) < 0x4_0000_0000,
{
    lemma_chroma_bound(c1);
    lemma_chroma_bound(c2);
    let dl = c1.l - c2.l;
    let dc = snap(chroma(c1) - chroma(c2));
    let da = snap(c1.a - c2.a);
    let db = snap(c1.b - c2.b);
    lemma_square_bound(dl);
    lemma_square_bound(dc);
    lemma_square_bound(da);
    lemma_square_bound(db);
    if !spec_lab_equal(c1, c2) && distance_squared(c1, c2) >= 0 {
        lemma_root_below(distance_squared(c1, c2) as nat, 0x4_0000_0000);
    }
}

/// The square of a channel difference fits in 65 bits.
pub proof fn lemma_square_bound(x: int)
    requires
        -0x1_0000_0000 <= x <= 0x1_0000_0000,
    ensures
        0 <= x * x <= 0x1_0000_0000_0000_0000,
{
    assert(0 <= x * x <= 0x1_0000_0000_0000_0000) by (nonlinear_arith)
        requires
            -0x1_0000_0000 <= x <= 0x1_0000_0000,
    ;
}

/// Colours that are equal up to tolerance are at distance zero, and no
/// distance is negative.
pub proof fn lemma_distance_basics(c1: Lab, c2: Lab)
    ensures
        spec_oklab_distance(c1, c2) >= 0,
        spec_lab_equal(c1, c2) ==> spec_oklab_distance(c1, c2) == 0,
        spec_oklab_distance(c1, c1) == 0,
{
}

/// Where nothing is flattened the two metrics coincide: if the colours
/// differ by more than the tolerance and neither the chroma delta, the two
/// chroma-plane deltas nor the hue term falls below its threshold, the
/// perceptual distance is the Euclidean one.
pub proof fn lemma_metrics_agree_unless_flattened(c1: Lab, c2: Lab)
    requires
        !spec_lab_equal(c1, c2),
        snap(chroma(c1) - chroma(c2)) == chroma(c1) - chroma(c2),
        snap(c1.a - c2.a) == c1.a - c2.a,
        snap(c1.b - c2.b) == c1.b - c2.b,
        hue_term(c1, c2) == (c1.a - c2.a) * (c1.a - c2.a) + (c1.b - c2.b) * (c1.b - c2.b) - (
        chroma(c1) - chroma(c2)) * (chroma(c1) - chroma(c2)),
    ensures
        spec_oklab_distance(c1, c2) == spec_oklab_distance2(c1, c2),
{
    let dl = c1.l - c2.l;
    let da = c1.a - c2.a;
    let db = c1.b - c2.b;
    let dc = chroma(c1) - chroma(c2);
    assert(distance_squared(c1, c2) == dl * dl + dc * dc + (da * da + db * db - dc * dc));
    assert(dl * dl >= 0 && da * da >= 0 && db * db >= 0) by (nonlinear_arith);
}

/// `c` is equal, up to tolerance, to some element of `kept`.
pub open spec fn has_match(kept: Seq<Lab>, c: Lab) -> bool {
    exists|j: int| 0 <= j < kept.len() && spec_lab_equal(c, #[trigger] kept[j])
}

/// The colours of `s` with every colour dropped that is equal, up to
/// tolerance, to one kept before it.
pub open spec fn spec_unique_colours(s: Seq<Lab>) -> Seq<Lab>
    decreases s.len(),
{
    if s.len() == 0 {
        Seq::empty()
    } else {
        let kept = spec_unique_colours(s.drop_last());
        if has_match(kept, s.last()) {
            kept
        } else {
            kept.push(s.last())
        }
    }
}

/// Removes repeated colours, keeping the first of each.
///
/// Two colours count as the same when [`lab_equal`] says so. The running time
/// is quadratic: every colour is compared with every colour kept so far.
pub fn unique_colours(colours: &[Lab]) -> (unique: Vec<Lab>)
    ensures
        unique@ == spec_unique_colours(colours@),
{
    let mut unique: Vec<Lab> = Vec::new();
    let mut i: usize = 0;
    while i < colours.len()
        invariant
            i <= colours.len(),
            unique@ == spec_unique_colours(colours@.take(i as int)),
        decreases colours.len() - i,
    {
        let c = colours[i];
        let mut clash = false;
        let mut j: usize = 0;
        while j < unique.len() && !clash
            invariant
                j <= unique.len(),
                c == colours@[i as int],
                clash ==> has_match(unique@, c),
                !clash ==> forall|k: int| 0 <= k < j ==> !spec_lab_equal(c, #[trigger] unique@[k]),
            decreases unique.len() - j + (if clash { 0int } else { 1int }),
        {
            if lab_equal(&c, &unique[j]) {
                clash = true;
            } else {
                j += 1;
            }
        }
        proof {
            let next = colours@.take(i + 1);
            assert(next.drop_last() == colours@.take(i as int));
            assert(next.last() == c);
        }
        if !clash {
            unique.push(c);
        }
        i += 1;
    }
    proof {
        assert(colours@.take(i as int) == colours@);
    }
    unique
}

/// What [`unique_colours`] keeps: no two kept colours are equal up to
/// tolerance, every kept colour occurs in the input, and every input colour
/// is equal up to tolerance to a kept one.
pub proof fn lemma_unique_colours(s: Seq<Lab>)
    ensures
        forall|i: int, j: int|
            0 <= i < j < spec_unique_colours(s).len() ==> !spec_lab_equal(
                #[trigger] spec_unique_colours(s)[j],
                #[trigger] spec_unique_colours(s)[i],
            ),
        forall|i: int|
            0 <= i < spec_unique_colours(s).len() ==> s.contains(
                #[trigger] spec_unique_colours(s)[i],
            ),
        forall|k: int| 0 <= k < s.len() ==> has_match(spec_unique_colours(s), #[trigger] s[k]),
        spec_unique_colours(s).len() <= s.len(),
    decreases s.len(),
{
    if s.len() > 0 {
        let head = s.drop_last();
        let kept = spec_unique_colours(head);
        let out = spec_unique_colours(s);
        lemma_unique_colours(head);
        assert forall|i: int| 0 <= i < out.len() implies s.contains(#[trigger] out[i]) by {
            if i < kept.len() {
                assert(head.contains(kept[i]));
                let k = choose|k: int| 0 <= k < head.len() && head[k] == kept[i];
                assert(s[k] == kept[i]);
            } else {
                assert(out[i] == s[s.len() - 1]);
            }
        }
        assert forall|k: int| 0 <= k < s.len() implies has_match(out, #[trigger] s[k]) by {
            if k < head.len() {
                assert(has_match(kept, head[k]));
                let j = choose|j: int| 0 <= j < kept.len() && spec_lab_equal(head[k], kept[j]);
                assert(spec_lab_equal(s[k], out[j]));
            } else if has_match(kept, s.last()) {
            } else {
                assert(spec_lab_equal(s[k], out[kept.len() as int]));
            }
        }
    }
}

/// One channel of a colour: `0` is lightness, `1` is `a`, anything else is `b`.
pub open spec fn channel(c: Lab, k: int) -> int {
    if k == 0 {
        c.l as int
    } else if k == 1 {
        c.a as int
    } else {
        c.b as int
    }
}

/// Sum of channel `k` over the colours of `s`.
pub open spec fn channel_sum(s: Seq<Member>, k: int) -> int
    decreases s.len(),
{
    if s.len() == 0 {
        0
    } else {
        channel_sum(s.drop_last(), k) + channel(s.last().2, k)
    }
}

/// Mean of channel `k` over `s`, rounded towards zero.
pub open spec fn channel_mean(s: Seq<Member>, k: int) -> int
    recommends
        s.len() > 0,
{
    div_trunc(channel_sum(s, k), s.len() as int)
}

/// Channel-wise mean of the colours of `s`; the origin for an empty `s`.
pub open spec fn spec_average_lab(s: Seq<Member>) -> Lab {
    if s.len() == 0 {
        Lab { l: 0, a: 0, b: 0 }
    } else {
        Lab {
            l: channel_mean(s, 0) as i32,
            a: channel_mean(s, 1) as i32,
            b: channel_mean(s, 2) as i32,
        }
    }
}

/// A sum of `n` channel values stays within `n` times the channel range.
pub proof fn lemma_channel_sum_bound(s: Seq<Member>, k: int)
    ensures
        -0x8000_0000 * s.len() <= channel_sum(s, k) <= 0x7fff_ffff * s.len(),
    decreases s.len(),
{
    if s.len() > 0 {
        lemma_channel_sum_bound(s.drop_last(), k);
    }
}

/// A total between `-m * n` and `m * n` has its truncated mean between `-m` and `m`,
/// and a total of at most `(m - 1) * n` has it at most `m - 1`.
pub proof fn lemma_div_trunc_bound(t: int, n: int, m: int)
    requires
        n > 0,
        m > 0,
        -m * n <= t <= (m - 1) * n,
    ensures
        -m <= div_trunc(t, n) <= m - 1,
{
    if t >= 0 {
        let q = t / n;
        assert(q <= m - 1 && q >= 0) by (nonlinear_arith)
            requires
                q == t / n,
                n > 0,
                0 <= t <= (m - 1) * n,
        {
            assert(q * n <= t);
            if q >= m {
                assert(q * n >= m * n);
            }
        }
    } else {
        let q = (-t) / n;
        assert((-m) * n == -(m * n)) by (nonlinear_arith);
        assert(0 <= q <= m) by (nonlinear_arith)
            requires
                q == (-t) / n,
                n > 0,
                0 < -t <= m * n,
        {
            assert(q * n <= -t);
            if q > m {
                assert(q * n >= (m + 1) * n);
            }
        }
    }
}

fn mean_channel(total: i128, n: usize) -> (r: i32)
    requires
        n > 0,
        -0x8000_0000 * n <= total <= 0x7fff_ffff * n,
    ensures
        r == div_trunc(total as int, n as int),
{
    proof {
        lemma_div_trunc_bound(total as int, n as int, 0x8000_0000);
    }
    (total / (n as i128)) as i32
}

/// Channel-wise mean of the colours of `pixels`, rounded towards zero.
///
/// An empty slice has no mean; the origin `(0, 0, 0)` is returned for it.
pub fn average_lab(pixels: &[Member]) -> (avg: Lab)
    ensures
        avg == spec_average_lab(pixels@),
{
    let n = pixels.len();
    if n == 0 {
        return Lab { l: 0, a: 0, b: 0 };
    }
    let mut l: i128 = 0;
    let mut a: i128 = 0;
    let mut b: i128 = 0;
    let mut i: usize = 0;
    while i < n
        invariant
            i <= n,
            n == pixels@.len(),
            l == channel_sum(pixels@.take(i as int), 0),
            a == channel_sum(pixels@.take(i as int), 1),
            b == channel_sum(pixels@.take(i as int), 2),
        decreases n - i,
    {
        proof {
            let next = pixels@.take(i + 1);
            assert(next.drop_last() == pixels@.take(i as int));
            lemma_channel_sum_bound(pixels@.take(i as int), 0);
            lemma_channel_sum_bound(pixels@.take(i as int), 1);
            lemma_channel_sum_bound(pixels@.take(i as int), 2);
        }
        let p = pixels[i].2;
        l = l + p.l as i128;
        a = a + p.a as i128;
        b = b + p.b as i128;
        i += 1;
    }
    proof {
        assert(pixels@.take(n as int) == pixels@);
        lemma_channel_sum_bound(pixels@, 0);
        lemma_channel_sum_bound(pixels@, 1);
        lemma_channel_sum_bound(pixels@, 2);
    }
    Lab { l: mean_channel(l, n), a: mean_channel(a, n), b: mean_channel(b, n) }
}

/// `i` is the first index of `centres` at the least distance from `c`.
pub open spec fn is_nearest(c: Lab, centres: Seq<Lab>, i: int) -> bool {
    &&& 0 <= i < centres.len()
    &&& forall|j: int|
        0 <= j < centres.len() ==> spec_oklab_distance(c, centres[i]) <= spec_oklab_distance(
            c,
            #[trigger] centres[j],
        )
    &&& forall|j: int|
        0 <= j < i ==> spec_oklab_distance(c, centres[i]) < spec_oklab_distance(
            c,
            #[trigger] centres[j],
        )
}

/// The first index of `centres` at the least distance from `c`.
pub open spec fn spec_nearest(c: Lab, centres: Seq<Lab>) -> int
    recommends
        centres.len() > 0,
{
    choose|i: int| is_nearest(c, centres, i)
}

/// At most one index is the nearest, so any witness is `spec_nearest`.
pub proof fn lemma_nearest_is(c: Lab, centres: Seq<Lab>, i: int)
    requires
        is_nearest(c, centres, i),
    ensures
        spec_nearest(c, centres) == i,
{
    let j = spec_nearest(c, centres);
    assert(is_nearest(c, centres, j));
    if i < j {
        assert(spec_oklab_distance(c, centres[j]) < spec_oklab_distance(c, centres[i]));
    }
    if j < i {
        assert(spec_oklab_distance(c, centres[i]) < spec_oklab_distance(c, centres[j]));
    }
}

/// Index of the entry of `centres` nearest to `c`; of several at the same
/// distance, the first.
pub fn nearest(c: &Lab, centres: &[Lab]) -> (best: usize)
    requires
        centres@.len() > 0,
    ensures
        is_nearest(*c, centres@, best as int),
        best as int == spec_nearest(*c, centres@),
{
    let mut best: usize = 0;
    let mut best_distance = oklab_distance(c, &centres[0]);
    let mut j: usize = 1;
    while j < centres.len()
        invariant
            1 <= j <= centres@.len(),
            best < j,
            best_distance == spec_oklab_distance(*c, centres@[best as int]),
            is_nearest(*c, centres@.take(j as int), best as int),
        decreases centres.len() - j,
    {
        let d = oklab_distance(c, &centres[j]);
        proof {
            let before = centres@.take(j as int);
            let after = centres@.take(j + 1);
            assert forall|k: int| 0 <= k < j implies after[k] == before[k] by {}
        }
        if d < best_distance {
            best = j;
            best_distance = d;
        }
        j += 1;
    }
    proof {
        assert(centres@.take(j as int) == centres@);
        lemma_nearest_is(*c, centres@, best as int);
    }
    best
}

/// The nearest entry is at least as close as every other entry.
pub proof fn lemma_nearest_is_closest(c: Lab, palette: Seq<Lab>, j: int)
    requires
        0 <= j < palette.len(),
    ensures
        0 <= spec_nearest(c, palette) < palette.len(),
        spec_oklab_distance(c, palette[spec_nearest(c, palette)]) <= spec_oklab_distance(
            c,
            palette[j],
        ),
{
    lemma_nearest_exists(c, palette);
}

/// Every non-empty sequence of colours has a nearest entry.
pub proof fn lemma_nearest_exists(c: Lab, centres: Seq<Lab>)
    requires
        centres.len() > 0,
    ensures
        is_nearest(c, centres, spec_nearest(c, centres)),
    decreases centres.len(),
{
    if centres.len() == 1 {
        assert(is_nearest(c, centres, 0));
    } else {
        let head = centres.drop_last();
        lemma_nearest_exists(c, head);
        let i = spec_nearest(c, head);
        let last = centres.len() - 1;
        assert forall|k: int| 0 <= k < last implies centres[k] == head[k] by {}
        if spec_oklab_distance(c, centres[last]) < spec_oklab_distance(c, centres[i]) {
            assert(is_nearest(c, centres, last));
        } else {
            assert(is_nearest(c, centres, i));
        }
    }
}

/// What is left of a colour once another has been taken away, channel by
/// channel. A difference of two channels need not fit in a channel.
#[derive(Clone, Copy, Debug, PartialEq, Eq, Structural)]
pub struct LabDelta {
    pub l: i64,
    pub a: i64,
    pub b: i64,
}

/// The palette entry nearest to `colour`, and what is left of `colour` once
/// that entry is taken away.
pub fn select_colour(colour: &Lab, palette: &[Lab]) -> (r: (Lab, LabDelta))
    requires
        palette@.len() > 0,
    ensures
        r.0 == palette@[spec_nearest(*colour, palette@)],
        is_nearest(*colour, palette@, spec_nearest(*colour, palette@)),
        r.1.l == colour.l - r.0.l,
        r.1.a == colour.a - r.0.a,
        r.1.b == colour.b - r.0.b,
{
    let quantized = palette[nearest(colour, palette)];
    (
        quantized,
        LabDelta {
            l: colour.l as i64 - quantized.l as i64,
            a: colour.a as i64 - quantized.a as i64,
            b: colour.b as i64 - quantized.b as i64,
        },
    )
}

} // verus!
