//! Palette discovery: k-means clustering of an image's colours.
//!
//! Seeding picks the initial centres, the only step that draws random
//! numbers. Refinement then alternates between assigning every pixel to its
//! nearest centre and moving every centre to the mean of its pixels, until
//! the scores stop changing or the iteration cap is reached.

use rand::rngs::StdRng;
use vstd::prelude::*;
use crate::colour::{
    average_lab, nearest, oklab_distance, spec_average_lab, spec_nearest, spec_oklab_distance,
    spec_unique_colours, unique_colours, Lab, Member,
};
use crate::fixed::{f32_equal, near};
use crate::image::{spec_black, Image, Rgb8};
use crate::random::{
    lemma_total_weight_bound, lemma_total_weight_zero, uniform_index, weighted_index,
};

verus! {

/// Why clustering could not start.
#[derive(Clone, Copy, Debug, PartialEq, Eq, Structural)]
pub enum ClusterError {
    /// Zero clusters were asked for.
    InvalidClusterCount,
    /// Every colour left to draw from coincides with a centre already chosen.
    DegenerateWeights,
}

/// One group of pixels: its centre, the pixels assigned to it and the mean
/// distance of those pixels from the centre.
#[derive(Clone, Debug)]
pub struct Cluster {
    pub average_pixel: Lab,
    pub members: Vec<Member>,
    pub score: i64,
}

/// The mathematical content of a [`Cluster`].
pub struct ClusterView {
    pub average_pixel: Lab,
    pub members: Seq<Member>,
    pub score: int,
}

impl View for Cluster {
    type V = ClusterView;

    open spec fn view(&self) -> ClusterView {
        ClusterView {
            average_pixel: self.average_pixel,
            members: self.members@,
            score: self.score as int,
        }
    }
}

/// The views of a sequence of clusters.
pub open spec fn views(clusters: Seq<Cluster>) -> Seq<ClusterView> {
    Seq::new(clusters.len(), |k: int| clusters[k]@)
}

/// The centres of a sequence of clusters.
pub open spec fn centroids(clusters: Seq<ClusterView>) -> Seq<Lab> {
    Seq::new(clusters.len(), |k: int| clusters[k].average_pixel)
}

/// Clusters with the given centres, no members yet and score zero.
pub open spec fn fresh(centres: Seq<Lab>) -> Seq<ClusterView> {
    Seq::new(
        centres.len(),
        |k: int| ClusterView { average_pixel: centres[k], members: Seq::empty(), score: 0 },
    )
}

/// The coordinates of the pixel stored at offset `i` of a row-major buffer.
pub open spec fn spec_position(i: int, width: int) -> (u32, u32) {
    ((i % width) as u32, (i / width) as u32)
}

/// The pixels among the first `n` whose nearest centre is number `k`, in
/// buffer order, each with its coordinates.
pub open spec fn spec_members(
    pixels: Seq<Lab>,
    width: int,
    centres: Seq<Lab>,
    k: int,
    n: int,
) -> Seq<Member>
    decreases n,
{
    if n <= 0 {
        Seq::empty()
    } else {
        let rest = spec_members(pixels, width, centres, k, n - 1);
        if spec_nearest(pixels[n - 1], centres) == k {
            let (x, y) = spec_position(n - 1, width);
            rest.push((x, y, pixels[n - 1]))
        } else {
            rest
        }
    }
}

/// Sum of the distances of the colours of `members` from `centre`.
pub open spec fn distance_sum(members: Seq<Member>, centre: Lab) -> int
    decreases members.len(),
{
    if members.len() == 0 {
        0
    } else {
        distance_sum(members.drop_last(), centre) + spec_oklab_distance(members.last().2, centre)
    }
}

/// Mean distance of `members` from `centre`, rounded down; zero for no members.
pub open spec fn spec_score(members: Seq<Member>, centre: Lab) -> int {
    if members.len() == 0 {
        0
    } else {
        distance_sum(members, centre) / (members.len() as int)
    }
}

/// Cluster `k` after one round: the pixels nearest to centre `k`, their mean
/// as the new centre, and their mean distance from that new centre.
pub open spec fn regroup(pixels: Seq<Lab>, width: int, centres: Seq<Lab>, k: int) -> ClusterView {
    let members = spec_members(pixels, width, centres, k, pixels.len() as int);
    let centre = spec_average_lab(members);
    ClusterView { average_pixel: centre, members, score: spec_score(members, centre) }
}

/// One round of refinement applied to every cluster.
pub open spec fn spec_lloyd_step(
    pixels: Seq<Lab>,
    width: int,
    clusters: Seq<ClusterView>,
) -> Seq<ClusterView> {
    Seq::new(clusters.len(), |k: int| regroup(pixels, width, centroids(clusters), k))
}

/// No score moved by `EPSILON` or more between `before` and `after`.
pub open spec fn scores_settled(before: Seq<ClusterView>, after: Seq<ClusterView>) -> bool {
    forall|k: int|
        0 <= k < before.len() && k < after.len() ==> near(
            (#[trigger] after[k]).score,
            before[k].score,
        )
}

/// Refinement run from `clusters` for at most `cap` rounds, stopping after
/// the first round that leaves the scores settled.
pub open spec fn spec_refine(
    pixels: Seq<Lab>,
    width: int,
    clusters: Seq<ClusterView>,
    cap: nat,
) -> Seq<ClusterView>
    decreases cap,
{
    if cap == 0 {
        clusters
    } else {
        let next = spec_lloyd_step(pixels, width, clusters);
        if scores_settled(clusters, next) {
            next
        } else {
            spec_refine(pixels, width, next, (cap - 1) as nat)
        }
    }
}

/// The number of rounds that an optional cap stands for.
pub open spec fn spec_cap(max_iterations: Option<u32>) -> nat {
    match max_iterations {
        Some(cap) => cap as nat,
        None => u32::MAX as nat,
    }
}

/// The sum of distances from a centre grows by at most the largest
/// distance with every member.
pub proof fn lemma_distance_sum_bound(members: Seq<Member>, centre: Lab)
    ensures
        0 <= distance_sum(members, centre) <= 0x3_ffff_ffff * members.len(),
    decreases members.len(),
{
    if members.len() > 0 {
        lemma_distance_sum_bound(members.drop_last(), centre);
        crate::colour::lemma_distance_range(members.last().2, centre);
    }
}

/// Mean distance of `members` from `centre`; zero when there are none.
pub fn score(members: &[Member], centre: &Lab) -> (s: i64)
    ensures
        s == spec_score(members@, *centre),
        0 <= s < 0x4_0000_0000,
{
    let n = members.len();
    if n == 0 {
        return 0;
    }
    let mut total: u128 = 0;
    let mut i: usize = 0;
    while i < n
        invariant
            i <= n,
            n == members@.len(),
            total == distance_sum(members@.take(i as int), *centre),
        decreases n - i,
    {
        proof {
            assert(members@.take(i + 1).drop_last() == members@.take(i as int));
            lemma_distance_sum_bound(members@.take(i as int), *centre);
        }
        let d = oklab_distance(&members[i].2, centre);
        total = total + d as u128;
        i += 1;
    }
    proof {
        assert(members@.take(n as int) == members@);
        lemma_distance_sum_bound(members@, *centre);
        let t = total as int;
        let m = n as int;
        assert(t / m < 0x4_0000_0000 && t / m >= 0) by (nonlinear_arith)
            requires
                0 <= t <= 0x3_ffff_ffff * m,
                m > 0,
        {
            if t / m >= 0x4_0000_0000 {
                assert((t / m) * m <= t);
                assert((t / m) * m >= 0x4_0000_0000 * m);
            }
        }
    }
    (total / (n as u128)) as i64
}

/// How many of the first `n` pixels the first `k` clusters hold together.
pub open spec fn members_held(
    pixels: Seq<Lab>,
    width: int,
    centres: Seq<Lab>,
    k: int,
    n: int,
) -> int
    decreases k,
{
    if k <= 0 {
        0
    } else {
        members_held(pixels, width, centres, k - 1, n) + spec_members(
            pixels,
            width,
            centres,
            k - 1,
            n,
        ).len()
    }
}

/// Considering one more pixel adds one member to the clusters up to `k` if
/// the pixel's nearest centre is among them, and none otherwise.
proof fn lemma_members_held_step(pixels: Seq<Lab>, width: int, centres: Seq<Lab>, k: int, n: int)
    requires
        0 <= k,
        0 < n,
    ensures
        members_held(pixels, width, centres, k, n) == members_held(pixels, width, centres, k, n - 1)
            + (if 0 <= spec_nearest(pixels[n - 1], centres) < k {
            1int
        } else {
            0int
        }),
    decreases k,
{
    if k > 0 {
        lemma_members_held_step(pixels, width, centres, k - 1, n);
    }
}

/// A round of assignment puts every pixel into exactly one cluster: the
/// member lists of all clusters together hold as many pixels as there are.
pub proof fn lemma_members_partition(pixels: Seq<Lab>, width: int, centres: Seq<Lab>, n: int)
    requires
        centres.len() > 0,
        0 <= n <= pixels.len(),
    ensures
        members_held(pixels, width, centres, centres.len() as int, n) == n,
    decreases n,
{
    if n == 0 {
        lemma_members_held_none(pixels, width, centres, centres.len() as int);
    } else {
        lemma_members_partition(pixels, width, centres, n - 1);
        lemma_members_held_step(pixels, width, centres, centres.len() as int, n);
        crate::colour::lemma_nearest_exists(pixels[n - 1], centres);
    }
}

/// No cluster holds any of the first zero pixels.
proof fn lemma_members_held_none(pixels: Seq<Lab>, width: int, centres: Seq<Lab>, k: int)
    ensures
        members_held(pixels, width, centres, k, 0) == 0,
    decreases k,
{
    if k > 0 {
        lemma_members_held_none(pixels, width, centres, k - 1);
    }
}

/// The distances of the first `n` pixels from the centres that `choice`
/// gives them, added up.
pub open spec fn assigned_distance(
    pixels: Seq<Lab>,
    centres: Seq<Lab>,
    choice: spec_fn(int) -> int,
    n: int,
) -> int
    decreases n,
{
    if n <= 0 {
        0
    } else {
        assigned_distance(pixels, centres, choice, n - 1) + spec_oklab_distance(
            pixels[n - 1],
            centres[choice(n - 1)],
        )
    }
}

/// For given centres, no way of assigning pixels to centres brings the
/// pixels closer to their centres, in total, than giving each pixel to its
/// nearest centre.
pub proof fn lemma_nearest_assignment_is_optimal(
    pixels: Seq<Lab>,
    centres: Seq<Lab>,
    choice: spec_fn(int) -> int,
    n: int,
)
    requires
        centres.len() > 0,
        0 <= n <= pixels.len(),
        forall|i: int| 0 <= i < n ==> 0 <= #[trigger] choice(i) < centres.len(),
    ensures
        assigned_distance(pixels, centres, |i: int| spec_nearest(pixels[i], centres), n)
            <= assigned_distance(pixels, centres, choice, n),
    decreases n,
{
    if n > 0 {
        lemma_nearest_assignment_is_optimal(pixels, centres, choice, n - 1);
        assert(0 <= choice(n - 1) < centres.len());
        crate::colour::lemma_nearest_is_closest(pixels[n - 1], centres, choice(n - 1));
    }
}

/// For every pixel, the number of its nearest centre.
fn assign(pixels: &Vec<Lab>, centres: &Vec<Lab>) -> (nearest_centre: Vec<usize>)
    requires
        centres@.len() > 0,
    ensures
        nearest_centre@.len() == pixels@.len(),
        forall|i: int|
            0 <= i < pixels@.len() ==> #[trigger] nearest_centre@[i] as int == spec_nearest(
                pixels@[i],
                centres@,
            ),
{
    let mut nearest_centre: Vec<usize> = Vec::new();
    let mut i: usize = 0;
    while i < pixels.len()
        invariant
            i <= pixels@.len(),
            centres@.len() > 0,
            nearest_centre@.len() == i,
            forall|j: int|
                0 <= j < i ==> #[trigger] nearest_centre@[j] as int == spec_nearest(
                    pixels@[j],
                    centres@,
                ),
        decreases pixels.len() - i,
    {
        let k = nearest(&pixels[i], centres.as_slice());
        nearest_centre.push(k);
        i += 1;
    }
    nearest_centre
}

/// The pixels assigned to centre `k`, with their coordinates.
fn gather(img: &Image<Lab>, centres: &Vec<Lab>, nearest_centre: &Vec<usize>, k: usize) -> (members:
    Vec<Member>)
    requires
        img.wf(),
        nearest_centre@.len() == img.pixels@.len(),
        forall|i: int|
            0 <= i < img.pixels@.len() ==> #[trigger] nearest_centre@[i] as int == spec_nearest(
                img.pixels@[i],
                centres@,
            ),
    ensures
        members@ == spec_members(
            img.pixels@,
            img.width as int,
            centres@,
            k as int,
            img.pixels@.len() as int,
        ),
{
    let mut members: Vec<Member> = Vec::new();
    let n = img.pixels.len();
    let mut i: usize = 0;
    while i < n
        invariant
            i <= n,
            n == img.pixels@.len(),
            img.wf(),
            nearest_centre@.len() == n,
            forall|j: int|
                0 <= j < n ==> #[trigger] nearest_centre@[j] as int == spec_nearest(
                    img.pixels@[j],
                    centres@,
                ),
            members@ == spec_members(img.pixels@, img.width as int, centres@, k as int, i as int),
        decreases n - i,
    {
        if nearest_centre[i] == k {
            let (x, y) = img.position_of(i);
            members.push((x, y, img.pixels[i]));
        }
        i += 1;
    }
    members
}

/// One round of refinement: reassigns every pixel to its nearest centre,
/// then recomputes each cluster's centre and score from its new members.
/// Returns whether every score stayed within `EPSILON` of what it was.
pub fn lloyd_step(img: &Image<Lab>, clusters: &mut Vec<Cluster>) -> (settled: bool)
    requires
        img.wf(),
    ensures
        views(final(clusters)@) == spec_lloyd_step(
            img.pixels@,
            img.width as int,
            views(old(clusters)@),
        ),
        settled == scores_settled(views(old(clusters)@), views(final(clusters)@)),
{
    let count = clusters.len();
    let ghost before = views(clusters@);
    if count == 0 {
        assert(views(clusters@) =~= spec_lloyd_step(img.pixels@, img.width as int, before));
        return true;
    }
    let mut centres: Vec<Lab> = Vec::new();
    let mut k: usize = 0;
    while k < count
        invariant
            k <= count,
            count == clusters@.len(),
            centres@.len() == k,
            forall|j: int| 0 <= j < k ==> #[trigger] centres@[j] == clusters@[j].average_pixel,
        decreases count - k,
    {
        centres.push(clusters[k].average_pixel);
        k += 1;
    }
    assert(centres@ =~= centroids(before));
    let nearest_centre = assign(&img.pixels, &centres);
    let mut settled = true;
    let mut k: usize = 0;
    while k < count
        invariant
            k <= count,
            count == clusters@.len(),
            count == before.len(),
            img.wf(),
            centres@ == centroids(before),
            nearest_centre@.len() == img.pixels@.len(),
            forall|i: int|
                0 <= i < img.pixels@.len() ==> #[trigger] nearest_centre@[i] as int
                    == spec_nearest(img.pixels@[i], centres@),
            forall|j: int|
                0 <= j < k ==> (#[trigger] clusters@[j])@ == regroup(
                    img.pixels@,
                    img.width as int,
                    centres@,
                    j,
                ),
            forall|j: int| k <= j < count ==> (#[trigger] clusters@[j])@ == before[j],
            settled == (forall|j: int|
                0 <= j < k ==> near(
                    regroup(img.pixels@, img.width as int, centres@, j).score,
                    (#[trigger] before[j]).score,
                )),
        decreases count - k,
    {
        let members = gather(img, &centres, &nearest_centre, k);
        let average_pixel = average_lab(members.as_slice());
        let score = score(members.as_slice(), &average_pixel);
        if !f32_equal(score, clusters[k].score) {
            settled = false;
        }
        clusters.set(k, Cluster { average_pixel, members, score });
        k += 1;
    }
    proof {
        let after = views(clusters@);
        assert(after =~= spec_lloyd_step(img.pixels@, img.width as int, before));
        assert(settled == scores_settled(before, after)) by {
            if settled {
                assert forall|j: int| 0 <= j < before.len() && j < after.len() implies near(
                    (#[trigger] after[j]).score,
                    before[j].score,
                ) by {
                    assert(near(
                        regroup(img.pixels@, img.width as int, centres@, j).score,
                        before[j].score,
                    ));
                }
            } else {
                let j = choose|j: int|
                    0 <= j < k && !near(
                        regroup(img.pixels@, img.width as int, centres@, j).score,
                        (#[trigger] before[j]).score,
                    );
                assert(!near(after[j].score, before[j].score));
            }
        }
    }
    settled
}

/// Refines `clusters` round by round until a round leaves every score
/// settled or `max_iterations` rounds have run. Without a cap the run is
/// limited to `u32::MAX` rounds.
pub fn refine(img: &Image<Lab>, clusters: Vec<Cluster>, max_iterations: Option<u32>) -> (refined:
    Vec<Cluster>)
    requires
        img.wf(),
    ensures
        views(refined@) == spec_refine(
            img.pixels@,
            img.width as int,
            views(clusters@),
            spec_cap(max_iterations),
        ),
{
    let cap: u32 = match max_iterations {
        Some(cap) => cap,
        None => u32::MAX,
    };
    let ghost start = views(clusters@);
    let mut clusters = clusters;
    let mut it: u32 = 0;
    let mut converged = false;
    while !converged && it < cap
        invariant
            it <= cap,
            img.wf(),
            cap == spec_cap(max_iterations),
            converged ==> views(clusters@) == spec_refine(
                img.pixels@,
                img.width as int,
                start,
                cap as nat,
            ),
            !converged ==> spec_refine(
                img.pixels@,
                img.width as int,
                views(clusters@),
                (cap - it) as nat,
            ) == spec_refine(img.pixels@, img.width as int, start, cap as nat),
        decreases cap - it, (if converged { 0int } else { 1int }),
    {
        converged = lloyd_step(img, &mut clusters);
        it += 1;
    }
    clusters
}

/// The weight with which `c` is drawn as the next centre: a hundred times
/// its distance from the nearest centre chosen so far.
pub open spec fn spec_seed_weight(c: Lab, centres: Seq<Lab>) -> int
    recommends
        centres.len() > 0,
{
    100 * spec_oklab_distance(c, centres[spec_nearest(c, centres)])
}

/// The centres fixed before any draw: the seed colour, if there is one.
pub open spec fn pinned(seed_colour: Option<Lab>) -> Seq<Lab> {
    match seed_colour {
        Some(c) => seq![c],
        None => Seq::empty(),
    }
}

/// Centre `j` is one of the `unique` colours, and unless it was the first
/// draw that colour had a positive weight against the centres before it.
pub open spec fn drawn_from(unique: Seq<Lab>, centres: Seq<Lab>, first_draw: int, j: int) -> bool {
    exists|idx: int|
        0 <= idx < unique.len() && centres[j] == #[trigger] unique[idx] && (j == first_draw
            || spec_seed_weight(unique[idx], centres.take(j)) > 0)
}

/// `centres` starts with the pinned centres and every further one was drawn
/// from `unique`.
pub open spec fn seeded_prefix(unique: Seq<Lab>, seed_colour: Option<Lab>, centres: Seq<Lab>) -> bool {
    let fixed = pinned(seed_colour);
    &&& fixed.len() <= centres.len()
    &&& centres.take(fixed.len() as int) == fixed
    &&& forall|j: int|
        fixed.len() <= j < centres.len() ==> #[trigger] drawn_from(
            unique,
            centres,
            fixed.len() as int,
            j,
        )
}

/// `centres` is a possible outcome of seeding `count` clusters.
///
/// When the unique colours do not outnumber the clusters left after the
/// seed colour, each becomes a centre. Otherwise exactly `count` centres
/// come out, the pinned one first and the others drawn.
pub open spec fn valid_seeding(
    unique: Seq<Lab>,
    count: int,
    seed_colour: Option<Lab>,
    centres: Seq<Lab>,
) -> bool {
    let fixed = pinned(seed_colour);
    if unique.len() <= count - fixed.len() {
        centres == fixed + unique
    } else {
        centres.len() == count && seeded_prefix(unique, seed_colour, centres)
    }
}

/// Seeding got as far as `chosen` and could not draw again: every unique
/// colour is at distance zero from a centre already chosen.
pub open spec fn stalled(
    unique: Seq<Lab>,
    count: int,
    seed_colour: Option<Lab>,
    chosen: Seq<Lab>,
) -> bool {
    &&& unique.len() > count - pinned(seed_colour).len()
    &&& seeded_prefix(unique, seed_colour, chosen)
    &&& pinned(seed_colour).len() < chosen.len() < count
    &&& forall|i: int| 0 <= i < unique.len() ==> spec_seed_weight(#[trigger] unique[i], chosen) == 0
}

/// The drawing weight of every unique colour against the centres so far.
pub fn seed_weights(unique: &Vec<Lab>, centres: &Vec<Lab>) -> (weights: Vec<u128>)
    requires
        centres@.len() > 0,
    ensures
        weights@.len() == unique@.len(),
        forall|i: int|
            0 <= i < unique@.len() ==> #[trigger] weights@[i] as int == spec_seed_weight(
                unique@[i],
                centres@,
            ),
        forall|i: int| 0 <= i < unique@.len() ==> #[trigger] weights@[i] <= 0x190_0000_0000,
{
    let mut weights: Vec<u128> = Vec::new();
    let mut i: usize = 0;
    while i < unique.len()
        invariant
            i <= unique@.len(),
            centres@.len() > 0,
            weights@.len() == i,
            forall|j: int|
                0 <= j < i ==> #[trigger] weights@[j] as int == spec_seed_weight(
                    unique@[j],
                    centres@,
                ),
            forall|j: int| 0 <= j < i ==> #[trigger] weights@[j] <= 0x190_0000_0000,
        decreases unique.len() - i,
    {
        let k = nearest(&unique[i], centres.as_slice());
        let d = oklab_distance(&unique[i], &centres[k]);
        weights.push(100 * (d as u128));
        i += 1;
    }
    weights
}

/// Chooses the initial centres for `num_clusters` clusters.
///
/// A seed colour, if given, is the first centre and is never redrawn. If the
/// unique colours do not outnumber the clusters still to seed, each becomes
/// a centre. Otherwise the first centre is drawn uniformly from the unique
/// colours and every further one with probability proportional to its
/// distance from the nearest centre chosen so far.
pub fn seed_centres(
    unique: &Vec<Lab>,
    num_clusters: u32,
    seed_colour: Option<Lab>,
    rng: &mut StdRng,
) -> (r: Result<Vec<Lab>, ClusterError>)
    ensures
        r == Err::<Vec<Lab>, ClusterError>(ClusterError::InvalidClusterCount) <==> num_clusters
            == 0,
        num_clusters > 0 && unique@.len() <= num_clusters - pinned(seed_colour).len() ==> r is Ok,
        r matches Ok(centres) ==> valid_seeding(
            unique@,
            num_clusters as int,
            seed_colour,
            centres@,
        ),
        r == Err::<Vec<Lab>, ClusterError>(ClusterError::DegenerateWeights) ==> exists|
            chosen: Seq<Lab>,
        | stalled(unique@, num_clusters as int, seed_colour, chosen),
{
    if num_clusters == 0 {
        return Err(ClusterError::InvalidClusterCount);
    }
    let mut centres: Vec<Lab> = Vec::new();
    let mut remaining: usize = num_clusters as usize;
    if let Some(c) = seed_colour {
        centres.push(c);
        remaining = remaining - 1;
    }
    let ghost fixed = pinned(seed_colour);
    assert(centres@ =~= fixed);
    if unique.len() <= remaining {
        let mut i: usize = 0;
        while i < unique.len()
            invariant
                i <= unique@.len(),
                centres@ == fixed + unique@.take(i as int),
            decreases unique.len() - i,
        {
            centres.push(unique[i]);
            proof {
                assert(unique@.take(i + 1) =~= unique@.take(i as int).push(unique@[i as int]));
                assert(centres@ =~= fixed + unique@.take(i + 1));
            }
            i += 1;
        }
        assert(unique@.take(i as int) == unique@);
        return Ok(centres);
    }
    assert(centres@.take(fixed.len() as int) =~= fixed);
    let mut i: usize = 0;
    while i < remaining
        invariant
            i <= remaining,
            remaining == num_clusters - fixed.len(),
            fixed == pinned(seed_colour),
            unique@.len() > remaining,
            centres@.len() == fixed.len() + i,
            seeded_prefix(unique@, seed_colour, centres@),
        decreases remaining - i,
    {
        let ghost chosen = centres@;
        let idx = if i == 0 {
            uniform_index(rng, unique.len())
        } else {
            let weights = seed_weights(unique, &centres);
            proof {
                lemma_total_weight_bound(weights@, 0x190_0000_0000);
                assert(0x190_0000_0000 * weights@.len() <= u128::MAX) by (nonlinear_arith)
                    requires
                        weights@.len() <= 0xffff_ffff_ffff_ffff,
                ;
                lemma_total_weight_zero(weights@);
            }
            match weighted_index(rng, &weights) {
                Some(idx) => idx,
                None => {
                    proof {
                        assert forall|j: int| 0 <= j < unique@.len() implies spec_seed_weight(
                            #[trigger] unique@[j],
                            chosen,
                        ) == 0 by {
                            assert(weights@[j] == 0);
                        }
                        assert(stalled(unique@, num_clusters as int, seed_colour, chosen));
                    }
                    return Err(ClusterError::DegenerateWeights);
                },
            }
        };
        centres.push(unique[idx]);
        proof {
            let grown = centres@;
            let first = fixed.len() as int;
            assert(grown.take(first) =~= chosen.take(first));
            assert forall|j: int| first <= j < grown.len() implies #[trigger] drawn_from(
                unique@,
                grown,
                first,
                j,
            ) by {
                if j < chosen.len() {
                    assert(drawn_from(unique@, chosen, first, j));
                    assert(grown.take(j) =~= chosen.take(j));
                    let w = choose|w: int|
                        0 <= w < unique@.len() && chosen[j] == #[trigger] unique@[w] && (j == first
                            || spec_seed_weight(unique@[w], chosen.take(j)) > 0);
                    assert(grown[j] == unique@[w]);
                } else {
                    assert(grown.take(j) =~= chosen);
                    assert(grown[j] == unique@[idx as int]);
                }
            }
        }
        i += 1;
    }
    Ok(centres)
}

/// Fresh clusters around the given centres: no members, score zero.
pub fn fresh_clusters(centres: &Vec<Lab>) -> (clusters: Vec<Cluster>)
    ensures
        views(clusters@) == fresh(centres@),
{
    let mut clusters: Vec<Cluster> = Vec::new();
    let mut k: usize = 0;
    while k < centres.len()
        invariant
            k <= centres@.len(),
            clusters@.len() == k,
            forall|j: int|
                0 <= j < k ==> (#[trigger] clusters@[j])@ == (ClusterView {
                    average_pixel: centres@[j],
                    members: Seq::empty(),
                    score: 0,
                }),
        decreases centres.len() - k,
    {
        clusters.push(Cluster { average_pixel: centres[k], members: Vec::new(), score: 0 });
        k += 1;
    }
    assert(views(clusters@) =~= fresh(centres@));
    clusters
}

/// Clusters the colours of `img` into at most `num_clusters` groups.
///
/// The distinct colours of the image are seeded as [`seed_centres`]
/// describes, with `seed_colour` pinned as the first centre if given, and the
/// seeded clusters are refined as [`refine`] describes. Asking for zero
/// clusters is an error. Which centres the seeding draws is up to `rng`;
/// everything after the draw is determined.
pub fn cluster(
    img: &Image<Lab>,
    num_clusters: u32,
    max_iterations: Option<u32>,
    seed_colour: Option<Lab>,
    rng: &mut StdRng,
) -> (r: Result<Vec<Cluster>, ClusterError>)
    requires
        img.wf(),
    ensures
        r matches Err(e) ==> (e == ClusterError::InvalidClusterCount <==> num_clusters == 0),
        num_clusters == 0 ==> r is Err,
        num_clusters > 0 && spec_unique_colours(img.pixels@).len() <= num_clusters - pinned(
            seed_colour,
        ).len() ==> r is Ok,
        r matches Ok(clusters) ==> exists|centres: Seq<Lab>|
            valid_seeding(
                spec_unique_colours(img.pixels@),
                num_clusters as int,
                seed_colour,
                centres,
            ) && views(clusters@) == spec_refine(
                img.pixels@,
                img.width as int,
                #[trigger] fresh(centres),
                spec_cap(max_iterations),
            ),
        r matches Err(e) ==> e == ClusterError::DegenerateWeights ==> exists|chosen: Seq<Lab>|
            stalled(spec_unique_colours(img.pixels@), num_clusters as int, seed_colour, chosen),
{
    let unique = unique_colours(img.pixels.as_slice());
    match seed_centres(&unique, num_clusters, seed_colour, rng) {
        Ok(centres) => {
            let clusters = fresh_clusters(&centres);
            Ok(refine(img, clusters, max_iterations))
        },
        Err(e) => Err(e),
    }
}

/// The centre of `c` is closer than `threshold` to `reference`.
pub open spec fn matches_reference(c: ClusterView, reference: Lab, threshold: int) -> bool {
    spec_oklab_distance(c.average_pixel, reference) < threshold
}

/// Some cluster matches the reference colour.
pub open spec fn any_match(clusters: Seq<ClusterView>, reference: Lab, threshold: int) -> bool {
    exists|k: int|
        0 <= k < clusters.len() && matches_reference(#[trigger] clusters[k], reference, threshold)
}

/// One of the first `upto` members of `c` sits at `(x, y)`.
pub open spec fn holds(c: ClusterView, x: int, y: int, upto: int) -> bool {
    exists|j: int|
        0 <= j < upto && j < c.members.len() && (#[trigger] c.members[j]).0 == x
            && c.members[j].1 == y
}

/// One of the first `upto` clusters matches the reference colour and has a
/// member at `(x, y)`.
pub open spec fn covered(
    clusters: Seq<ClusterView>,
    reference: Lab,
    threshold: int,
    x: int,
    y: int,
    upto: int,
) -> bool {
    exists|k: int|
        0 <= k < upto && k < clusters.len() && matches_reference(
            #[trigger] clusters[k],
            reference,
            threshold,
        ) && holds(clusters[k], x, y, clusters[k].members.len() as int)
}

/// The pixel at `(x, y)` belongs to a cluster that matches the reference colour.
pub open spec fn is_matched(
    clusters: Seq<ClusterView>,
    reference: Lab,
    threshold: int,
    x: int,
    y: int,
) -> bool {
    covered(clusters, reference, threshold, x, y, clusters.len() as int)
}

/// Every member of every matching cluster lies inside a `width` by `height` image.
pub open spec fn matching_members_inside(
    clusters: Seq<ClusterView>,
    reference: Lab,
    threshold: int,
    width: int,
    height: int,
) -> bool {
    forall|k: int, j: int|
        0 <= k < clusters.len() && matches_reference(clusters[k], reference, threshold) && 0 <= j
            < clusters[k].members.len() ==> (#[trigger] clusters[k].members[j]).0 < width
            && clusters[k].members[j].1 < height
}

/// Cluster `k` matches and one of its first `j` members sits at `(x, y)`, or
/// an earlier matching cluster has a member there.
pub open spec fn reached(
    clusters: Seq<ClusterView>,
    reference: Lab,
    threshold: int,
    x: int,
    y: int,
    k: int,
    j: int,
) -> bool {
    covered(clusters, reference, threshold, x, y, k) || (0 <= k < clusters.len()
        && matches_reference(clusters[k], reference, threshold) && holds(clusters[k], x, y, j))
}

/// `out` has the size of `img`; it shows `img` at the positions whose
/// `reached` status is `wanted` and black everywhere else.
pub open spec fn shows_upto(
    out: Image<Rgb8>,
    img: Image<Rgb8>,
    clusters: Seq<ClusterView>,
    reference: Lab,
    threshold: int,
    k: int,
    j: int,
    wanted: bool,
) -> bool {
    &&& out.wf()
    &&& out.width == img.width
    &&& out.height == img.height
    &&& forall|x: int, y: int|
        img.contains(x, y) ==> #[trigger] out.at(x, y) == if reached(
            clusters,
            reference,
            threshold,
            x,
            y,
            k,
            j,
        ) == wanted {
            img.at(x, y)
        } else {
            spec_black()
        }
}

/// `out` has the size of `img`; it shows `img` at the positions whose
/// matched status is `wanted` and black everywhere else.
pub open spec fn shows(
    out: Image<Rgb8>,
    img: Image<Rgb8>,
    clusters: Seq<ClusterView>,
    reference: Lab,
    threshold: int,
    wanted: bool,
) -> bool {
    &&& out.wf()
    &&& out.width == img.width
    &&& out.height == img.height
    &&& forall|x: int, y: int|
        img.contains(x, y) ==> #[trigger] out.at(x, y) == if is_matched(
            clusters,
            reference,
            threshold,
            x,
            y,
        ) == wanted {
            img.at(x, y)
        } else {
            spec_black()
        }
}

/// A copy of `img`.
fn copy_image(img: &Image<Rgb8>) -> (out: Image<Rgb8>)
    requires
        img.wf(),
    ensures
        out.wf(),
        out.width == img.width,
        out.height == img.height,
        out.pixels@ == img.pixels@,
{
    let mut pixels: Vec<Rgb8> = Vec::new();
    let mut i: usize = 0;
    while i < img.pixels.len()
        invariant
            i <= img.pixels@.len(),
            pixels@ == img.pixels@.take(i as int),
        decreases img.pixels.len() - i,
    {
        pixels.push(img.pixels[i]);
        assert(pixels@ =~= img.pixels@.take(i + 1));
        i += 1;
    }
    assert(img.pixels@.take(i as int) == img.pixels@);
    Image { width: img.width, height: img.height, pixels }
}

/// Splits `img` by cluster membership.
///
/// A cluster matches when its centre is closer than `threshold` to
/// `reference_colour`. If no cluster matches the answer is `None`. Otherwise
/// two images of the size of `img` come back: the first shows the pixels
/// that belong to a matching cluster and is black elsewhere, the second
/// shows the other pixels and is black where the first is not.
pub fn filter_matching_pixels(
    img: &Image<Rgb8>,
    clusters: &[Cluster],
    reference_colour: &Lab,
    threshold: i64,
) -> (r: Option<(Image<Rgb8>, Image<Rgb8>)>)
    requires
        img.wf(),
        matching_members_inside(
            views(clusters@),
            *reference_colour,
            threshold as int,
            img.width as int,
            img.height as int,
        ),
    ensures
        r is Some <==> any_match(views(clusters@), *reference_colour, threshold as int),
        r matches Some((matches, not_matches)) ==> {
            &&& shows(matches, *img, views(clusters@), *reference_colour, threshold as int, true)
            &&& shows(
                not_matches,
                *img,
                views(clusters@),
                *reference_colour,
                threshold as int,
                false,
            )
        },
{
    let ghost all = views(clusters@);
    let ghost reference = *reference_colour;
    let ghost limit = threshold as int;
    let black = Rgb8 { r: 0, g: 0, b: 0 };
    let mut not_matches = copy_image(img);
    let mut matches = match Image::filled(img.width, img.height, black) {
        Some(blank) => blank,
        None => {
            assert(img.pixels.len() <= usize::MAX);
            return None;
        },
    };
    proof {
        assert forall|x: int, y: int| img.contains(x, y) implies #[trigger] matches.at(x, y)
            == spec_black() by {
            crate::image::lemma_offset_in_bounds(img.width as int, img.height as int, x, y);
        }
        assert forall|x: int, y: int| img.contains(x, y) implies !reached(
            all,
            reference,
            limit,
            x,
            y,
            0,
            0,
        ) by {}
    }
    let mut found = false;
    let mut k: usize = 0;
    while k < clusters.len()
        invariant
            k <= clusters@.len(),
            all == views(clusters@),
            reference == *reference_colour,
            limit == threshold as int,
            black == spec_black(),
            img.wf(),
            matching_members_inside(all, reference, limit, img.width as int, img.height as int),
            found <==> exists|c: int|
                0 <= c < k && matches_reference(#[trigger] all[c], reference, limit),
            shows_upto(matches, *img, all, reference, limit, k as int, 0, true),
            shows_upto(not_matches, *img, all, reference, limit, k as int, 0, false),
        decreases clusters.len() - k,
    {
        let ghost current = all[k as int];
        assert(current == clusters@[k as int]@);
        if oklab_distance(&clusters[k].average_pixel, reference_colour) < threshold {
            found = true;
            let count = clusters[k].members.len();
            let mut j: usize = 0;
            while j < count
                invariant
                    j <= count,
                    k < clusters@.len(),
                    count == current.members.len(),
                    current == all[k as int],
                    current == clusters@[k as int]@,
                    all == views(clusters@),
                    black == spec_black(),
                    img.wf(),
                    matches_reference(current, reference, limit),
                    matching_members_inside(
                        all,
                        reference,
                        limit,
                        img.width as int,
                        img.height as int,
                    ),
                    shows_upto(matches, *img, all, reference, limit, k as int, j as int, true),
                    shows_upto(not_matches, *img, all, reference, limit, k as int, j as int, false),
                decreases count - j,
            {
                let (mx, my, _) = clusters[k].members[j];
                assert(current.members[j as int].0 == mx && current.members[j as int].1 == my);
                assert(all[k as int].members[j as int].0 < img.width);
                let pixel = img.get_pixel(mx, my);
                let ghost shown_before = matches;
                let ghost hidden_before = not_matches;
                matches.put_pixel(mx, my, pixel);
                not_matches.put_pixel(mx, my, black);
                proof {
                    lemma_mask_step(
                        shown_before,
                        matches,
                        *img,
                        all,
                        reference,
                        limit,
                        k as int,
                        j as int,
                        true,
                    );
                    lemma_mask_step(
                        hidden_before,
                        not_matches,
                        *img,
                        all,
                        reference,
                        limit,
                        k as int,
                        j as int,
                        false,
                    );
                }
                j += 1;
            }
        }
        proof {
            assert forall|x: int, y: int|
                reached(all, reference, limit, x, y, k as int, current.members.len() as int)
                    == reached(all, reference, limit, x, y, k + 1, 0) && (!matches_reference(
                    current,
                    reference,
                    limit,
                ) ==> reached(all, reference, limit, x, y, k as int, 0) == reached(
                    all,
                    reference,
                    limit,
                    x,
                    y,
                    k + 1,
                    0,
                )) by {
                lemma_covered_step(all, reference, limit, x, y, k as int);
            }
        }
        k += 1;
    }
    if found {
        Some((matches, not_matches))
    } else {
        None
    }
}

/// Writing the pixel of member `j` of matching cluster `k` into a mask
/// carries the mask from `j` members considered to `j + 1`.
proof fn lemma_mask_step(
    before: Image<Rgb8>,
    after: Image<Rgb8>,
    img: Image<Rgb8>,
    clusters: Seq<ClusterView>,
    reference: Lab,
    threshold: int,
    k: int,
    j: int,
    wanted: bool,
)
    requires
        img.wf(),
        0 <= k < clusters.len(),
        matches_reference(clusters[k], reference, threshold),
        0 <= j < clusters[k].members.len(),
        img.contains(clusters[k].members[j].0 as int, clusters[k].members[j].1 as int),
        shows_upto(before, img, clusters, reference, threshold, k, j, wanted),
        after.width == before.width,
        after.height == before.height,
        after.pixels@ == before.pixels@.update(
            crate::image::offset(
                img.width as int,
                clusters[k].members[j].0 as int,
                clusters[k].members[j].1 as int,
            ),
            if wanted {
                img.at(clusters[k].members[j].0 as int, clusters[k].members[j].1 as int)
            } else {
                spec_black()
            },
        ),
    ensures
        shows_upto(after, img, clusters, reference, threshold, k, j + 1, wanted),
{
    let current = clusters[k];
    let mx = current.members[j].0 as int;
    let my = current.members[j].1 as int;
    let w = img.width as int;
    let target = crate::image::offset(w, mx, my);
    crate::image::lemma_offset_in_bounds(w, img.height as int, mx, my);
    assert forall|x: int, y: int| img.contains(x, y) implies #[trigger] after.at(x, y) == if reached(
        clusters,
        reference,
        threshold,
        x,
        y,
        k,
        j + 1,
    ) == wanted {
        img.at(x, y)
    } else {
        spec_black()
    } by {
        crate::image::lemma_offset_in_bounds(w, img.height as int, x, y);
        let here = crate::image::offset(w, x, y);
        assert(before.at(x, y) == before.pixels@[here]);
        if here == target {
            assert(x == mx && y == my);
            assert(holds(current, x, y, j + 1));
        } else {
            assert(!(x == mx && y == my));
            if holds(current, x, y, j + 1) {
                let m = choose|m: int|
                    0 <= m < j + 1 && m < current.members.len() && (
                    #[trigger] current.members[m]).0 == x && current.members[m].1 == y;
                assert(m < j);
                assert(holds(current, x, y, j));
            }
            if holds(current, x, y, j) {
                let m = choose|m: int|
                    0 <= m < j && m < current.members.len() && (#[trigger] current.members[m]).0
                        == x && current.members[m].1 == y;
                assert(holds(current, x, y, j + 1));
            }
        }
    }
}

/// Extending the clusters considered by one adds exactly the positions that
/// cluster holds, provided it matches.
pub proof fn lemma_covered_step(
    clusters: Seq<ClusterView>,
    reference: Lab,
    threshold: int,
    x: int,
    y: int,
    k: int,
)
    requires
        0 <= k < clusters.len(),
    ensures
        covered(clusters, reference, threshold, x, y, k + 1) == (covered(
            clusters,
            reference,
            threshold,
            x,
            y,
            k,
        ) || (matches_reference(clusters[k], reference, threshold) && holds(
            clusters[k],
            x,
            y,
            clusters[k].members.len() as int,
        ))),
{
    if covered(clusters, reference, threshold, x, y, k + 1) {
        let c = choose|c: int|
            0 <= c < k + 1 && c < clusters.len() && matches_reference(
                #[trigger] clusters[c],
                reference,
                threshold,
            ) && holds(clusters[c], x, y, clusters[c].members.len() as int);
        if c < k {
            assert(covered(clusters, reference, threshold, x, y, k));
        }
    }
    if covered(clusters, reference, threshold, x, y, k) {
        let c = choose|c: int|
            0 <= c < k && c < clusters.len() && matches_reference(
                #[trigger] clusters[c],
                reference,
                threshold,
            ) && holds(clusters[c], x, y, clusters[c].members.len() as int);
        assert(covered(clusters, reference, threshold, x, y, k + 1));
    }
    if matches_reference(clusters[k], reference, threshold) && holds(
        clusters[k],
        x,
        y,
        clusters[k].members.len() as int,
    ) {
        assert(covered(clusters, reference, threshold, x, y, k + 1));
    }
}

} // verus!
