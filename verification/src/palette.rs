use vstd::prelude::*;

use crate::chance::random_byte;
use crate::myimage::MyImage;
use crate::raster::Rgba;

verus! {

/// A colour centre of the clustering used to pick a background colour.
#[derive(Clone, Copy, Debug, PartialEq, Eq)]
pub struct Barycentre {
    pub r: u8,
    pub g: u8,
    pub b: u8,
    pub a: u8,
}

/// Square of the difference of two channel values.
pub open spec fn sq_gap(a: u8, b: u8) -> nat {
    ((a - b) * (a - b)) as nat
}

/// Squared Euclidean distance between a centre and a pixel over the four channels.
pub open spec fn sq_dist(c: Barycentre, p: Rgba) -> nat {
    sq_gap(c.r, p.0) + sq_gap(c.g, p.1) + sq_gap(c.b, p.2) + sq_gap(c.a, p.3)
}

/// Integer square root: the largest `r` with `r * r <= n`.
pub open spec fn isqrt(n: nat) -> nat
    decreases n,
{
    if n == 0 {
        0
    } else {
        let r = isqrt((n - 1) as nat);
        if (r + 1) * (r + 1) <= n {
            r + 1
        } else {
            r
        }
    }
}

/// Euclidean distance between a centre and a pixel, rounded down.
pub open spec fn dist(c: Barycentre, p: Rgba) -> nat {
    isqrt(sq_dist(c, p))
}

/// `isqrt(n)` brackets the square root of `n`.
pub proof fn lemma_isqrt_bracket(n: nat)
    ensures
        isqrt(n) * isqrt(n) <= n < (isqrt(n) + 1) * (isqrt(n) + 1),
    decreases n,
{
    if n == 0 {
        assert(isqrt(0) == 0);
        assert(isqrt(n) * isqrt(n) <= n < (isqrt(n) + 1) * (isqrt(n) + 1)) by (nonlinear_arith)
            requires
                isqrt(n) == 0,
                n == 0,
        ;
    } else {
        lemma_isqrt_bracket((n - 1) as nat);
        let r = isqrt((n - 1) as nat);
        if (r + 1) * (r + 1) <= n {
            assert(isqrt(n) == r + 1);
            assert((r + 1) * (r + 1) <= n < (r + 2) * (r + 2)) by (nonlinear_arith)
                requires
                    (r + 1) * (r + 1) <= n,
                    n - 1 < (r + 1) * (r + 1),
            ;
        } else {
            assert(isqrt(n) == r);
            assert(n < (r + 1) * (r + 1));
        }
    }
}

/// A value that brackets the square root of `n` is `isqrt(n)`.
pub proof fn lemma_isqrt_unique(n: nat, r: nat)
    requires
        r * r <= n < (r + 1) * (r + 1),
    ensures
        isqrt(n) == r,
{
    lemma_isqrt_bracket(n);
    let q = isqrt(n);
    if q < r {
        assert((q + 1) * (q + 1) <= r * r) by (nonlinear_arith)
            requires
                q + 1 <= r,
        ;
    } else if r < q {
        assert((r + 1) * (r + 1) <= q * q) by (nonlinear_arith)
            requires
                r + 1 <= q,
        ;
    }
}

fn sq_gap_exec(a: u8, b: u8) -> (s: u64)
    ensures
        s == sq_gap(a, b),
        s <= 65025,
{
    let d: u64 = if a >= b {
        (a - b) as u64
    } else {
        (b - a) as u64
    };
    assert(d * d == (a - b) * (a - b)) by (nonlinear_arith)
        requires
            d == a - b || d == b - a,
    ;
    assert(d * d <= 65025) by (nonlinear_arith)
        requires
            d <= 255,
    ;
    d * d
}

impl Barycentre {
    /// Euclidean distance to `pixel` over the four channels, rounded down.
    pub fn distance(&self, pixel: &Rgba) -> (d: u64)
        ensures
            d == dist(*self, *pixel),
    {
        let s = sq_gap_exec(self.r, pixel.0) + sq_gap_exec(self.g, pixel.1) + sq_gap_exec(
            self.b,
            pixel.2,
        ) + sq_gap_exec(self.a, pixel.3);
        let mut lo: u64 = 0;
        let mut hi: u64 = 511;
        assert(s < 511 * 511);
        while hi - lo > 1
            invariant
                lo < hi <= 511,
                lo * lo <= s,
                s < hi * hi,
            decreases hi - lo,
        {
            let mid = lo + (hi - lo) / 2;
            assert(mid * mid <= 511 * 511) by (nonlinear_arith)
                requires
                    mid <= 511,
            ;
            if mid * mid <= s {
                lo = mid;
            } else {
                hi = mid;
            }
        }
        proof {
            lemma_isqrt_unique(s as nat, lo as nat);
        }
        lo
    }
}

/// Index of the first centre among `cs[0..k]` at the smallest distance from `p`.
pub open spec fn nearest_upto(cs: Seq<Barycentre>, p: Rgba, k: int) -> int
    decreases k,
{
    if k <= 1 {
        0
    } else {
        let j = nearest_upto(cs, p, k - 1);
        if dist(cs[k - 1], p) < dist(cs[j], p) {
            k - 1
        } else {
            j
        }
    }
}

/// Index of the first centre at the smallest distance from `p`.
pub open spec fn nearest(cs: Seq<Barycentre>, p: Rgba) -> int {
    nearest_upto(cs, p, cs.len() as int)
}

/// The centre a pixel goes to is a closest one, and the first of the closest
/// ones: no centre is closer, and every centre before it is farther.
pub proof fn lemma_nearest_is_closest(cs: Seq<Barycentre>, p: Rgba, k: int)
    requires
        1 <= k <= cs.len(),
    ensures
        0 <= nearest_upto(cs, p, k) < k,
        forall|j: int| 0 <= j < k ==> dist(cs[nearest_upto(cs, p, k)], p) <= #[trigger] dist(cs[j], p),
        forall|j: int|
            0 <= j < nearest_upto(cs, p, k) ==> #[trigger] dist(cs[j], p) > dist(
                cs[nearest_upto(cs, p, k)],
                p,
            ),
    decreases k,
{
    if k > 1 {
        lemma_nearest_is_closest(cs, p, k - 1);
    }
}

/// Channel `c` of a pixel: 0 red, 1 green, 2 blue, 3 alpha.
pub open spec fn chan(p: Rgba, c: int) -> nat {
    if c == 0 {
        p.0 as nat
    } else if c == 1 {
        p.1 as nat
    } else if c == 2 {
        p.2 as nat
    } else {
        p.3 as nat
    }
}

/// Number of pixels among `ps[0..n]` whose nearest centre is `g`.
pub open spec fn members(cs: Seq<Barycentre>, ps: Seq<Rgba>, g: int, n: int) -> nat
    decreases n,
{
    if n <= 0 {
        0
    } else {
        members(cs, ps, g, n - 1) + if nearest(cs, ps[n - 1]) == g {
            1nat
        } else {
            0nat
        }
    }
}

/// Sum of channel `c` over the pixels among `ps[0..n]` whose nearest centre is `g`.
pub open spec fn channel_total(cs: Seq<Barycentre>, ps: Seq<Rgba>, g: int, c: int, n: int) -> nat
    decreases n,
{
    if n <= 0 {
        0
    } else {
        channel_total(cs, ps, g, c, n - 1) + if nearest(cs, ps[n - 1]) == g {
            chan(ps[n - 1], c)
        } else {
            0nat
        }
    }
}

/// Size and channel sums of one cluster.
#[derive(Clone, Copy, Debug, PartialEq, Eq)]
pub struct GroupStats {
    pub count: u64,
    pub r: u64,
    pub g: u64,
    pub b: u64,
    pub a: u64,
}

impl GroupStats {
    /// Channel sum `c` of the cluster.
    pub open spec fn total(self, c: int) -> nat {
        if c == 0 {
            self.r as nat
        } else if c == 1 {
            self.g as nat
        } else if c == 2 {
            self.b as nat
        } else {
            self.a as nat
        }
    }

    /// The statistics of the cluster of centre `g` over the pixels `ps[0..n]`.
    pub open spec fn describes(self, cs: Seq<Barycentre>, ps: Seq<Rgba>, g: int, n: int) -> bool {
        &&& self.count == members(cs, ps, g, n)
        &&& forall|c: int| 0 <= c < 4 ==> #[trigger] self.total(c) == channel_total(cs, ps, g, c, n)
    }

    /// No channel sum exceeds 255 per member.
    pub open spec fn bounded(self) -> bool {
        forall|c: int| 0 <= c < 4 ==> #[trigger] self.total(c) <= 255 * self.count
    }

    /// The centre of mass of the cluster, each channel rounded down; `None` for an empty cluster.
    pub open spec fn mean_spec(self) -> Option<Barycentre> {
        if self.count == 0 {
            None
        } else {
            Some(
                Barycentre {
                    r: (self.r / self.count) as u8,
                    g: (self.g / self.count) as u8,
                    b: (self.b / self.count) as u8,
                    a: (self.a / self.count) as u8,
                },
            )
        }
    }

    /// The centre of mass of the cluster, each channel rounded down; `None` for an empty cluster.
    pub fn mean(&self) -> (m: Option<Barycentre>)
        requires
            self.bounded(),
        ensures
            m == self.mean_spec(),
    {
        if self.count == 0 {
            None
        } else {
            assert(self.total(0) <= 255 * self.count && self.total(1) <= 255 * self.count
                && self.total(2) <= 255 * self.count && self.total(3) <= 255 * self.count);
            proof {
                lemma_div_bound(self.r as nat, self.count as nat);
                lemma_div_bound(self.g as nat, self.count as nat);
                lemma_div_bound(self.b as nat, self.count as nat);
                lemma_div_bound(self.a as nat, self.count as nat);
            }
            Some(
                Barycentre {
                    r: (self.r / self.count) as u8,
                    g: (self.g / self.count) as u8,
                    b: (self.b / self.count) as u8,
                    a: (self.a / self.count) as u8,
                },
            )
        }
    }
}

proof fn lemma_div_bound(s: nat, n: nat)
    requires
        n > 0,
        s <= 255 * n,
    ensures
        s / n <= 255,
{
    vstd::arithmetic::div_mod::lemma_div_is_ordered(s as int, 255 * n as int, n as int);
    vstd::arithmetic::div_mod::lemma_div_multiples_vanish(255, n as int);
    assert(255 * n == n * 255) by (nonlinear_arith);
}

/// The nearest centre is one of the centres.
pub proof fn lemma_nearest_in_range(cs: Seq<Barycentre>, p: Rgba, k: int)
    requires
        1 <= k,
    ensures
        0 <= nearest_upto(cs, p, k) < k,
    decreases k,
{
    if k > 1 {
        lemma_nearest_in_range(cs, p, k - 1);
    }
}

/// Member counts and channel sums grow by at most one pixel per pixel.
pub proof fn lemma_totals_bounded(cs: Seq<Barycentre>, ps: Seq<Rgba>, g: int, c: int, n: int)
    requires
        0 <= n,
    ensures
        members(cs, ps, g, n) <= n,
        channel_total(cs, ps, g, c, n) <= 255 * members(cs, ps, g, n),
    decreases n,
{
    if n > 0 {
        lemma_totals_bounded(cs, ps, g, c, n - 1);
    }
}

/// Index of the centre nearest to `p`; the first one on a tie.
fn nearest_centre(centers: &Vec<Barycentre>, p: Rgba) -> (g: usize)
    requires
        centers@.len() > 0,
    ensures
        g == nearest(centers@, p),
        g < centers@.len(),
        forall|j: int| 0 <= j < centers@.len() ==> dist(centers@[g as int], p) <= #[trigger] dist(centers@[j], p),
        forall|j: int| 0 <= j < g ==> #[trigger] dist(centers@[j], p) > dist(centers@[g as int], p),
{
    let mut best: usize = 0;
    let mut best_d: u64 = 0;
    let mut i: usize = 0;
    while i < centers.len()
        invariant
            i <= centers@.len(),
            i == 0 ==> best == 0,
            i > 0 ==> best == nearest_upto(centers@, p, i as int) && best_d == dist(
                centers@[best as int],
                p,
            ),
        decreases centers@.len() - i,
    {
        let d = centers[i].distance(&p);
        if i == 0 || d < best_d {
            best_d = d;
            best = i;
        }
        i = i + 1;
    }
    proof {
        lemma_nearest_in_range(centers@, p, centers@.len() as int);
        lemma_nearest_is_closest(centers@, p, centers@.len() as int);
    }
    best
}

impl MyImage {
    /// Assigns every pixel to its nearest centre (the first one on a tie) and
    /// returns, for each centre, the number of pixels it received and their
    /// channel sums.
    pub fn group_stats(&self, centers: &Vec<Barycentre>) -> (stats: Vec<GroupStats>)
        requires
            centers@.len() > 0,
            255 * self.pixels@.len() <= u64::MAX,
        ensures
            stats@.len() == centers@.len(),
            forall|g: int|
                0 <= g < stats@.len() ==> (#[trigger] stats@[g]).describes(
                    centers@,
                    self.pixels@,
                    g,
                    self.pixels@.len() as int,
                ) && stats@[g].bounded(),
    {
        let ghost cs = centers@;
        let ghost ps = self.pixels@;
        let mut stats: Vec<GroupStats> = Vec::new();
        let mut g: usize = 0;
        while g < centers.len()
            invariant
                g <= centers@.len(),
                stats@.len() == g,
                forall|j: int|
                    0 <= j < g ==> (#[trigger] stats@[j]).describes(cs, ps, j, 0) && stats@[j].bounded(),
            decreases centers@.len() - g,
        {
            stats.push(GroupStats { count: 0, r: 0, g: 0, b: 0, a: 0 });
            proof {
                let st = stats@[g as int];
                assert forall|c: int| 0 <= c < 4 implies #[trigger] st.total(c) == channel_total(
                    cs,
                    ps,
                    g as int,
                    c,
                    0,
                ) by {}
                assert forall|c: int| 0 <= c < 4 implies #[trigger] st.total(c) <= 255
                    * st.count by {}
            }
            g = g + 1;
        }
        let mut i: usize = 0;
        while i < self.pixels.len()
            invariant
                cs == centers@,
                ps == self.pixels@,
                cs.len() > 0,
                255 * ps.len() <= u64::MAX,
                i <= ps.len(),
                stats@.len() == cs.len(),
                forall|j: int|
                    0 <= j < stats@.len() ==> (#[trigger] stats@[j]).describes(cs, ps, j, i as int),
            decreases ps.len() - i,
        {
            let p = self.pixels[i];
            let k = nearest_centre(centers, p);
            let st = stats[k];
            proof {
                lemma_totals_bounded(cs, ps, k as int, 0, i as int);
                lemma_totals_bounded(cs, ps, k as int, 1, i as int);
                lemma_totals_bounded(cs, ps, k as int, 2, i as int);
                lemma_totals_bounded(cs, ps, k as int, 3, i as int);
                assert(st.total(0) == channel_total(cs, ps, k as int, 0, i as int));
                assert(st.total(1) == channel_total(cs, ps, k as int, 1, i as int));
                assert(st.total(2) == channel_total(cs, ps, k as int, 2, i as int));
                assert(st.total(3) == channel_total(cs, ps, k as int, 3, i as int));
            }
            let ghost old_stats = stats@;
            stats.set(
                k,
                GroupStats {
                    count: st.count + 1,
                    r: st.r + p.0 as u64,
                    g: st.g + p.1 as u64,
                    b: st.b + p.2 as u64,
                    a: st.a + p.3 as u64,
                },
            );
            proof {
                assert forall|j: int| 0 <= j < stats@.len() implies (#[trigger] stats@[j]).describes(
                    cs,
                    ps,
                    j,
                    i + 1,
                ) by {
                    assert(old_stats[j].describes(cs, ps, j, i as int));
                    assert forall|c: int| 0 <= c < 4 implies #[trigger] stats@[j].total(c)
                        == channel_total(cs, ps, j, c, i + 1) by {
                        assert(old_stats[j].total(c) == channel_total(cs, ps, j, c, i as int));
                    }
                }
            }
            i = i + 1;
        }
        proof {
            assert forall|j: int| 0 <= j < stats@.len() implies (#[trigger] stats@[j]).bounded() by {
                assert forall|c: int| 0 <= c < 4 implies #[trigger] stats@[j].total(c) <= 255
                    * stats@[j].count by {
                    lemma_totals_bounded(cs, ps, j, c, ps.len() as int);
                    assert(stats@[j].total(c) == channel_total(cs, ps, j, c, ps.len() as int));
                }
            }
        }
        stats
    }
}

/// Number of clusters used to pick a background colour.
pub const GROUPS: usize = 20;

/// Number of assignment and update rounds used to pick a background colour.
pub const ITERATIONS: usize = 20;

/// Index of the first centre among `cs[0..k]` whose cluster is the largest.
pub open spec fn fullest_upto(cs: Seq<Barycentre>, ps: Seq<Rgba>, k: int) -> int
    decreases k,
{
    if k <= 1 {
        0
    } else {
        let j = fullest_upto(cs, ps, k - 1);
        if members(cs, ps, k - 1, ps.len() as int) > members(cs, ps, j, ps.len() as int) {
            k - 1
        } else {
            j
        }
    }
}

/// The cluster of centre `g` rounded to its centre of mass.
pub open spec fn cluster_mean(cs: Seq<Barycentre>, ps: Seq<Rgba>, g: int) -> Rgba {
    let n = members(cs, ps, g, ps.len() as int);
    (
        (channel_total(cs, ps, g, 0, ps.len() as int) / n) as u8,
        (channel_total(cs, ps, g, 1, ps.len() as int) / n) as u8,
        (channel_total(cs, ps, g, 2, ps.len() as int) / n) as u8,
        (channel_total(cs, ps, g, 3, ps.len() as int) / n) as u8,
    )
}

/// The largest cluster is at least as large as every other one.
pub proof fn lemma_fullest_upto(cs: Seq<Barycentre>, ps: Seq<Rgba>, k: int)
    requires
        1 <= k,
    ensures
        0 <= fullest_upto(cs, ps, k) < k,
        forall|g: int|
            0 <= g < k ==> #[trigger] members(cs, ps, g, ps.len() as int) <= members(
                cs,
                ps,
                fullest_upto(cs, ps, k),
                ps.len() as int,
            ),
    decreases k,
{
    if k > 1 {
        lemma_fullest_upto(cs, ps, k - 1);
    }
}

/// A cluster never loses members as pixels are added.
pub proof fn lemma_members_grow(cs: Seq<Barycentre>, ps: Seq<Rgba>, g: int, m: int, n: int)
    requires
        0 <= m <= n,
    ensures
        members(cs, ps, g, m) <= members(cs, ps, g, n),
    decreases n - m,
{
    if m < n {
        lemma_members_grow(cs, ps, g, m, n - 1);
    }
}

/// A centre whose four channels are random bytes drawn from `rand`.
fn random_barycentre() -> Barycentre {
    Barycentre { r: random_byte(), g: random_byte(), b: random_byte(), a: random_byte() }
}

/// Index of the first entry with the largest count.
fn fullest_group(stats: &Vec<GroupStats>, Ghost(cs): Ghost<Seq<Barycentre>>, Ghost(ps): Ghost<Seq<Rgba>>) -> (g: usize)
    requires
        stats@.len() > 0,
        forall|j: int|
            0 <= j < stats@.len() ==> (#[trigger] stats@[j]).count == members(cs, ps, j, ps.len() as int),
    ensures
        g == fullest_upto(cs, ps, stats@.len() as int),
        g < stats@.len(),
{
    let mut best: usize = 0;
    let mut best_len: u64 = 0;
    let mut i: usize = 0;
    while i < stats.len()
        invariant
            i <= stats@.len(),
            forall|j: int|
                0 <= j < stats@.len() ==> (#[trigger] stats@[j]).count == members(cs, ps, j, ps.len() as int),
            i == 0 ==> best == 0,
            i > 0 ==> best == fullest_upto(cs, ps, i as int) && best_len == members(
                cs,
                ps,
                best as int,
                ps.len() as int,
            ),
        decreases stats@.len() - i,
    {
        let c = stats[i].count;
        if i == 0 || c > best_len {
            best = i;
            best_len = c;
        }
        i = i + 1;
    }
    proof {
        lemma_fullest_upto(cs, ps, stats@.len() as int);
    }
    best
}

/// The centre of mass of the cluster of centre `g`, each channel rounded down.
pub open spec fn cluster_centre(cs: Seq<Barycentre>, ps: Seq<Rgba>, g: int) -> Barycentre {
    let m = cluster_mean(cs, ps, g);
    Barycentre { r: m.0, g: m.1, b: m.2, a: m.3 }
}

/// One round of the clustering: every centre moves to the mean of the pixels
/// nearest to it, or to `redraw[j]` when no pixel is.
pub open spec fn kmeans_round(cs: Seq<Barycentre>, ps: Seq<Rgba>, redraw: Seq<Barycentre>) -> Seq<
    Barycentre,
> {
    Seq::new(
        cs.len(),
        |j: int|
            if members(cs, ps, j, ps.len() as int) == 0 {
                redraw[j]
            } else {
                cluster_centre(cs, ps, j)
            },
    )
}

/// The centres after `k` rounds that start from `GROUPS` copies of `seed`;
/// round `i` draws on `redraws[i]` for its empty clusters.
pub open spec fn kmeans_centres(ps: Seq<Rgba>, seed: Barycentre, redraws: Seq<Seq<Barycentre>>, k: int) -> Seq<
    Barycentre,
>
    decreases k,
{
    if k <= 0 {
        Seq::new(GROUPS as nat, |j: int| seed)
    } else {
        kmeans_round(kmeans_centres(ps, seed, redraws, k - 1), ps, redraws[k - 1])
    }
}

/// The background colour that the clustering gives for a seed colour and the
/// colours drawn for empty clusters: after `ITERATIONS` rounds, the centre of
/// the cluster that was the largest in the last round (the first one on a tie).
pub open spec fn background_colour(ps: Seq<Rgba>, seed: Barycentre, redraws: Seq<Seq<Barycentre>>) -> Rgba {
    let cs = kmeans_centres(ps, seed, redraws, ITERATIONS - 1);
    let b = kmeans_round(cs, ps, redraws[ITERATIONS - 1])[fullest_upto(cs, ps, GROUPS as int)];
    (b.r, b.g, b.b, b.a)
}

/// The views of a list of vectors.
pub open spec fn views_of(v: Seq<Vec<Barycentre>>) -> Seq<Seq<Barycentre>> {
    v.map_values(|x: Vec<Barycentre>| x@)
}

/// The rounds always keep `GROUPS` centres.
pub proof fn lemma_kmeans_centres_len(ps: Seq<Rgba>, seed: Barycentre, redraws: Seq<Seq<Barycentre>>, k: int)
    ensures
        kmeans_centres(ps, seed, redraws, k).len() == GROUPS,
    decreases k,
{
    if k > 0 {
        lemma_kmeans_centres_len(ps, seed, redraws, k - 1);
    }
}

/// For an image with pixels, the background colour is the rounded-down mean of
/// the largest cluster of the last round: never a redrawn colour.
pub proof fn lemma_background_is_cluster_mean(
    ps: Seq<Rgba>,
    seed: Barycentre,
    redraws: Seq<Seq<Barycentre>>,
)
    requires
        ps.len() > 0,
    ensures
        background_colour(ps, seed, redraws) == cluster_mean(
            kmeans_centres(ps, seed, redraws, ITERATIONS - 1),
            ps,
            fullest_upto(kmeans_centres(ps, seed, redraws, ITERATIONS - 1), ps, GROUPS as int),
        ),
{
    let cs = kmeans_centres(ps, seed, redraws, ITERATIONS - 1);
    lemma_kmeans_centres_len(ps, seed, redraws, ITERATIONS - 1);
    lemma_nearest_in_range(cs, ps[0], GROUPS as int);
    let g0 = nearest(cs, ps[0]);
    lemma_members_grow(cs, ps, g0, 1, ps.len() as int);
    lemma_fullest_upto(cs, ps, GROUPS as int);
    let best = fullest_upto(cs, ps, GROUPS as int);
    assert(members(cs, ps, g0, ps.len() as int) >= 1);
    assert(members(cs, ps, best, ps.len() as int) >= 1);
}

/// `n` centres whose channels are random bytes drawn from `rand`.
fn random_centres(n: usize) -> (v: Vec<Barycentre>)
    ensures
        v@.len() == n,
{
    let mut v: Vec<Barycentre> = Vec::new();
    let mut i: usize = 0;
    while i < n
        invariant
            i <= n,
            v@.len() == i,
        decreases n - i,
    {
        v.push(random_barycentre());
        i = i + 1;
    }
    v
}

impl MyImage {
    /// The background colour that the clustering gives for the seed colour
    /// `seed` and the colours `redraws[i][j]` that round `i` gives to centre `j`
    /// when its cluster is empty (see `background_colour`).
    ///
    /// Twenty centres start on `seed`. Twenty times, every pixel goes to its
    /// nearest centre (the first one on a tie), then each centre moves to the
    /// rounded-down mean of its pixels, or to its redrawn colour when it received
    /// none. The result is the centre of the largest cluster of the last round
    /// (the first one on a tie).
    pub fn cluster_colour(&self, seed: Barycentre, redraws: &Vec<Vec<Barycentre>>) -> (c: Rgba)
        requires
            self.wf(),
            255 * self.pixels@.len() <= u64::MAX,
            redraws@.len() == ITERATIONS,
            forall|i: int| 0 <= i < ITERATIONS ==> (#[trigger] redraws@[i])@.len() == GROUPS,
        ensures
            c == background_colour(self.pixels@, seed, views_of(redraws@)),
    {
        let ghost ps = self.pixels@;
        let ghost rs = views_of(redraws@);
        let mut centers: Vec<Barycentre> = Vec::new();
        let mut g: usize = 0;
        while g < GROUPS
            invariant
                g <= GROUPS,
                centers@.len() == g,
                forall|j: int| 0 <= j < g ==> #[trigger] centers@[j] == seed,
            decreases GROUPS - g,
        {
            centers.push(seed);
            g = g + 1;
        }
        assert(centers@ =~= kmeans_centres(ps, seed, rs, 0));
        let ghost mut last_cs: Seq<Barycentre> = centers@;
        let mut stats: Vec<GroupStats> = Vec::new();
        let mut it: usize = 0;
        while it < ITERATIONS
            invariant
                ps == self.pixels@,
                rs == views_of(redraws@),
                redraws@.len() == ITERATIONS,
                forall|i: int| 0 <= i < ITERATIONS ==> (#[trigger] redraws@[i])@.len() == GROUPS,
                255 * ps.len() <= u64::MAX,
                it <= ITERATIONS,
                centers@.len() == GROUPS,
                centers@ == kmeans_centres(ps, seed, rs, it as int),
                it > 0 ==> last_cs == kmeans_centres(ps, seed, rs, it - 1),
                it > 0 ==> stats@.len() == GROUPS,
                it > 0 ==> forall|j: int|
                    0 <= j < GROUPS ==> (#[trigger] stats@[j]).count == members(last_cs, ps, j, ps.len() as int),
            decreases ITERATIONS - it,
        {
            proof {
                last_cs = centers@;
            }
            stats = self.group_stats(&centers);
            let row = &redraws[it];
            assert(rs[it as int] == row@);
            let ghost next = kmeans_round(last_cs, ps, rs[it as int]);
            let mut k: usize = 0;
            while k < GROUPS
                invariant
                    ps == self.pixels@,
                    last_cs.len() == GROUPS,
                    centers@.len() == GROUPS,
                    row@.len() == GROUPS,
                    next == kmeans_round(last_cs, ps, row@),
                    stats@.len() == GROUPS,
                    k <= GROUPS,
                    forall|j: int|
                        0 <= j < GROUPS ==> (#[trigger] stats@[j]).describes(last_cs, ps, j, ps.len() as int)
                            && stats@[j].bounded(),
                    forall|j: int| 0 <= j < k ==> #[trigger] centers@[j] == next[j],
                decreases GROUPS - k,
            {
                let st = stats[k];
                assert(st.describes(last_cs, ps, k as int, ps.len() as int) && st.bounded());
                assert(st.total(0) == channel_total(last_cs, ps, k as int, 0, ps.len() as int));
                assert(st.total(1) == channel_total(last_cs, ps, k as int, 1, ps.len() as int));
                assert(st.total(2) == channel_total(last_cs, ps, k as int, 2, ps.len() as int));
                assert(st.total(3) == channel_total(last_cs, ps, k as int, 3, ps.len() as int));
                match st.mean() {
                    Some(b) => {
                        centers.set(k, b);
                    },
                    None => {
                        centers.set(k, row[k]);
                    },
                }
                k = k + 1;
            }
            proof {
                assert(centers@ =~= next);
                assert forall|j: int| 0 <= j < GROUPS implies (#[trigger] stats@[j]).count == members(
                    last_cs,
                    ps,
                    j,
                    ps.len() as int,
                ) by {
                    assert(stats@[j].describes(last_cs, ps, j, ps.len() as int));
                }
            }
            it = it + 1;
        }
        let best = fullest_group(&stats, Ghost(last_cs), Ghost(ps));
        let b = centers[best];
        (b.r, b.g, b.b, b.a)
    }

    /// A background colour for the image: the colour of its largest cluster
    /// (see `cluster_colour`), for a random seed colour and random colours for
    /// the clusters that end up empty. For an image with pixels it is the
    /// rounded-down mean of the largest cluster of the last round.
    pub fn find_best_bg_color(&self) -> (c: Rgba)
        requires
            self.wf(),
            255 * self.pixels@.len() <= u64::MAX,
        ensures
            exists|seed: Barycentre, redraws: Seq<Seq<Barycentre>>|
                {
                    &&& redraws.len() == ITERATIONS
                    &&& forall|i: int| 0 <= i < ITERATIONS ==> (#[trigger] redraws[i]).len() == GROUPS
                    &&& c == #[trigger] background_colour(self.pixels@, seed, redraws)
                },
            self.pixels@.len() > 0 ==> exists|cs: Seq<Barycentre>|
                cs.len() == GROUPS && c == cluster_mean(
                    cs,
                    self.pixels@,
                    #[trigger] fullest_upto(cs, self.pixels@, GROUPS as int),
                ),
    {
        let seed = random_barycentre();
        let mut redraws: Vec<Vec<Barycentre>> = Vec::new();
        let mut i: usize = 0;
        while i < ITERATIONS
            invariant
                i <= ITERATIONS,
                redraws@.len() == i,
                forall|j: int| 0 <= j < i ==> (#[trigger] redraws@[j])@.len() == GROUPS,
            decreases ITERATIONS - i,
        {
            redraws.push(random_centres(GROUPS));
            i = i + 1;
        }
        let c = self.cluster_colour(seed, &redraws);
        proof {
            let rs = views_of(redraws@);
            assert forall|j: int| 0 <= j < ITERATIONS implies (#[trigger] rs[j]).len() == GROUPS by {
                assert(rs[j] == redraws@[j]@);
            }
            if self.pixels@.len() > 0 {
                lemma_background_is_cluster_mean(self.pixels@, seed, rs);
                lemma_kmeans_centres_len(self.pixels@, seed, rs, ITERATIONS - 1);
                let cs = kmeans_centres(self.pixels@, seed, rs, ITERATIONS - 1);
                assert(c == cluster_mean(cs, self.pixels@, fullest_upto(cs, self.pixels@, GROUPS as int)));
            }
        }
        c
    }
}

/// Total size of the clusters of the centres `cs[0..k]` over the pixels `ps[0..n]`.
pub open spec fn members_sum(cs: Seq<Barycentre>, ps: Seq<Rgba>, k: int, n: int) -> nat
    decreases k,
{
    if k <= 0 {
        0
    } else {
        members_sum(cs, ps, k - 1, n) + members(cs, ps, k - 1, n)
    }
}

proof fn lemma_members_sum_step(cs: Seq<Barycentre>, ps: Seq<Rgba>, k: int, n: int)
    requires
        0 <= n,
    ensures
        members_sum(cs, ps, k, n + 1) == members_sum(cs, ps, k, n) + if 0 <= nearest(cs, ps[n]) < k {
            1nat
        } else {
            0nat
        },
    decreases k,
{
    if k > 0 {
        lemma_members_sum_step(cs, ps, k - 1, n);
    }
}

/// The clusters split the pixels: every pixel belongs to exactly one of them,
/// so their sizes add up to the number of pixels.
pub proof fn lemma_clusters_partition(cs: Seq<Barycentre>, ps: Seq<Rgba>, n: int)
    requires
        cs.len() > 0,
        0 <= n,
    ensures
        members_sum(cs, ps, cs.len() as int, n) == n,
    decreases n,
{
    if n > 0 {
        lemma_clusters_partition(cs, ps, n - 1);
        lemma_members_sum_step(cs, ps, cs.len() as int, n - 1);
        lemma_nearest_in_range(cs, ps[n - 1], cs.len() as int);
    } else {
        lemma_members_sum_zero(cs, ps, cs.len() as int);
    }
}

proof fn lemma_members_sum_zero(cs: Seq<Barycentre>, ps: Seq<Rgba>, k: int)
    ensures
        members_sum(cs, ps, k, 0) == 0,
    decreases k,
{
    if k > 0 {
        lemma_members_sum_zero(cs, ps, k - 1);
    }
}

} // verus!
