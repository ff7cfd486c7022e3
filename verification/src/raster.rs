use vstd::prelude::*;

verus! {

/// An RGBA pixel: red, green, blue and alpha.
pub type Rgba = (u8, u8, u8, u8);

/// The mathematical picture of a raster: its size and its pixels in row-major order.
#[verifier::ext_equal]
pub struct Raster {
    pub width: nat,
    pub height: nat,
    pub pixels: Seq<Rgba>,
}

impl Raster {
    /// The pixel buffer holds exactly one pixel per cell.
    pub open spec fn wf(self) -> bool {
        self.pixels.len() == self.width * self.height
    }

    /// The pixel at column `x` of row `y`.
    pub open spec fn at(self, x: int, y: int) -> Rgba {
        self.pixels[y * self.width + x]
    }
}

/// Absolute difference of two channel values.
pub open spec fn channel_gap(a: u8, b: u8) -> nat {
    if a >= b {
        (a - b) as nat
    } else {
        (b - a) as nat
    }
}

/// Colour distance of two pixels: the sum of the red, green and blue gaps (alpha is ignored).
pub open spec fn colour_gap(p: Rgba, q: Rgba) -> nat {
    channel_gap(p.0, q.0) + channel_gap(p.1, q.1) + channel_gap(p.2, q.2)
}

/// Sum of the colour gaps of the first `n` pixels of two pixel sequences.
pub open spec fn total_gap(a: Seq<Rgba>, b: Seq<Rgba>, n: int) -> nat
    decreases n,
{
    if n <= 0 {
        0
    } else {
        total_gap(a, b, n - 1) + colour_gap(a[n - 1], b[n - 1])
    }
}

/// Each pixel adds at most 765 to the total gap.
pub proof fn lemma_total_gap_bound(a: Seq<Rgba>, b: Seq<Rgba>, n: int)
    requires
        0 <= n,
    ensures
        total_gap(a, b, n) <= 765 * n,
    decreases n,
{
    if n > 0 {
        lemma_total_gap_bound(a, b, n - 1);
    }
}

/// A picture is at distance zero from itself.
pub proof fn lemma_total_gap_self(a: Seq<Rgba>, n: int)
    ensures
        total_gap(a, a, n) == 0,
    decreases n,
{
    if n > 0 {
        lemma_total_gap_self(a, n - 1);
    }
}

/// The distance does not depend on the order of the two pictures.
pub proof fn lemma_total_gap_symmetric(a: Seq<Rgba>, b: Seq<Rgba>, n: int)
    ensures
        total_gap(a, b, n) == total_gap(b, a, n),
    decreases n,
{
    if n > 0 {
        lemma_total_gap_symmetric(a, b, n - 1);
    }
}

/// The distance obeys the triangle inequality.
pub proof fn lemma_total_gap_triangle(a: Seq<Rgba>, b: Seq<Rgba>, c: Seq<Rgba>, n: int)
    ensures
        total_gap(a, c, n) <= total_gap(a, b, n) + total_gap(b, c, n),
    decreases n,
{
    if n > 0 {
        lemma_total_gap_triangle(a, b, c, n - 1);
    }
}

/// Two pixels agree in red, green and blue.
pub open spec fn same_colour(p: Rgba, q: Rgba) -> bool {
    p.0 == q.0 && p.1 == q.1 && p.2 == q.2
}

/// The distance is zero exactly when every pixel agrees in red, green and blue.
pub proof fn lemma_total_gap_zero(a: Seq<Rgba>, b: Seq<Rgba>, n: int)
    requires
        0 <= n,
    ensures
        total_gap(a, b, n) == 0 <==> forall|i: int| 0 <= i < n ==> #[trigger] same_colour(a[i], b[i]),
    decreases n,
{
    if n > 0 {
        lemma_total_gap_zero(a, b, n - 1);
        if total_gap(a, b, n) == 0 {
            assert forall|i: int| 0 <= i < n implies #[trigger] same_colour(a[i], b[i]) by {
                if i < n - 1 {
                    assert(same_colour(a[i], b[i]));
                }
            }
        }
        if forall|i: int| 0 <= i < n ==> #[trigger] same_colour(a[i], b[i]) {
            assert(same_colour(a[n - 1], b[n - 1]));
            assert forall|i: int| 0 <= i < n - 1 implies #[trigger] same_colour(a[i], b[i]) by {
                assert(same_colour(a[i], b[i]));
            }
        }
    }
}

} // verus!
