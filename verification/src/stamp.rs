use vstd::prelude::*;

use crate::arith::lemma_cell_in_grid;
use crate::myimage::MyImage;
use crate::raster::{channel_gap, colour_gap, total_gap, Raster, Rgba};

verus! {

/// A canvas coordinate computed from a sprite coordinate: negative values land on 0.
pub open spec fn land(v: int) -> int {
    if v < 0 {
        0
    } else {
        v
    }
}

/// The canvas cell that sprite pixel `(x, y)` covers when the sprite is shifted
/// by `(dx, dy)`, as a one-element sequence `(sprite index, canvas index)`; empty
/// when the pixel is fully transparent or lands outside the canvas.
pub open spec fn stamp_cell(s: Raster, cw: nat, ch: nat, dx: int, dy: int, x: int, y: int) -> Seq<
    (usize, usize),
> {
    let tx = land(x + dx);
    let ty = land(y + dy);
    if s.at(x, y).3 != 0 && tx < cw && ty < ch {
        seq![((y * s.width + x) as usize, (ty * cw + tx) as usize)]
    } else {
        Seq::empty()
    }
}

/// The cells covered by the first `n` pixels of sprite row `y`.
pub open spec fn stamp_row(s: Raster, cw: nat, ch: nat, dx: int, dy: int, y: int, n: int) -> Seq<
    (usize, usize),
>
    decreases n,
{
    if n <= 0 {
        Seq::empty()
    } else {
        stamp_row(s, cw, ch, dx, dy, y, n - 1) + stamp_cell(s, cw, ch, dx, dy, n - 1, y)
    }
}

/// The cells covered by the first `m` sprite rows.
pub open spec fn stamp_rows(s: Raster, cw: nat, ch: nat, dx: int, dy: int, m: int) -> Seq<
    (usize, usize),
>
    decreases m,
{
    if m <= 0 {
        Seq::empty()
    } else {
        stamp_rows(s, cw, ch, dx, dy, m - 1) + stamp_row(s, cw, ch, dx, dy, m - 1, s.width as int)
    }
}

/// Every cell of the sprite, row by row, that a shifted sprite covers on a
/// `cw` x `ch` canvas.
pub open spec fn footprint_of(s: Raster, cw: nat, ch: nat, dx: int, dy: int) -> Seq<(usize, usize)> {
    stamp_rows(s, cw, ch, dx, dy, s.height as int)
}

/// How much closer to the goal a cell gets when its pixel is replaced:
/// the colour gap before minus the colour gap after.
pub open spec fn cell_gain(before: Rgba, after: Rgba, goal: Rgba) -> int {
    colour_gap(before, goal) - colour_gap(after, goal)
}

/// Entry `e` of a footprint is right: `e.0` is an opaque sprite pixel, at
/// column `e.0 % width` and row `e.0 / width` of the sprite, and `e.1` is the
/// canvas cell in row `land(row + dy)` and column `land(column + dx)`, which lies
/// on the canvas.
pub open spec fn covers(s: Raster, cw: nat, ch: nat, dx: int, dy: int, e: (usize, usize)) -> bool {
    let k = e.0 as int;
    let column = k % (s.width as int);
    let row = k / (s.width as int);
    &&& 0 <= k < s.width * s.height
    &&& s.pixels[k].3 != 0
    &&& land(column + dx) < cw
    &&& land(row + dy) < ch
    &&& e.1 as int == land(row + dy) * cw + land(column + dx)
}

/// Sprite pixel `k` is opaque and lands on the canvas.
pub open spec fn lands(s: Raster, cw: nat, ch: nat, dx: int, dy: int, k: int) -> bool {
    &&& 0 <= k < s.width * s.height
    &&& s.pixels[k].3 != 0
    &&& land(k % (s.width as int) + dx) < cw
    &&& land(k / (s.width as int) + dy) < ch
}

/// Some entry of `cells` is for sprite pixel `k`.
pub open spec fn listed(cells: Seq<(usize, usize)>, k: int) -> bool {
    exists|i: int| 0 <= i < cells.len() && cells[i].0 == k
}

proof fn lemma_row_col(w: int, x: int, y: int)
    requires
        0 <= x < w,
        0 <= y,
    ensures
        (y * w + x) % w == x,
        (y * w + x) / w == y,
{
    vstd::arithmetic::div_mod::lemma_fundamental_div_mod_converse(y * w + x, w, y, x);
}

proof fn lemma_stamp_row_law(s: Raster, cw: nat, ch: nat, dx: int, dy: int, y: int, n: int)
    requires
        s.wf(),
        s.width * s.height <= usize::MAX,
        cw * ch <= usize::MAX,
        0 <= y < s.height,
        0 <= n <= s.width,
    ensures
        forall|i: int|
            0 <= i < stamp_row(s, cw, ch, dx, dy, y, n).len() ==> covers(
                s,
                cw,
                ch,
                dx,
                dy,
                #[trigger] stamp_row(s, cw, ch, dx, dy, y, n)[i],
            ) && y * s.width <= stamp_row(s, cw, ch, dx, dy, y, n)[i].0 < y * s.width + n,
        forall|i: int, j: int|
            0 <= i < j < stamp_row(s, cw, ch, dx, dy, y, n).len() ==> (#[trigger] stamp_row(
                s,
                cw,
                ch,
                dx,
                dy,
                y,
                n,
            )[i]).0 < (#[trigger] stamp_row(s, cw, ch, dx, dy, y, n)[j]).0,
        forall|x: int|
            0 <= x < n && #[trigger] lands(s, cw, ch, dx, dy, y * s.width + x) ==> listed(
                stamp_row(s, cw, ch, dx, dy, y, n),
                y * s.width + x,
            ),
    decreases n,
{
    let w = s.width as int;
    if n > 0 {
        lemma_stamp_row_law(s, cw, ch, dx, dy, y, n - 1);
        let prev = stamp_row(s, cw, ch, dx, dy, y, n - 1);
        let cur = stamp_row(s, cw, ch, dx, dy, y, n);
        let cell = stamp_cell(s, cw, ch, dx, dy, n - 1, y);
        assert(cur == prev + cell);
        let x = n - 1;
        lemma_row_col(w, x, y);
        crate::arith::lemma_cell_in_grid(x, y, w, s.height as int);
        if cell.len() > 0 {
            let tx = land(x + dx);
            let ty = land(y + dy);
            crate::arith::lemma_cell_in_grid(tx, ty, cw as int, ch as int);
            assert(covers(s, cw, ch, dx, dy, cell[0]));
            assert(cur[prev.len() as int] == cell[0]);
        }
        assert forall|i: int| 0 <= i < cur.len() implies covers(s, cw, ch, dx, dy, #[trigger] cur[i])
            && y * w <= cur[i].0 < y * w + n by {
            if i < prev.len() {
                assert(cur[i] == prev[i]);
            }
        }
        assert forall|i: int, j: int| 0 <= i < j < cur.len() implies (#[trigger] cur[i]).0 < (
        #[trigger] cur[j]).0 by {
            if j < prev.len() {
                assert(cur[i] == prev[i] && cur[j] == prev[j]);
            } else {
                assert(cur[i] == prev[i]);
            }
        }
        assert forall|xx: int|
            0 <= xx < n && #[trigger] lands(s, cw, ch, dx, dy, y * w + xx) implies listed(
                cur,
                y * w + xx,
            ) by {
            if xx < n - 1 {
                let i = choose|i: int| 0 <= i < prev.len() && prev[i].0 == y * w + xx;
                assert(cur[i] == prev[i]);
            } else {
                assert(s.at(x, y) == s.pixels[y * w + x]);
                assert(cell.len() > 0);
                assert(cur[prev.len() as int] == cell[0]);
            }
        }
    }
}

proof fn lemma_stamp_rows_law(s: Raster, cw: nat, ch: nat, dx: int, dy: int, m: int)
    requires
        s.wf(),
        s.width * s.height <= usize::MAX,
        cw * ch <= usize::MAX,
        0 <= m <= s.height,
    ensures
        forall|i: int|
            0 <= i < stamp_rows(s, cw, ch, dx, dy, m).len() ==> covers(
                s,
                cw,
                ch,
                dx,
                dy,
                #[trigger] stamp_rows(s, cw, ch, dx, dy, m)[i],
            ) && stamp_rows(s, cw, ch, dx, dy, m)[i].0 < m * s.width,
        forall|i: int, j: int|
            0 <= i < j < stamp_rows(s, cw, ch, dx, dy, m).len() ==> (#[trigger] stamp_rows(
                s,
                cw,
                ch,
                dx,
                dy,
                m,
            )[i]).0 < (#[trigger] stamp_rows(s, cw, ch, dx, dy, m)[j]).0,
        forall|k: int|
            0 <= k < m * s.width && #[trigger] lands(s, cw, ch, dx, dy, k) ==> listed(
                stamp_rows(s, cw, ch, dx, dy, m),
                k,
            ),
    decreases m,
{
    let w = s.width as int;
    if m > 0 {
        lemma_stamp_rows_law(s, cw, ch, dx, dy, m - 1);
        lemma_stamp_row_law(s, cw, ch, dx, dy, m - 1, w);
        let prev = stamp_rows(s, cw, ch, dx, dy, m - 1);
        let row = stamp_row(s, cw, ch, dx, dy, m - 1, w);
        let cur = stamp_rows(s, cw, ch, dx, dy, m);
        assert(cur == prev + row);
        crate::arith::lemma_next_row(m - 1, w);
        assert forall|i: int| 0 <= i < cur.len() implies covers(s, cw, ch, dx, dy, #[trigger] cur[i])
            && cur[i].0 < m * w by {
            if i < prev.len() {
                assert(cur[i] == prev[i]);
            } else {
                assert(cur[i] == row[i - prev.len()]);
            }
        }
        assert forall|i: int, j: int| 0 <= i < j < cur.len() implies (#[trigger] cur[i]).0 < (
        #[trigger] cur[j]).0 by {
            if j < prev.len() {
                assert(cur[i] == prev[i] && cur[j] == prev[j]);
            } else if i < prev.len() {
                assert(cur[i] == prev[i] && cur[j] == row[j - prev.len()]);
                assert(prev[i].0 < (m - 1) * w);
                assert(row[j - prev.len()].0 >= (m - 1) * w);
            } else {
                assert(cur[i] == row[i - prev.len()] && cur[j] == row[j - prev.len()]);
            }
        }
        assert forall|k: int| 0 <= k < m * w && #[trigger] lands(s, cw, ch, dx, dy, k) implies listed(
            cur,
            k,
        ) by {
            if k < (m - 1) * w {
                let i = choose|i: int| 0 <= i < prev.len() && prev[i].0 == k;
                assert(cur[i] == prev[i]);
            } else {
                let x = k - (m - 1) * w;
                assert(k == (m - 1) * w + x);
                assert(lands(s, cw, ch, dx, dy, (m - 1) * w + x));
                let i = choose|i: int| 0 <= i < row.len() && row[i].0 == (m - 1) * w + x;
                assert(cur[prev.len() + i] == row[i]);
            }
        }
    }
}

/// What a footprint is: every entry names an opaque sprite pixel and the
/// canvas cell that its row shifted by `dy` and its column shifted by `dx`
/// (each moved up to 0 when negative) give; the entries come in sprite order,
/// each sprite pixel at most once; and every opaque sprite pixel that lands on
/// the canvas has an entry.
pub proof fn lemma_footprint_law(s: Raster, cw: nat, ch: nat, dx: int, dy: int)
    requires
        s.wf(),
        s.width * s.height <= usize::MAX,
        cw * ch <= usize::MAX,
    ensures
        forall|i: int|
            0 <= i < footprint_of(s, cw, ch, dx, dy).len() ==> covers(
                s,
                cw,
                ch,
                dx,
                dy,
                #[trigger] footprint_of(s, cw, ch, dx, dy)[i],
            ),
        forall|i: int, j: int|
            0 <= i < j < footprint_of(s, cw, ch, dx, dy).len() ==> (#[trigger] footprint_of(
                s,
                cw,
                ch,
                dx,
                dy,
            )[i]).0 < (#[trigger] footprint_of(s, cw, ch, dx, dy)[j]).0,
        forall|k: int|
            #[trigger] lands(s, cw, ch, dx, dy, k) ==> listed(footprint_of(s, cw, ch, dx, dy), k),
{
    lemma_stamp_rows_law(s, cw, ch, dx, dy, s.height as int);
    assert(s.height * s.width == s.width * s.height) by (nonlinear_arith);
}

/// Sum of the gains of the first `n` cells of a footprint whose new pixels are `blended`.
pub open spec fn blend_gain(
    canvas: Seq<Rgba>,
    goal: Seq<Rgba>,
    cells: Seq<(usize, usize)>,
    blended: Seq<Rgba>,
    n: int,
) -> int
    decreases n,
{
    if n <= 0 {
        0
    } else {
        let c = cells[n - 1].1 as int;
        blend_gain(canvas, goal, cells, blended, n - 1) + cell_gain(canvas[c], blended[n - 1], goal[c])
    }
}

/// The gain of `n` cells lies within `765 * n` of zero.
pub proof fn lemma_blend_gain_bound(
    canvas: Seq<Rgba>,
    goal: Seq<Rgba>,
    cells: Seq<(usize, usize)>,
    blended: Seq<Rgba>,
    n: int,
)
    requires
        0 <= n,
    ensures
        -765 * n <= blend_gain(canvas, goal, cells, blended, n) <= 765 * n,
    decreases n,
{
    if n > 0 {
        lemma_blend_gain_bound(canvas, goal, cells, blended, n - 1);
    }
}

/// Absolute difference of two channel values.
fn channel_gap_exec(a: u8, b: u8) -> (g: i64)
    ensures
        g == channel_gap(a, b),
{
    if a >= b {
        (a - b) as i64
    } else {
        (b - a) as i64
    }
}

/// Colour distance of two pixels.
fn colour_gap_exec(p: Rgba, q: Rgba) -> (g: i64)
    ensures
        g == colour_gap(p, q),
{
    channel_gap_exec(p.0, q.0) + channel_gap_exec(p.1, q.1) + channel_gap_exec(p.2, q.2)
}

/// The cells a sprite covers on a `canvas_width` x `canvas_height` canvas when
/// its top-left corner is at `coors` minus `offset`: for every non-transparent
/// sprite pixel, row by row, the pair (sprite index, canvas index). A coordinate
/// that falls below zero is moved to zero; a pixel that falls past the right or
/// bottom edge is left out.
pub fn footprint(
    sprite: &MyImage,
    canvas_width: usize,
    canvas_height: usize,
    coors: (isize, isize),
    offset: (isize, isize),
) -> (cells: Vec<(usize, usize)>)
    requires
        sprite.wf(),
        canvas_width * canvas_height <= usize::MAX,
        isize::MIN <= coors.0 - offset.0,
        isize::MIN <= coors.1 - offset.1,
        sprite.width + coors.0 - offset.0 <= isize::MAX + 1,
        sprite.height + coors.1 - offset.1 <= isize::MAX + 1,
    ensures
        cells@ == footprint_of(
            sprite@,
            canvas_width as nat,
            canvas_height as nat,
            coors.0 - offset.0,
            coors.1 - offset.1,
        ),
        forall|i: int|
            0 <= i < cells@.len() ==> (#[trigger] cells@[i]).0 < sprite.pixels@.len() && cells@[i].1
                < canvas_width * canvas_height,
        forall|i: int|
            0 <= i < cells@.len() ==> covers(
                sprite@,
                canvas_width as nat,
                canvas_height as nat,
                coors.0 - offset.0,
                coors.1 - offset.1,
                #[trigger] cells@[i],
            ),
        forall|i: int, j: int|
            0 <= i < j < cells@.len() ==> (#[trigger] cells@[i]).0 < (#[trigger] cells@[j]).0,
        forall|k: int|
            #[trigger] lands(
                sprite@,
                canvas_width as nat,
                canvas_height as nat,
                coors.0 - offset.0,
                coors.1 - offset.1,
                k,
            ) ==> listed(cells@, k),
{
    let ghost s = sprite@;
    let pixel_count = sprite.pixels.len();
    proof {
        lemma_footprint_law(
            sprite@,
            canvas_width as nat,
            canvas_height as nat,
            coors.0 - offset.0,
            coors.1 - offset.1,
        );
    }
    let ghost cw = canvas_width as nat;
    let ghost ch = canvas_height as nat;
    let dx: i128 = coors.0 as i128 - offset.0 as i128;
    let dy: i128 = coors.1 as i128 - offset.1 as i128;
    let total = sprite.pixels.len();
    let mut cells: Vec<(usize, usize)> = Vec::new();
    let mut y: usize = 0;
    while y < sprite.height
        invariant
            sprite.wf(),
            s == sprite@,
            cw == canvas_width,
            ch == canvas_height,
            total == sprite.pixels@.len(),
            canvas_width * canvas_height <= usize::MAX,
            dx == coors.0 - offset.0,
            dy == coors.1 - offset.1,
            isize::MIN <= dx,
            isize::MIN <= dy,
            sprite.width + dx <= isize::MAX + 1,
            sprite.height + dy <= isize::MAX + 1,
            y <= sprite.height,
            cells@ == stamp_rows(s, cw, ch, dx as int, dy as int, y as int),
            forall|i: int|
                0 <= i < cells@.len() ==> (#[trigger] cells@[i]).0 < total && cells@[i].1
                    < canvas_width * canvas_height,
        decreases sprite.height - y,
    {
        let mut x: usize = 0;
        while x < sprite.width
            invariant
                sprite.wf(),
                s == sprite@,
                cw == canvas_width,
                ch == canvas_height,
                total == sprite.pixels@.len(),
                canvas_width * canvas_height <= usize::MAX,
                dx == coors.0 - offset.0,
                dy == coors.1 - offset.1,
                isize::MIN <= dx,
                isize::MIN <= dy,
                sprite.width + dx <= isize::MAX + 1,
                sprite.height + dy <= isize::MAX + 1,
                y < sprite.height,
                x <= sprite.width,
                cells@ == stamp_rows(s, cw, ch, dx as int, dy as int, y as int) + stamp_row(
                    s,
                    cw,
                    ch,
                    dx as int,
                    dy as int,
                    y as int,
                    x as int,
                ),
                forall|i: int|
                    0 <= i < cells@.len() ==> (#[trigger] cells@[i]).0 < total && cells@[i].1
                        < canvas_width * canvas_height,
            decreases sprite.width - x,
        {
            proof {
                lemma_cell_in_grid(x as int, y as int, sprite.width as int, sprite.height as int);
            }
            let k = y * sprite.width + x;
            let p = sprite.pixels[k];
            let ghost before = cells@;
            let vx: i128 = x as i128 + dx;
            let vy: i128 = y as i128 + dy;
            let tx: usize = if vx < 0 {
                0
            } else {
                vx as usize
            };
            let ty: usize = if vy < 0 {
                0
            } else {
                vy as usize
            };
            if p.3 != 0 && tx < canvas_width && ty < canvas_height {
                proof {
                    lemma_cell_in_grid(tx as int, ty as int, canvas_width as int, canvas_height as int);
                }
                cells.push((k, ty * canvas_width + tx));
            }
            proof {
                assert(cells@ =~= stamp_rows(s, cw, ch, dx as int, dy as int, y as int) + stamp_row(
                    s,
                    cw,
                    ch,
                    dx as int,
                    dy as int,
                    y as int,
                    x + 1,
                ));
            }
            x = x + 1;
        }
        y = y + 1;
    }
    cells
}

/// How much a stamp brings the canvas closer to the goal: over the cells of a
/// footprint, the sum of the colour gap between the current canvas pixel and
/// the goal pixel minus the colour gap between the blended pixel and the goal
/// pixel.
pub fn score_blend(
    canvas: &MyImage,
    goal: &MyImage,
    cells: &Vec<(usize, usize)>,
    blended: &Vec<Rgba>,
) -> (score: i64)
    requires
        blended@.len() == cells@.len(),
        forall|i: int|
            0 <= i < cells@.len() ==> (#[trigger] cells@[i]).1 < canvas.pixels@.len() && cells@[i].1
                < goal.pixels@.len(),
        765 * cells@.len() <= i64::MAX,
    ensures
        score == blend_gain(canvas.pixels@, goal.pixels@, cells@, blended@, cells@.len() as int),
{
    let mut score: i64 = 0;
    let mut i: usize = 0;
    while i < cells.len()
        invariant
            blended@.len() == cells@.len(),
            forall|j: int|
                0 <= j < cells@.len() ==> (#[trigger] cells@[j]).1 < canvas.pixels@.len()
                    && cells@[j].1 < goal.pixels@.len(),
            765 * cells@.len() <= i64::MAX,
            i <= cells@.len(),
            score == blend_gain(canvas.pixels@, goal.pixels@, cells@, blended@, i as int),
        decreases cells@.len() - i,
    {
        proof {
            lemma_blend_gain_bound(canvas.pixels@, goal.pixels@, cells@, blended@, i + 1);
        }
        let c = cells[i].1;
        let before = canvas.pixels[c];
        let g = goal.pixels[c];
        let after = blended[i];
        score = score + (colour_gap_exec(before, g) - colour_gap_exec(after, g));
        i = i + 1;
    }
    score
}

/// The canvas after writing `blended[i]` into canvas cell `cells[i].1` for
/// every `i < n`, in order.
pub open spec fn painted(
    canvas: Seq<Rgba>,
    cells: Seq<(usize, usize)>,
    blended: Seq<Rgba>,
    n: int,
) -> Seq<Rgba>
    decreases n,
{
    if n <= 0 {
        canvas
    } else {
        painted(canvas, cells, blended, n - 1).update(cells[n - 1].1 as int, blended[n - 1])
    }
}

proof fn lemma_total_gap_same_prefix(a1: Seq<Rgba>, a2: Seq<Rgba>, b: Seq<Rgba>, n: int)
    requires
        forall|i: int| 0 <= i < n ==> #[trigger] a1[i] == a2[i],
    ensures
        total_gap(a1, b, n) == total_gap(a2, b, n),
    decreases n,
{
    if n > 0 {
        lemma_total_gap_same_prefix(a1, a2, b, n - 1);
    }
}

proof fn lemma_total_gap_update(a: Seq<Rgba>, b: Seq<Rgba>, c: int, v: Rgba, n: int)
    requires
        0 <= c < n <= a.len(),
    ensures
        total_gap(a.update(c, v), b, n) == total_gap(a, b, n) - colour_gap(a[c], b[c]) + colour_gap(
            v,
            b[c],
        ),
    decreases n,
{
    if n - 1 == c {
        lemma_total_gap_same_prefix(a.update(c, v), a, b, n - 1);
    } else {
        lemma_total_gap_update(a, b, c, v, n - 1);
    }
}

proof fn lemma_painted_facts(
    canvas: Seq<Rgba>,
    cells: Seq<(usize, usize)>,
    blended: Seq<Rgba>,
    n: int,
    c: int,
)
    requires
        0 <= n <= cells.len(),
        0 <= c < canvas.len(),
        forall|i: int| 0 <= i < n ==> (#[trigger] cells[i]).1 < canvas.len(),
        forall|i: int| 0 <= i < n ==> (#[trigger] cells[i]).1 != c,
    ensures
        painted(canvas, cells, blended, n).len() == canvas.len(),
        painted(canvas, cells, blended, n)[c] == canvas[c],
    decreases n,
{
    if n > 0 {
        lemma_painted_facts(canvas, cells, blended, n - 1, c);
    }
}

/// What the score measures: painting the blended pixels into footprint cells
/// that are all different lowers the distance to the goal (over any prefix of
/// the canvas that holds those cells) by exactly the score.
pub proof fn lemma_score_is_improvement(
    canvas: Seq<Rgba>,
    goal: Seq<Rgba>,
    cells: Seq<(usize, usize)>,
    blended: Seq<Rgba>,
    n: int,
    size: int,
)
    requires
        0 <= n <= cells.len(),
        n <= blended.len(),
        size <= canvas.len(),
        forall|i: int| 0 <= i < n ==> (#[trigger] cells[i]).1 < size,
        forall|i: int, j: int| 0 <= i < j < n ==> (#[trigger] cells[i]).1 != (#[trigger] cells[j]).1,
    ensures
        total_gap(painted(canvas, cells, blended, n), goal, size) == total_gap(canvas, goal, size)
            - blend_gain(canvas, goal, cells, blended, n),
    decreases n,
{
    if n > 0 {
        let c = cells[n - 1].1 as int;
        lemma_score_is_improvement(canvas, goal, cells, blended, n - 1, size);
        assert forall|i: int| 0 <= i < n - 1 implies (#[trigger] cells[i]).1 != c by {
            assert(cells[i].1 != cells[n - 1].1);
        }
        lemma_painted_facts(canvas, cells, blended, n - 1, c);
        lemma_total_gap_update(painted(canvas, cells, blended, n - 1), goal, c, blended[n - 1], size);
    }
}

} // verus!
