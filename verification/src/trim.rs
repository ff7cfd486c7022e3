use vstd::prelude::*;

use crate::raster::Raster;

verus! {

/// Index of the first `j` in `i..n` with `!f(j)`, or `n` when there is none.
pub open spec fn clear_run(f: spec_fn(int) -> bool, i: int, n: int) -> int
    decreases n - i,
{
    if i >= n {
        n
    } else if f(i) {
        clear_run(f, i + 1, n)
    } else {
        i
    }
}

/// Every pixel of row `y` is fully transparent.
pub open spec fn row_clear(r: Raster, y: int) -> bool {
    forall|x: int| 0 <= x < r.width ==> (#[trigger] r.at(x, y)).3 == 0
}

/// Every pixel of column `x` is fully transparent.
pub open spec fn col_clear(r: Raster, x: int) -> bool {
    forall|y: int| 0 <= y < r.height ==> (#[trigger] r.at(x, y)).3 == 0
}

/// Row `k` counted from the bottom is fully transparent.
pub open spec fn row_clear_from_bottom(r: Raster, k: int) -> bool {
    row_clear(r, r.height - 1 - k)
}

/// Column `k` counted from the right is fully transparent.
pub open spec fn col_clear_from_right(r: Raster, k: int) -> bool {
    col_clear(r, r.width - 1 - k)
}

/// Rows counted from the top.
pub open spec fn rows_from_top(r: Raster) -> spec_fn(int) -> bool {
    |k: int| row_clear(r, k)
}

/// Rows counted from the bottom.
pub open spec fn rows_from_bottom(r: Raster) -> spec_fn(int) -> bool {
    |k: int| row_clear_from_bottom(r, k)
}

/// Columns counted from the left.
pub open spec fn cols_from_left(r: Raster) -> spec_fn(int) -> bool {
    |k: int| col_clear(r, k)
}

/// Columns counted from the right.
pub open spec fn cols_from_right(r: Raster) -> spec_fn(int) -> bool {
    |k: int| col_clear_from_right(r, k)
}

/// Number of fully transparent rows at the top.
pub open spec fn clear_top(r: Raster) -> int {
    clear_run(rows_from_top(r), 0, r.height as int)
}

/// Number of fully transparent rows at the bottom.
pub open spec fn clear_bottom(r: Raster) -> int {
    clear_run(rows_from_bottom(r), 0, r.height as int)
}

/// Number of fully transparent columns on the left.
pub open spec fn clear_left(r: Raster) -> int {
    clear_run(cols_from_left(r), 0, r.width as int)
}

/// Number of fully transparent columns on the right.
pub open spec fn clear_right(r: Raster) -> int {
    clear_run(cols_from_right(r), 0, r.width as int)
}

pub open spec fn min2(a: int, b: int) -> int {
    if a <= b {
        a
    } else {
        b
    }
}

/// The border removed from every side: the smallest of the four transparent runs.
pub open spec fn trim_margin(r: Raster) -> int {
    min2(clear_top(r), min2(clear_bottom(r), min2(clear_left(r), clear_right(r))))
}

/// The border fits twice in each direction. This fails only for a raster with
/// both sides positive whose pixels are all transparent.
pub open spec fn can_trim(r: Raster) -> bool {
    2 * trim_margin(r) <= r.width && 2 * trim_margin(r) <= r.height
}

/// The raster with `trim_margin` rows and columns removed on each side.
pub open spec fn trim_raster(r: Raster) -> Raster {
    let m = trim_margin(r);
    let w = (r.width - 2 * m) as nat;
    let h = (r.height - 2 * m) as nat;
    Raster { width: w, height: h, pixels: Seq::new(w * h, |k: int| r.at(k % (w as int) + m, k / (w as int) + m)) }
}

/// `clear_run` is the end of the run of `f` that starts at `i`.
pub proof fn lemma_clear_run_is(f: spec_fn(int) -> bool, i: int, n: int, t: int)
    requires
        i <= t <= n,
        forall|j: int| i <= j < t ==> #[trigger] f(j),
        t == n || !f(t),
    ensures
        clear_run(f, i, n) == t,
    decreases t - i,
{
    if i < t {
        lemma_clear_run_is(f, i + 1, n, t);
    }
}

/// The run that `clear_run` measures is all true and stops at a false or at `n`.
pub proof fn lemma_clear_run_props(f: spec_fn(int) -> bool, i: int, n: int)
    requires
        i <= n,
    ensures
        i <= clear_run(f, i, n) <= n,
        forall|j: int| i <= j < clear_run(f, i, n) ==> #[trigger] f(j),
        clear_run(f, i, n) == n || !f(clear_run(f, i, n)),
    decreases n - i,
{
    if i < n && f(i) {
        lemma_clear_run_props(f, i + 1, n);
    }
}

/// Facts on the four runs and the margin.
pub proof fn lemma_runs(r: Raster)
    ensures
        0 <= clear_top(r) <= r.height,
        0 <= clear_bottom(r) <= r.height,
        0 <= clear_left(r) <= r.width,
        0 <= clear_right(r) <= r.width,
        forall|y: int| 0 <= y < clear_top(r) ==> #[trigger] row_clear(r, y),
        forall|k: int| 0 <= k < clear_bottom(r) ==> #[trigger] row_clear_from_bottom(r, k),
        forall|x: int| 0 <= x < clear_left(r) ==> #[trigger] col_clear(r, x),
        forall|k: int| 0 <= k < clear_right(r) ==> #[trigger] col_clear_from_right(r, k),
        clear_top(r) < r.height ==> !row_clear(r, clear_top(r)),
        clear_bottom(r) < r.height ==> !row_clear_from_bottom(r, clear_bottom(r)),
        clear_left(r) < r.width ==> !col_clear(r, clear_left(r)),
        clear_right(r) < r.width ==> !col_clear_from_right(r, clear_right(r)),
        0 <= trim_margin(r),
        trim_margin(r) <= clear_top(r),
        trim_margin(r) <= clear_bottom(r),
        trim_margin(r) <= clear_left(r),
        trim_margin(r) <= clear_right(r),
        trim_margin(r) == clear_top(r) || trim_margin(r) == clear_bottom(r) || trim_margin(r)
            == clear_left(r) || trim_margin(r) == clear_right(r),
{
    lemma_clear_run_props(rows_from_top(r), 0, r.height as int);
    lemma_clear_run_props(rows_from_bottom(r), 0, r.height as int);
    lemma_clear_run_props(cols_from_left(r), 0, r.width as int);
    lemma_clear_run_props(cols_from_right(r), 0, r.width as int);
    assert forall|y: int| 0 <= y < clear_top(r) implies row_clear(r, y) by {
        assert(rows_from_top(r)(y));
    }
    assert forall|k: int| 0 <= k < clear_bottom(r) implies #[trigger] row_clear_from_bottom(r, k) by {
        assert(rows_from_bottom(r)(k));
    }
    assert forall|x: int| 0 <= x < clear_left(r) implies col_clear(r, x) by {
        assert(cols_from_left(r)(x));
    }
    assert forall|k: int| 0 <= k < clear_right(r) implies #[trigger] col_clear_from_right(r, k) by {
        assert(cols_from_right(r)(k));
    }
}

/// Pixel `(x, y)` of the trimmed raster is pixel `(x + m, y + m)` of the untrimmed one.
pub proof fn lemma_trim_at(r: Raster, x: int, y: int)
    requires
        can_trim(r),
        0 <= x < r.width - 2 * trim_margin(r),
        0 <= y < r.height - 2 * trim_margin(r),
    ensures
        trim_raster(r).wf(),
        trim_raster(r).at(x, y) == r.at(x + trim_margin(r), y + trim_margin(r)),
{
    let t = trim_raster(r);
    let w = t.width as int;
    crate::arith::lemma_cell_in_grid(x, y, w, t.height as int);
    vstd::arithmetic::div_mod::lemma_fundamental_div_mod_converse(y * w + x, w, y, x);
}

/// Trimming removes only fully transparent pixels: every pixel outside the kept
/// window has alpha zero.
pub proof fn lemma_trim_drops_only_clear(r: Raster, x: int, y: int)
    requires
        r.wf(),
        can_trim(r),
        0 <= x < r.width,
        0 <= y < r.height,
        !(trim_margin(r) <= x < r.width - trim_margin(r) && trim_margin(r) <= y < r.height
            - trim_margin(r)),
    ensures
        r.at(x, y).3 == 0,
{
    lemma_runs(r);
    let m = trim_margin(r);
    if y < m {
        assert(row_clear(r, y));
    } else if y >= r.height - m {
        assert(row_clear_from_bottom(r, r.height - 1 - y));
    } else if x < m {
        assert(col_clear(r, x));
    } else {
        assert(col_clear_from_right(r, r.width - 1 - x));
    }
}

/// A trimmed raster has no border left to remove.
pub proof fn lemma_trimmed_margin_zero(r: Raster)
    requires
        r.wf(),
        can_trim(r),
    ensures
        trim_margin(trim_raster(r)) == 0,
{
    let t = trim_raster(r);
    let m = trim_margin(r);
    let w = r.width as int;
    let h = r.height as int;
    let nw = t.width as int;
    let nh = t.height as int;
    lemma_runs(r);
    lemma_runs(t);
    if nw == 0 {
        lemma_clear_run_is(cols_from_left(t), 0, 0, 0);
    } else if nh == 0 {
        lemma_clear_run_is(rows_from_top(t), 0, 0, 0);
    } else if clear_top(r) == m {
        assert(!row_clear(r, m));
        let x = choose|x: int| 0 <= x < w && (#[trigger] r.at(x, m)).3 != 0;
        if !(m <= x < w - m) {
            lemma_trim_drops_only_clear(r, x, m);
        }
        lemma_trim_at(r, x - m, 0);
        assert(t.at(x - m, 0).3 != 0);
        assert(!rows_from_top(t)(0));
        lemma_clear_run_is(rows_from_top(t), 0, nh, 0);
    } else if clear_bottom(r) == m {
        assert(!row_clear_from_bottom(r, m));
        assert(!row_clear(r, h - 1 - m));
        let x = choose|x: int| 0 <= x < w && (#[trigger] r.at(x, h - 1 - m)).3 != 0;
        if !(m <= x < w - m) {
            lemma_trim_drops_only_clear(r, x, h - 1 - m);
        }
        lemma_trim_at(r, x - m, nh - 1);
        assert(t.at(x - m, nh - 1).3 != 0);
        assert(!row_clear(t, nh - 1));
        assert(!rows_from_bottom(t)(0));
        lemma_clear_run_is(rows_from_bottom(t), 0, nh, 0);
    } else if clear_left(r) == m {
        assert(!col_clear(r, m));
        let y = choose|y: int| 0 <= y < h && (#[trigger] r.at(m, y)).3 != 0;
        if !(m <= y < h - m) {
            lemma_trim_drops_only_clear(r, m, y);
        }
        lemma_trim_at(r, 0, y - m);
        assert(t.at(0, y - m).3 != 0);
        assert(!cols_from_left(t)(0));
        lemma_clear_run_is(cols_from_left(t), 0, nw, 0);
    } else {
        assert(clear_right(r) == m);
        assert(!col_clear_from_right(r, m));
        assert(!col_clear(r, w - 1 - m));
        let y = choose|y: int| 0 <= y < h && (#[trigger] r.at(w - 1 - m, y)).3 != 0;
        if !(m <= y < h - m) {
            lemma_trim_drops_only_clear(r, w - 1 - m, y);
        }
        lemma_trim_at(r, nw - 1, y - m);
        assert(t.at(nw - 1, y - m).3 != 0);
        assert(!col_clear(t, nw - 1));
        assert(!cols_from_right(t)(0));
        lemma_clear_run_is(cols_from_right(t), 0, nw, 0);
    }
}

/// Trimming twice gives the same raster as trimming once.
pub proof fn lemma_trim_idempotent(r: Raster)
    requires
        r.wf(),
        can_trim(r),
    ensures
        trim_raster(r).wf(),
        can_trim(trim_raster(r)),
        trim_raster(trim_raster(r)) == trim_raster(r),
{
    let t = trim_raster(r);
    lemma_runs(r);
    lemma_trimmed_margin_zero(r);
    let w = t.width as int;
    let h = t.height as int;
    let tt = trim_raster(t);
    assert(tt.width == t.width && tt.height == t.height);
    assert forall|k: int| 0 <= k < w * h implies #[trigger] tt.pixels[k] == t.pixels[k] by {
        assert(w > 0) by (nonlinear_arith)
            requires
                0 <= k < w * h,
                0 <= h,
        ;
        vstd::arithmetic::div_mod::lemma_fundamental_div_mod(k, w);
        vstd::arithmetic::div_mod::lemma_mod_bound(k, w);
        vstd::arithmetic::div_mod::lemma_div_pos_is_pos(k, w);
        assert(k / w * w == w * (k / w)) by (nonlinear_arith);
    }
    assert(tt.pixels =~= t.pixels);
}

} // verus!
