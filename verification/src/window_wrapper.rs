use vstd::prelude::*;

use crate::buffer::{flat_index, lemma_flat_index_in_bounds, lemma_flat_index_injective, Buffer};
use crate::color::Color;
use crate::pixel_buffer::{copy_into, copy_vec, fill_range, fill_vec, mask_covers, PixelBuffer};
use crate::raster::{
    abs_int, i32_index, in_i32, isqrt, isqrt_i32, lemma_isqrt_is, lemma_stroke_state_shape,
    lemma_flat_in_row_span, lemma_isqrt_exists, lemma_walk_state_is_rounded, rounded_minor, lemma_stroke_stops, lemma_walk_reaches_end, point_covers, stroke_covers, stroke_fits, stroke_hit, stroke_octants_hit,
    stroke_pair_hit, stroke_runs, stroke_state, stroke_step_fits, walk_dir, walk_fits, walk_state,
    walk_step_fits, wrap_usize,
};
use vstd::arithmetic::div_mod::lemma_small_mod;

verus! {

/// Every row start at or below `y` of a width-`w` matrix lies at or before row `y`'s.
pub proof fn lemma_rows_monotone(w: int, x: int, y1: int, y2: int)
    requires
        0 <= w,
        y1 <= y2,
    ensures
        flat_index(x, y1, w) <= flat_index(x, y2, w),
{
    assert(y1 * w <= y2 * w) by (nonlinear_arith)
        requires
            0 <= w,
            y1 <= y2,
    ;
}

/// Whether the run of `length` flat pixels starting at `(x, y)` contains `k`.
pub open spec fn span_covers(w: int, x: int, y: int, length: int, k: int) -> bool {
    flat_index(x, y, w) <= k < flat_index(x, y, w) + length
}

/// Whether row `dy` of a filled rectangle with top-left corner `(x, y)` and width `rw` covers `k`.
pub open spec fn ww_rect_row(w: int, x: int, y: int, rw: int, dy: int, k: int) -> bool {
    span_covers(w, x, y + dy, rw, k)
}

/// Whether one of the first `rows` rows of a filled rectangle covers `k`.
pub open spec fn ww_rect_fill_covers(w: int, x: int, y: int, rw: int, rows: int, k: int) -> bool {
    exists|dy: int| 0 <= dy < rows && #[trigger] ww_rect_row(w, x, y, rw, dy, k)
}

/// Whether the side pixels of row `dy` of a stroked rectangle, at flat positions `(x, y + dy)`
/// and `(x + rw, y + dy)`, include `k`.
pub open spec fn ww_rect_side(w: int, x: int, y: int, rw: int, dy: int, k: int) -> bool {
    k == flat_index(x, y + dy, w) || k == flat_index(x + rw, y + dy, w)
}

/// Whether the side pixels of the rows `0 <= dy < upto` of a stroked rectangle include `k`.
pub open spec fn ww_rect_sides_covers(w: int, x: int, y: int, rw: int, upto: int, k: int) -> bool {
    exists|dy: int| 0 <= dy < upto && #[trigger] ww_rect_side(w, x, y, rw, dy, k)
}

/// Whether `WindowWrapper::draw_rect_stroke(x, y, rw, rh)` writes `k`: the top and bottom rows
/// are runs of `rw` flat pixels, and the rows `0 ..= rh - 2` get the pixels at `x` and `x + rw`.
pub open spec fn ww_rect_stroke_covers(w: int, x: int, y: int, rw: int, rh: int, k: int) -> bool {
    ||| rh >= 1 && span_covers(w, x, y, rw, k)
    ||| rh >= 2 && span_covers(w, x, y + rh - 1, rw, k)
    ||| rh >= 3 && ww_rect_sides_covers(w, x, y, rw, rh - 1, k)
}

/// `WindowWrapper::draw_rect_fill(x, y, rw, rh)`, for a rectangle that does not reach past the
/// right edge, writes exactly the pixels of the rectangle: `(px, py)` with `x <= px < x + rw`
/// and `y <= py < y + rh`.
pub proof fn lemma_ww_rect_fill_is_rectangle(
    w: int,
    x: int,
    y: int,
    rw: int,
    rh: int,
    px: int,
    py: int,
)
    requires
        0 <= x,
        0 <= y,
        0 <= rw,
        x + rw <= w,
        0 <= px < w,
        0 <= py,
    ensures
        ww_rect_fill_covers(w, x, y, rw, rh, flat_index(px, py, w)) <==> (x <= px < x + rw && y <= py
            < y + rh),
{
    let k = flat_index(px, py, w);
    if ww_rect_fill_covers(w, x, y, rw, rh, k) {
        let dy = choose|dy: int| 0 <= dy < rh && #[trigger] ww_rect_row(w, x, y, rw, dy, k);
        lemma_flat_in_row_span(w, y + dy, x, x + rw, px, py);
    }
    if x <= px < x + rw && y <= py < y + rh {
        lemma_flat_in_row_span(w, py, x, x + rw, px, py);
        assert(ww_rect_row(w, x, y, rw, py - y, k));
    }
}

/// `WindowWrapper::draw_rect_stroke(x, y, rw, rh)`, for a rectangle that does not reach past the
/// right edge, writes exactly its frame: the top row `y` (when `rh >= 1`) and the bottom row
/// `y + rh - 1` (when `rh >= 2`) from `x` to `x + rw - 1`, and, when `rh >= 3`, on every row
/// from `y` to `y + rh - 2` the pixels at columns `x` and `x + rw`.
pub proof fn lemma_ww_rect_stroke_is_frame(
    w: int,
    x: int,
    y: int,
    rw: int,
    rh: int,
    px: int,
    py: int,
)
    requires
        0 <= x,
        0 <= y,
        0 <= rw,
        x + rw < w,
        0 <= px < w,
        0 <= py,
    ensures
        ww_rect_stroke_covers(w, x, y, rw, rh, flat_index(px, py, w)) <==> {
            ||| rh >= 1 && py == y && x <= px < x + rw
            ||| rh >= 2 && py == y + rh - 1 && x <= px < x + rw
            ||| rh >= 3 && y <= py <= y + rh - 2 && (px == x || px == x + rw)
        },
{
    let k = flat_index(px, py, w);
    lemma_flat_in_row_span(w, y, x, x + rw, px, py);
    if rh >= 1 {
        lemma_flat_in_row_span(w, y + rh - 1, x, x + rw, px, py);
    }
    if rh >= 3 && ww_rect_sides_covers(w, x, y, rw, rh - 1, k) {
        let dy = choose|dy: int| 0 <= dy < rh - 1 && #[trigger] ww_rect_side(w, x, y, rw, dy, k);
        lemma_flat_in_row_span(w, y + dy, x, x + 1, px, py);
        lemma_flat_in_row_span(w, y + dy, x + rw, x + rw + 1, px, py);
    }
    if rh >= 3 && y <= py <= y + rh - 2 && (px == x || px == x + rw) {
        assert(ww_rect_side(w, x, y, rw, py - y, k));
    }
}

/// The flat index that step `i` of Bresenham's walk from `(a0, b0)` to `(a1, b1)` writes in a
/// buffer of width `w`; a steep walk's major coordinate is the row.
pub open spec fn ww_walk_index(w: int, a0: int, b0: int, a1: int, b1: int, steep: bool, i: int) -> int {
    let a = i32_index(a0 + i);
    let b = i32_index(walk_state(a0, b0, a1, b1, i as nat).0);
    if steep {
        flat_index(b, a, w)
    } else {
        flat_index(a, b, w)
    }
}

/// Whether every step of the walk writes inside a buffer of `len` pixels.
pub open spec fn ww_walk_in_bounds(w: int, len: int, a0: int, b0: int, a1: int, b1: int, steep: bool) -> bool {
    forall|i: int| 0 <= i <= a1 - a0 ==> #[trigger] ww_walk_index(w, a0, b0, a1, b1, steep, i) < len
}

/// Whether step `i` of the walk writes the flat index `k`.
pub open spec fn ww_walk_hit(w: int, a0: int, b0: int, a1: int, b1: int, steep: bool, i: int, k: int) -> bool {
    k == ww_walk_index(w, a0, b0, a1, b1, steep, i)
}

/// Whether one of the first `n` steps of the walk writes `k`.
pub open spec fn ww_walk_covers(w: int, a0: int, b0: int, a1: int, b1: int, steep: bool, n: int, k: int) -> bool {
    exists|i: int| 0 <= i < n && #[trigger] ww_walk_hit(w, a0, b0, a1, b1, steep, i, k)
}

/// Whether the whole walk, one step per major coordinate from `a0` to `a1`, writes `k`.
pub open spec fn ww_walk_line(w: int, a0: int, b0: int, a1: int, b1: int, steep: bool, k: int) -> bool {
    ww_walk_covers(w, a0, b0, a1, b1, steep, a1 - a0 + 1, k)
}

/// `WindowWrapper::draw_line_low` and `draw_line_high` write exactly one pixel for each major
/// coordinate `a0 + i` with `0 <= i <= a1 - a0`: the one at the rounded minor coordinate, at the
/// flat index that the coordinates give as `v as usize`; a steep walk's major coordinate is the
/// row.
pub proof fn lemma_ww_walk_paints_rounded_line(
    w: int,
    a0: int,
    b0: int,
    a1: int,
    b1: int,
    steep: bool,
    k: int,
)
    requires
        a0 <= a1,
        abs_int(b1 - b0) <= a1 - a0,
    ensures
        ww_walk_line(w, a0, b0, a1, b1, steep, k) <==> exists|i: int|
            #![trigger rounded_minor(a0, b0, a1, b1, i)]
            0 <= i <= a1 - a0 && k == if steep {
                flat_index(i32_index(rounded_minor(a0, b0, a1, b1, i)), i32_index(a0 + i), w)
            } else {
                flat_index(i32_index(a0 + i), i32_index(rounded_minor(a0, b0, a1, b1, i)), w)
            },
{
    if ww_walk_line(w, a0, b0, a1, b1, steep, k) {
        let i = choose|i: int| 0 <= i < a1 - a0 + 1 && #[trigger] ww_walk_hit(w, a0, b0, a1, b1, steep, i, k);
        lemma_walk_state_is_rounded(a0, b0, a1, b1, i);
        assert(rounded_minor(a0, b0, a1, b1, i) == walk_state(a0, b0, a1, b1, i as nat).0);
    }
    if exists|i: int|
        #![trigger rounded_minor(a0, b0, a1, b1, i)]
        0 <= i <= a1 - a0 && k == if steep {
            flat_index(i32_index(rounded_minor(a0, b0, a1, b1, i)), i32_index(a0 + i), w)
        } else {
            flat_index(i32_index(a0 + i), i32_index(rounded_minor(a0, b0, a1, b1, i)), w)
        } {
        let i = choose|i: int|
            #![trigger rounded_minor(a0, b0, a1, b1, i)]
            0 <= i <= a1 - a0 && k == if steep {
                flat_index(i32_index(rounded_minor(a0, b0, a1, b1, i)), i32_index(a0 + i), w)
            } else {
                flat_index(i32_index(a0 + i), i32_index(rounded_minor(a0, b0, a1, b1, i)), w)
            };
        lemma_walk_state_is_rounded(a0, b0, a1, b1, i);
        assert(ww_walk_hit(w, a0, b0, a1, b1, steep, i, k));
    }
}

/// Whether `WindowWrapper::draw_line(x0, y0, x1, y1)` writes `k` (coordinates as `i32`).
pub open spec fn ww_line_covers(w: int, x0: int, y0: int, x1: int, y1: int, k: int) -> bool {
    if abs_int(y1 - y0) < abs_int(x1 - x0) {
        if x0 > x1 {
            ww_walk_line(w, x1, y1, x0, y0, false, k)
        } else {
            ww_walk_line(w, x0, y0, x1, y1, false, k)
        }
    } else {
        if y0 > y1 {
            ww_walk_line(w, y1, x1, y0, x0, true, k)
        } else {
            ww_walk_line(w, y0, x0, y1, x1, true, k)
        }
    }
}

/// `WindowWrapper::draw_line` does not depend on the line's direction: drawn from `(x1, y1)` to
/// `(x0, y0)` it may be drawn exactly when the other way may, and writes the same pixels.
pub proof fn lemma_ww_line_symmetric(w: int, len: int, x0: int, y0: int, x1: int, y1: int)
    ensures
        ww_line_ok(w, len, x0, y0, x1, y1) == ww_line_ok(w, len, x1, y1, x0, y0),
        forall|k: int| #[trigger] ww_line_covers(w, x0, y0, x1, y1, k) == ww_line_covers(w, x1, y1, x0, y0, k),
{
}

/// The first and the last step of a walk along its longer axis write the walk's two end points.
proof fn lemma_ww_walk_hits_ends(w: int, a0: int, b0: int, a1: int, b1: int, steep: bool)
    requires
        a0 <= a1,
        abs_int(b1 - b0) <= a1 - a0,
    ensures
        ww_walk_line(w, a0, b0, a1, b1, steep, ww_walk_index(w, a0, b0, a1, b1, steep, 0)),
        ww_walk_line(w, a0, b0, a1, b1, steep, ww_walk_index(w, a0, b0, a1, b1, steep, a1 - a0)),
        ww_walk_index(w, a0, b0, a1, b1, steep, 0) == if steep {
            flat_index(i32_index(b0), i32_index(a0), w)
        } else {
            flat_index(i32_index(a0), i32_index(b0), w)
        },
        ww_walk_index(w, a0, b0, a1, b1, steep, a1 - a0) == if steep {
            flat_index(i32_index(b1), i32_index(a1), w)
        } else {
            flat_index(i32_index(a1), i32_index(b1), w)
        },
{
    lemma_walk_reaches_end(a0, b0, a1, b1);
    assert(ww_walk_hit(w, a0, b0, a1, b1, steep, 0, ww_walk_index(w, a0, b0, a1, b1, steep, 0)));
    assert(ww_walk_hit(
        w,
        a0,
        b0,
        a1,
        b1,
        steep,
        a1 - a0,
        ww_walk_index(w, a0, b0, a1, b1, steep, a1 - a0),
    ));
}

/// `WindowWrapper::draw_line(x0, y0, x1, y1)` writes both of its end points, whichever way the
/// line is given.
pub proof fn lemma_ww_line_hits_ends(w: int, x0: int, y0: int, x1: int, y1: int)
    ensures
        ww_line_covers(w, x0, y0, x1, y1, flat_index(i32_index(x0), i32_index(y0), w)),
        ww_line_covers(w, x0, y0, x1, y1, flat_index(i32_index(x1), i32_index(y1), w)),
{
    if abs_int(y1 - y0) < abs_int(x1 - x0) {
        if x0 > x1 {
            lemma_ww_walk_hits_ends(w, x1, y1, x0, y0, false);
        } else {
            lemma_ww_walk_hits_ends(w, x0, y0, x1, y1, false);
        }
    } else {
        if y0 > y1 {
            lemma_ww_walk_hits_ends(w, y1, x1, y0, x0, true);
        } else {
            lemma_ww_walk_hits_ends(w, y0, x0, y1, x1, true);
        }
    }
}

/// Whether `WindowWrapper::draw_line(x0, y0, x1, y1)` stays within `i32` and writes inside a
/// buffer of `len` pixels.
pub open spec fn ww_line_ok(w: int, len: int, x0: int, y0: int, x1: int, y1: int) -> bool {
    &&& in_i32(y1 - y0)
    &&& in_i32(x1 - x0)
    &&& in_i32(abs_int(y1 - y0))
    &&& in_i32(abs_int(x1 - x0))
    &&& if abs_int(y1 - y0) < abs_int(x1 - x0) {
        if x0 > x1 {
            walk_fits(x1, y1, x0, y0) && ww_walk_in_bounds(w, len, x1, y1, x0, y0, false)
        } else {
            walk_fits(x0, y0, x1, y1) && ww_walk_in_bounds(w, len, x0, y0, x1, y1, false)
        }
    } else {
        if y0 > y1 {
            walk_fits(y1, x1, y0, x0) && ww_walk_in_bounds(w, len, y1, x1, y0, x0, true)
        } else {
            walk_fits(y0, x0, y1, x1) && ww_walk_in_bounds(w, len, y0, x0, y1, x1, true)
        }
    }
}

/// The flat range that row `dy` of `WindowWrapper::draw_circle_fill` fills: from
/// `(cx - s, cy + dy)` to `(cx + s, cy + dy)`, with `s` the integer square root of
/// `r * r - dy * dy`, every coordinate turned into an index as `v as usize` does.
pub open spec fn ww_circle_row(w: int, cx: int, cy: int, r: int, dy: int) -> (int, int) {
    let s = isqrt(r * r - dy * dy);
    let row = i32_index(cy + dy);
    (flat_index(i32_index(cx - s), row, w), flat_index(i32_index(cx + s), row, w))
}

/// Whether row `dy` of the filled circle writes `k`.
pub open spec fn ww_circle_row_hit(w: int, cx: int, cy: int, r: int, dy: int, k: int) -> bool {
    ww_circle_row(w, cx, cy, r, dy).0 <= k < ww_circle_row(w, cx, cy, r, dy).1
}

/// Whether one of the rows `-r <= dy < upto` of the filled circle writes `k`.
pub open spec fn ww_circle_covers(w: int, cx: int, cy: int, r: int, upto: int, k: int) -> bool {
    exists|dy: int| -r <= dy < upto && #[trigger] ww_circle_row_hit(w, cx, cy, r, dy, k)
}

/// Whether `WindowWrapper::draw_circle_fill` with centre `(cx, cy)` and radius `r` writes `k`:
/// one of its rows `-r <= dy <= r` does.
pub open spec fn ww_circle_fill_covers(w: int, cx: int, cy: int, r: int, k: int) -> bool {
    ww_circle_covers(w, cx, cy, r, r + 1, k)
}

/// `WindowWrapper::draw_circle_fill` paints a disc: on each row `cy + dy` with `|dy| <= r` it
/// paints the columns `px` left of the centre with `(cx - px)^2 + dy^2 <= r^2` and the columns
/// from the centre on with `(px - cx + 1)^2 + dy^2 <= r^2`, and nothing on any other row.
/// Stated for circles that lie within the buffer's width at non-negative `i32` coordinates, and
/// pixels inside the width.
pub proof fn lemma_ww_circle_fill_disc(w: int, cx: int, cy: int, r: int, px: int, py: int)
    requires
        0 <= r,
        0 <= cx - r,
        cx + r <= w,
        cx + r <= i32::MAX,
        0 <= cy - r,
        cy + r <= i32::MAX,
        0 <= px < w,
        0 <= py,
    ensures
        ww_circle_fill_covers(w, cx, cy, r, flat_index(px, py, w)) <==> (-r <= py - cy <= r && if px
            < cx {
            (cx - px) * (cx - px) + (py - cy) * (py - cy) <= r * r
        } else {
            (px - cx + 1) * (px - cx + 1) + (py - cy) * (py - cy) <= r * r
        }),
{
    let k = flat_index(px, py, w);
    if ww_circle_fill_covers(w, cx, cy, r, k) {
        let dy = choose|dy: int| -r <= dy < r + 1 && #[trigger] ww_circle_row_hit(w, cx, cy, r, dy, k);
        let n = r * r - dy * dy;
        assert(0 <= dy * dy <= r * r) by (nonlinear_arith)
            requires
                -r <= dy <= r,
        ;
        lemma_isqrt_exists(n);
        let s = isqrt(n);
        assert(s <= r) by (nonlinear_arith)
            requires
                0 <= s,
                s * s <= n,
                n <= r * r,
                0 <= r,
        ;
        let row = i32_index(cy + dy);
        assert(row == cy + dy);
        assert(i32_index(cx - s) == cx - s);
        assert(i32_index(cx + s) == cx + s);
        lemma_flat_in_row_span(w, row, cx - s, cx + s, px, py);
        if px < cx {
            assert((cx - px) * (cx - px) <= s * s) by (nonlinear_arith)
                requires
                    0 < cx - px <= s,
            ;
        } else {
            assert((px - cx + 1) * (px - cx + 1) <= s * s) by (nonlinear_arith)
                requires
                    0 < px - cx + 1 <= s,
            ;
        }
    }
    let dy = py - cy;
    let cond = if px < cx {
        (cx - px) * (cx - px) + dy * dy <= r * r
    } else {
        (px - cx + 1) * (px - cx + 1) + dy * dy <= r * r
    };
    if -r <= dy <= r && cond {
        let n = r * r - dy * dy;
        assert(0 <= dy * dy <= r * r) by (nonlinear_arith)
            requires
                -r <= dy <= r,
        ;
        lemma_isqrt_exists(n);
        let s = isqrt(n);
        assert(s <= r) by (nonlinear_arith)
            requires
                0 <= s,
                s * s <= n,
                n <= r * r,
                0 <= r,
        ;
        if px < cx {
            assert(cx - px <= s) by (nonlinear_arith)
                requires
                    0 < cx - px,
                    0 <= s,
                    (cx - px) * (cx - px) <= n,
                    n < (s + 1) * (s + 1),
            ;
        } else {
            assert(px - cx + 1 <= s) by (nonlinear_arith)
                requires
                    0 < px - cx + 1,
                    0 <= s,
                    (px - cx + 1) * (px - cx + 1) <= n,
                    n < (s + 1) * (s + 1),
            ;
        }
        let row = i32_index(cy + dy);
        assert(row == py);
        assert(i32_index(cx - s) == cx - s);
        assert(i32_index(cx + s) == cx + s);
        lemma_flat_in_row_span(w, row, cx - s, cx + s, px, py);
        assert(ww_circle_row_hit(w, cx, cy, r, dy, k));
    }
}

/// Whether the octant pair `(j, kk)` of the point `(cx, cy)` marks the mask cell `(a, b)` (row
/// `a`, column `b`) of a circle of radius `r`: the cells `(j * cx + r, kk * cy + r)` and
/// `(kk * cy + r, j * cx + r)`.
pub open spec fn mask_pair_marks(cx: int, cy: int, r: int, j: int, kk: int, a: int, b: int) -> bool {
    ||| (a == j * cx + r && b == kk * cy + r)
    ||| (a == kk * cy + r && b == j * cx + r)
}

/// Whether one of the eight mirror images of `(cx, cy)` marks the mask cell `(a, b)`.
pub open spec fn mask_octants_mark(cx: int, cy: int, r: int, a: int, b: int) -> bool {
    ||| mask_pair_marks(cx, cy, r, 1, 1, a, b)
    ||| mask_pair_marks(cx, cy, r, 1, -1, a, b)
    ||| mask_pair_marks(cx, cy, r, -1, 1, a, b)
    ||| mask_pair_marks(cx, cy, r, -1, -1, a, b)
}

/// Whether step `i` of the midpoint circle algorithm for radius `r` runs and marks `(a, b)`.
pub open spec fn mask_step_marks(r: int, i: int, a: int, b: int) -> bool {
    &&& i >= 0
    &&& stroke_runs(r, i as nat)
    &&& mask_octants_mark(stroke_state(r, i as nat).0, stroke_state(r, i as nat).1, r, a, b)
}

/// Whether one of the first `n` steps marks the mask cell `(a, b)`.
pub open spec fn mask_marked_upto(r: int, n: int, a: int, b: int) -> bool {
    exists|i: int| 0 <= i < n && #[trigger] mask_step_marks(r, i, a, b)
}

/// Whether the mask cell `(a, b)` of the circle outline of radius `r` is set.
pub open spec fn mask_marked(r: int, a: int, b: int) -> bool {
    exists|i: int| #[trigger] mask_step_marks(r, i, a, b)
}

/// The `(2r + 1)` x `(2r + 1)` mask of the circle outline of radius `r`, centred on `(r, r)`.
pub open spec fn stroke_mask(r: int) -> Seq<Seq<bool>> {
    Seq::new((2 * r + 1) as nat, |a: int| Seq::new((2 * r + 1) as nat, |b: int| mask_marked(r, a, b)))
}

/// The outline mask is symmetric about its diagonal and about its middle row and column: a
/// marked cell `(a, b)` has `(b, a)`, `(2r - a, b)` and `(a, 2r - b)` marked too.
pub proof fn lemma_stroke_mask_symmetric(r: int, a: int, b: int)
    requires
        mask_marked(r, a, b),
    ensures
        mask_marked(r, b, a),
        mask_marked(r, 2 * r - a, b),
        mask_marked(r, a, 2 * r - b),
{
    let i = choose|i: int| #[trigger] mask_step_marks(r, i, a, b);
    assert(mask_step_marks(r, i, b, a));
    assert(mask_step_marks(r, i, 2 * r - a, b));
    assert(mask_step_marks(r, i, a, 2 * r - b));
}

/// Whether `WindowWrapper::draw_circle_stroke` around `(x, y)` with radius `r` writes `k`: the
/// outline's mask is stamped with its corner at `(x - r, y - r)`.
pub open spec fn ww_stroke_covers(w: int, x: int, y: int, r: int, k: int) -> bool {
    mask_covers(stroke_mask(r), x - r, y - r, w, k)
}

/// When the whole circle of radius `r` around `(x, y)` lies inside a `w` x `h` buffer, the
/// outline that `WindowWrapper::draw_circle_stroke` stamps through its mask, placed with its
/// corner at `(x - r, y - r)`, covers exactly the pixels that `WindowManager::draw_circle_stroke`
/// paints point by point.
pub proof fn lemma_stroke_mask_matches_outline(w: int, h: int, x: int, y: int, r: int, k: int)
    requires
        0 <= r <= x,
        r <= y,
        x + r < w <= usize::MAX,
        y + r < h <= usize::MAX,
    ensures
        ww_stroke_covers(w, x, y, r, k) == stroke_covers(w, h, x, y, r, k),
{
    let m = stroke_mask(r);
    let n = 2 * r + 1;
    if mask_covers(m, x - r, y - r, w, k) {
        let (dy, dx) = choose|dy: int, dx: int|
            #![trigger m[dy][dx], flat_index(x - r + dx, y - r + dy, w)]
            crate::pixel_buffer::mask_cell_done(m, dy, dx, n, 0) && k == flat_index(
                x - r + dx,
                y - r + dy,
                w,
            );
        assert(mask_marked(r, dy, dx));
        let i = choose|i: int| #[trigger] mask_step_marks(r, i, dy, dx);
        let cx = stroke_state(r, i as nat).0;
        let cy = stroke_state(r, i as nat).1;
        lemma_stroke_state_shape(r, i as nat);
        assert forall|j: int, kk: int|
            (j == 1 || j == -1) && (kk == 1 || kk == -1) && #[trigger] mask_pair_marks(
                cx,
                cy,
                r,
                j,
                kk,
                dy,
                dx,
            ) implies stroke_pair_hit(w, h, x, y, cx, cy, j, kk, k) by {
            lemma_small_mod((x + j * cx) as nat, (usize::MAX + 1) as nat);
            lemma_small_mod((y + kk * cy) as nat, (usize::MAX + 1) as nat);
            lemma_small_mod((x + kk * cy) as nat, (usize::MAX + 1) as nat);
            lemma_small_mod((y + j * cx) as nat, (usize::MAX + 1) as nat);
        }
        assert(stroke_hit(w, h, x, y, r, i, k));
    }
    if stroke_covers(w, h, x, y, r, k) {
        let i = choose|i: int| #[trigger] stroke_hit(w, h, x, y, r, i, k);
        let cx = stroke_state(r, i as nat).0;
        let cy = stroke_state(r, i as nat).1;
        lemma_stroke_state_shape(r, i as nat);
        assert(stroke_runs(r, i as nat) && i >= 0);
        assert(0 <= cy <= cx <= r);
        assert forall|j: int, kk: int|
            (j == 1 || j == -1) && (kk == 1 || kk == -1) && #[trigger] stroke_pair_hit(
                w,
                h,
                x,
                y,
                cx,
                cy,
                j,
                kk,
                k,
            ) implies mask_covers(m, x - r, y - r, w, k) by {
            assert(j * cx == cx || j * cx == -cx) by (nonlinear_arith)
                requires
                    j == 1 || j == -1,
            ;
            assert(kk * cy == cy || kk * cy == -cy) by (nonlinear_arith)
                requires
                    kk == 1 || kk == -1,
            ;
            lemma_small_mod((x + j * cx) as nat, (usize::MAX + 1) as nat);
            lemma_small_mod((y + kk * cy) as nat, (usize::MAX + 1) as nat);
            lemma_small_mod((x + kk * cy) as nat, (usize::MAX + 1) as nat);
            lemma_small_mod((y + j * cx) as nat, (usize::MAX + 1) as nat);
            if point_covers(w, h, wrap_usize(x + j * cx), wrap_usize(y + kk * cy), k) {
                let dx = j * cx + r;
                let dy = kk * cy + r;
                assert(mask_step_marks(r, i, dy, dx));
                assert(m[dy][dx]);
                assert(crate::pixel_buffer::mask_cell_done(m, dy, dx, n, 0));
                assert(k == flat_index(x - r + dx, y - r + dy, w));
            } else {
                let dx = kk * cy + r;
                let dy = j * cx + r;
                assert(mask_step_marks(r, i, dy, dx));
                assert(m[dy][dx]);
                assert(crate::pixel_buffer::mask_cell_done(m, dy, dx, n, 0));
                assert(k == flat_index(x - r + dx, y - r + dy, w));
            }
        }
    }
}

/// Sets the two mask cells that the octant pair `(j, k)` of `(cx, cy)` marks, in a flat
/// `n` x `n` mask.
fn mark_pair(cells: &mut Vec<bool>, n: usize, r: i32, cx: i32, cy: i32, j: i32, k: i32)
    requires
        n == 2 * r + 1,
        old(cells)@.len() == n * n,
        j == 1 || j == -1,
        k == 1 || k == -1,
        0 <= cy <= cx <= r,
        in_i32(cx + r),
        in_i32(cy + r),
    ensures
        final(cells)@.len() == old(cells)@.len(),
        forall|a: int, b: int|
            0 <= a < n && 0 <= b < n ==> #[trigger] final(cells)@[flat_index(b, a, n as int)] == (
            old(cells)@[flat_index(b, a, n as int)] || mask_pair_marks(
                cx as int,
                cy as int,
                r as int,
                j as int,
                k as int,
                a,
                b,
            )),
{
    proof {
        assert(j * cx == if j == 1 { cx as int } else { -cx }) by (nonlinear_arith)
            requires
                j == 1 || j == -1,
        ;
        assert(k * cy == if k == 1 { cy as int } else { -cy }) by (nonlinear_arith)
            requires
                k == 1 || k == -1,
        ;
    }
    let p = (j * cx + r) as usize;
    let q = (k * cy + r) as usize;
    let ghost before = cells@;
    proof {
        lemma_flat_index_in_bounds(q as int, p as int, n as int, n as int);
        lemma_flat_index_in_bounds(p as int, q as int, n as int, n as int);
        assert(cells.len() == cells@.len());
    }
    cells.set(p * n + q, true);
    cells.set(q * n + p, true);
    proof {
        assert forall|a: int, b: int| 0 <= a < n && 0 <= b < n implies #[trigger] cells@[flat_index(
            b,
            a,
            n as int,
        )] == (before[flat_index(b, a, n as int)] || mask_pair_marks(
            cx as int,
            cy as int,
            r as int,
            j as int,
            k as int,
            a,
            b,
        )) by {
            lemma_flat_index_in_bounds(b, a, n as int, n as int);
            if flat_index(b, a, n as int) == flat_index(q as int, p as int, n as int) {
                lemma_flat_index_injective(n as int, b, a, q as int, p as int);
            }
            if flat_index(b, a, n as int) == flat_index(p as int, q as int, n as int) {
                lemma_flat_index_injective(n as int, b, a, p as int, q as int);
            }
        }
    }
}

/// The flat pixel buffer of a window, written without bounds forgiveness: every access must
/// land inside the buffer.
///
/// The buffer is well formed when it holds `width * height` pixels.
pub struct WindowWrapper {
    pub width: usize,
    pub height: usize,
    pub buff: Vec<Color>,
}

impl WindowWrapper {
    /// The storage holds `width * height` pixels.
    pub open spec fn wf(&self) -> bool {
        self.buff@.len() == self.width * self.height
    }

    /// A `width` x `height` buffer of black pixels.
    pub fn new(width: usize, height: usize) -> (ww: Self)
        requires
            width * height <= usize::MAX,
        ensures
            ww.wf(),
            ww.width == width,
            ww.height == height,
            forall|i: int| 0 <= i < ww.buff@.len() ==> (#[trigger] ww.buff@[i])@ == 0,
    {
        let buff: Vec<Color> = vec![Color::default(); width * height];
        WindowWrapper { buff, width, height }
    }

    /// Replaces the pixels with `buff`, which must hold as many pixels.
    pub fn write_buff(&mut self, buff: Vec<Color>)
        requires
            buff@.len() == old(self).buff@.len(),
        ensures
            final(self).buff@ == buff@,
            final(self).width == old(self).width,
            final(self).height == old(self).height,
    {
        self.buff = buff;
    }

    /// The flat index `y * width + x`.
    fn idx(x: usize, y: usize, width: usize) -> (i: usize)
        requires
            flat_index(x as int, y as int, width as int) <= usize::MAX,
        ensures
            i == flat_index(x as int, y as int, width as int),
    {
        Buffer::<Color>::idx(x, y, width)
    }

    /// Sets the pixel at flat index `y * width + x`, which must lie inside the buffer.
    pub fn set_pixel(&mut self, x: usize, y: usize, color: Color)
        requires
            flat_index(x as int, y as int, old(self).width as int) < old(self).buff@.len(),
        ensures
            final(self).width == old(self).width,
            final(self).height == old(self).height,
            final(self).buff@ == old(self).buff@.update(
                flat_index(x as int, y as int, old(self).width as int),
                color,
            ),
    {
        proof {
            assert(self.buff.len() == self.buff@.len());
        }
        let i = Self::idx(x, y, self.width);
        self.buff.set(i, color);
    }

    /// Fills the `length` pixels of the flat buffer starting at `(x, y)`, which must all lie
    /// inside the buffer.
    pub fn set_pixel_range_from_value(&mut self, x: usize, y: usize, length: usize, color: Color)
        requires
            flat_index(x as int, y as int, old(self).width as int) + length <= old(self).buff@.len(),
        ensures
            final(self).width == old(self).width,
            final(self).height == old(self).height,
            ({
                let start = flat_index(x as int, y as int, old(self).width as int);
                final(self).buff@ == fill_range(old(self).buff@, start, start + length, color)
            }),
    {
        proof {
            assert(self.buff.len() == self.buff@.len());
        }
        let start = Self::idx(x, y, self.width);
        fill_vec(&mut self.buff, start, start + length, color);
    }

    /// Copies `colors`, which must hold `length` pixels, into the flat buffer starting at
    /// `(x, y)`; the run must lie inside the buffer.
    pub fn set_pixel_range_from_array(&mut self, x: usize, y: usize, length: usize, colors: &[Color])
        requires
            colors@.len() == length,
            flat_index(x as int, y as int, old(self).width as int) + length <= old(self).buff@.len(),
        ensures
            final(self).width == old(self).width,
            final(self).height == old(self).height,
            final(self).buff@ == copy_into(
                old(self).buff@,
                flat_index(x as int, y as int, old(self).width as int),
                colors@,
            ),
    {
        proof {
            assert(self.buff.len() == self.buff@.len());
        }
        let start = Self::idx(x, y, self.width);
        copy_vec(&mut self.buff, start, colors);
    }

    /// Fills the flat range from `(x1, y)` up to, not including, `(x2, y)`; the range must be
    /// ordered and lie inside the buffer.
    pub fn set_pixels_between_points(&mut self, y: usize, x1: usize, x2: usize, color: Color)
        requires
            flat_index(x1 as int, y as int, old(self).width as int) <= flat_index(
                x2 as int,
                y as int,
                old(self).width as int,
            ) <= old(self).buff@.len(),
        ensures
            final(self).width == old(self).width,
            final(self).height == old(self).height,
            final(self).buff@ == fill_range(
                old(self).buff@,
                flat_index(x1 as int, y as int, old(self).width as int),
                flat_index(x2 as int, y as int, old(self).width as int),
                color,
            ),
    {
        proof {
            assert(self.buff.len() == self.buff@.len());
        }
        let start = Self::idx(x1, y, self.width);
        let end = Self::idx(x2, y, self.width);
        fill_vec(&mut self.buff, start, end, color);
    }

    /// Stamps `mask` with its top-left corner at `(x, y)`: the pixel under every `true` cell
    /// becomes `color`. Row `dy` of the mask covers the `mask[dy].len()` flat pixels that start
    /// at `(x, y + dy)`, which must lie inside the buffer.
    pub fn set_pixels_masked(&mut self, x: usize, y: usize, mask: Vec<Vec<bool>>, color: Color)
        requires
            old(self).wf(),
            y + mask@.len() <= usize::MAX + 1,
            forall|dy: int|
                0 <= dy < mask@.len() ==> flat_index(x as int, y + dy, old(self).width as int) + (
                #[trigger] mask@[dy])@.len() <= old(self).buff@.len(),
        ensures
            final(self).wf(),
            final(self).width == old(self).width,
            final(self).height == old(self).height,
            final(self).buff@.len() == old(self).buff@.len(),
            forall|k: int|
                0 <= k < old(self).buff@.len() ==> #[trigger] final(self).buff@[k] == if mask_covers(
                    mask.deep_view(),
                    x as int,
                    y as int,
                    old(self).width as int,
                    k,
                ) {
                    color
                } else {
                    old(self).buff@[k]
                },
    {
        let mut data: Vec<Color> = Vec::new();
        std::mem::swap(&mut data, &mut self.buff);
        let mut pb = PixelBuffer { buff: Buffer { w: self.width, h: self.height, buff: data } };
        pb.set_pixels_masked(x, y, mask, color);
        std::mem::swap(&mut pb.buff.buff, &mut self.buff);
    }

    /// Fills a `w` x `h` rectangle with top-left corner `(x, y)`: each row is a run of `w`
    /// flat pixels, which must lie inside the buffer.
    pub fn draw_rect_fill(&mut self, x: usize, y: usize, w: usize, h: usize, color: Color)
        requires
            y + h <= usize::MAX + 1,
            h > 0 ==> flat_index(x as int, y + h - 1, old(self).width as int) + w <= old(
                self,
            ).buff@.len(),
        ensures
            final(self).width == old(self).width,
            final(self).height == old(self).height,
            final(self).buff@.len() == old(self).buff@.len(),
            forall|k: int|
                0 <= k < old(self).buff@.len() ==> #[trigger] final(self).buff@[k] == if ww_rect_fill_covers(
                    old(self).width as int,
                    x as int,
                    y as int,
                    w as int,
                    h as int,
                    k,
                ) {
                    color
                } else {
                    old(self).buff@[k]
                },
    {
        let ghost ww = self.width as int;
        let ghost len = self.buff@.len() as int;
        let ghost old_px = self.buff@;
        let mut dy: usize = 0;
        while dy < h
            invariant
                ww == self.width,
                self.width == old(self).width,
                self.height == old(self).height,
                len == old(self).buff@.len(),
                old_px == old(self).buff@,
                self.buff@.len() == len,
                y + h <= usize::MAX + 1,
                h > 0 ==> flat_index(x as int, y + h - 1, ww) + w <= len,
                0 <= dy <= h,
                forall|k: int|
                    0 <= k < len ==> #[trigger] self.buff@[k] == if ww_rect_fill_covers(
                        ww,
                        x as int,
                        y as int,
                        w as int,
                        dy as int,
                        k,
                    ) {
                        color
                    } else {
                        old_px[k]
                    },
            decreases h - dy,
        {
            proof {
                lemma_rows_monotone(ww, x as int, y + dy, y + h - 1);
            }
            self.set_pixel_range_from_value(x, y + dy, w, color);
            proof {
                assert forall|k: int| 0 <= k < len implies #[trigger] self.buff@[k] == if ww_rect_fill_covers(
                    ww,
                    x as int,
                    y as int,
                    w as int,
                    dy + 1,
                    k,
                ) {
                    color
                } else {
                    old_px[k]
                } by {
                    if ww_rect_row(ww, x as int, y as int, w as int, dy as int, k) {
                        assert(ww_rect_fill_covers(ww, x as int, y as int, w as int, dy + 1, k));
                    } else {
                        if ww_rect_fill_covers(ww, x as int, y as int, w as int, dy + 1, k) {
                            let d = choose|d: int|
                                0 <= d < dy + 1 && #[trigger] ww_rect_row(ww, x as int, y as int, w as int, d, k);
                            assert(ww_rect_fill_covers(ww, x as int, y as int, w as int, dy as int, k));
                        }
                        if ww_rect_fill_covers(ww, x as int, y as int, w as int, dy as int, k) {
                            let d = choose|d: int|
                                0 <= d < dy && #[trigger] ww_rect_row(ww, x as int, y as int, w as int, d, k);
                            assert(ww_rect_fill_covers(ww, x as int, y as int, w as int, dy + 1, k));
                        }
                    }
                }
            }
            dy = dy + 1;
        }
    }

    /// Outlines a `w` x `h` rectangle with top-left corner `(x, y)`: the top and bottom rows are
    /// runs of `w` flat pixels, and the rows from `0` to `h - 2` get the pixels at `x` and
    /// `x + w`; everything written must lie inside the buffer.
    pub fn draw_rect_stroke(&mut self, x: usize, y: usize, w: usize, h: usize, color: Color)
        requires
            h >= 1 ==> flat_index(x as int, y as int, old(self).width as int) + w <= old(self).buff@.len(),
            h == 2 ==> y + 1 <= usize::MAX && flat_index(x as int, y + 1, old(self).width as int) + w
                <= old(self).buff@.len(),
            h >= 3 ==> {
                &&& y + h <= usize::MAX
                &&& x + w <= usize::MAX
                &&& flat_index(x as int, y + h - 1, old(self).width as int) + w <= old(self).buff@.len()
                &&& flat_index(x + w, y + h - 2, old(self).width as int) < old(self).buff@.len()
            },
        ensures
            final(self).width == old(self).width,
            final(self).height == old(self).height,
            final(self).buff@.len() == old(self).buff@.len(),
            forall|k: int|
                0 <= k < old(self).buff@.len() ==> #[trigger] final(self).buff@[k] == if ww_rect_stroke_covers(
                    old(self).width as int,
                    x as int,
                    y as int,
                    w as int,
                    h as int,
                    k,
                ) {
                    color
                } else {
                    old(self).buff@[k]
                },
    {
        let ghost ww = self.width as int;
        let ghost len = self.buff@.len() as int;
        let ghost old_px = self.buff@;
        match h {
            0 => {},
            1 => {
                self.set_pixel_range_from_value(x, y, w, color);
            },
            2 => {
                self.set_pixel_range_from_value(x, y, w, color);
                self.set_pixel_range_from_value(x, y + 1, w, color);
            },
            _ => {
                self.set_pixel_range_from_value(x, y, w, color);
                let mut dy: usize = 0;
                while dy <= h - 2
                    invariant
                        ww == self.width,
                        self.width == old(self).width,
                        self.height == old(self).height,
                        len == old(self).buff@.len(),
                        old_px == old(self).buff@,
                        self.buff@.len() == len,
                        h >= 3,
                        y + h <= usize::MAX,
                        x + w <= usize::MAX,
                        flat_index(x + w, y + h - 2, ww) < len,
                        0 <= dy <= h - 1,
                        forall|k: int|
                            0 <= k < len ==> #[trigger] self.buff@[k] == if span_covers(
                                ww,
                                x as int,
                                y as int,
                                w as int,
                                k,
                            ) || ww_rect_sides_covers(ww, x as int, y as int, w as int, dy as int, k) {
                                color
                            } else {
                                old_px[k]
                            },
                    decreases h - dy,
                {
                    proof {
                        lemma_rows_monotone(ww, x + w, y + dy, y + h - 2);
                    }
                    self.set_pixel(x, y + dy, color);
                    self.set_pixel(x + w, y + dy, color);
                    proof {
                        assert forall|k: int| 0 <= k < len implies #[trigger] self.buff@[k] == if span_covers(
                            ww,
                            x as int,
                            y as int,
                            w as int,
                            k,
                        ) || ww_rect_sides_covers(ww, x as int, y as int, w as int, dy + 1, k) {
                            color
                        } else {
                            old_px[k]
                        } by {
                            if ww_rect_side(ww, x as int, y as int, w as int, dy as int, k) {
                                assert(ww_rect_sides_covers(ww, x as int, y as int, w as int, dy + 1, k));
                            } else {
                                if ww_rect_sides_covers(ww, x as int, y as int, w as int, dy + 1, k) {
                                    let d = choose|d: int|
                                        0 <= d < dy + 1 && #[trigger] ww_rect_side(ww, x as int, y as int, w as int, d, k);
                                    assert(ww_rect_sides_covers(ww, x as int, y as int, w as int, dy as int, k));
                                }
                                if ww_rect_sides_covers(ww, x as int, y as int, w as int, dy as int, k) {
                                    let d = choose|d: int|
                                        0 <= d < dy && #[trigger] ww_rect_side(ww, x as int, y as int, w as int, d, k);
                                    assert(ww_rect_sides_covers(ww, x as int, y as int, w as int, dy + 1, k));
                                }
                            }
                        }
                    }
                    dy = dy + 1;
                }
                self.set_pixel_range_from_value(x, y + h - 1, w, color);
            },
        }
    }

    /// Bresenham's walk from `(a0, b0)` to `(a1, b1)` along the major axis `a`, writing one
    /// pixel per major coordinate; a steep walk writes `(b, a)`, a shallow one `(a, b)`.
    fn walk_line(&mut self, a0: i32, b0: i32, a1: i32, b1: i32, steep: bool, color: Color)
        requires
            walk_fits(a0 as int, b0 as int, a1 as int, b1 as int),
            ww_walk_in_bounds(
                old(self).width as int,
                old(self).buff@.len() as int,
                a0 as int,
                b0 as int,
                a1 as int,
                b1 as int,
                steep,
            ),
        ensures
            final(self).width == old(self).width,
            final(self).height == old(self).height,
            final(self).buff@.len() == old(self).buff@.len(),
            forall|k: int|
                0 <= k < old(self).buff@.len() ==> #[trigger] final(self).buff@[k] == if ww_walk_line(
                    old(self).width as int,
                    a0 as int,
                    b0 as int,
                    a1 as int,
                    b1 as int,
                    steep,
                    k,
                ) {
                    color
                } else {
                    old(self).buff@[k]
                },
    {
        let ghost ww = self.width as int;
        let ghost len = self.buff@.len() as int;
        let ghost old_px = self.buff@;
        let da = a1 - a0;
        let mut db = b1 - b0;
        let mut dir: i32 = 1;
        if db < 0 {
            dir = -1;
            db = -db;
        }
        let mut d = (2 * db) - da;
        let mut b = b0;
        let mut a: i64 = a0 as i64;
        while a <= a1 as i64
            invariant
                ww == self.width,
                self.width == old(self).width,
                self.height == old(self).height,
                len == old(self).buff@.len(),
                old_px == old(self).buff@,
                self.buff@.len() == len,
                walk_fits(a0 as int, b0 as int, a1 as int, b1 as int),
                ww_walk_in_bounds(ww, len, a0 as int, b0 as int, a1 as int, b1 as int, steep),
                da == a1 - a0,
                db == abs_int(b1 - b0),
                dir == walk_dir(b0 as int, b1 as int),
                a0 <= a <= a1 + 1 || a == a0,
                (b as int, d as int) == walk_state(
                    a0 as int,
                    b0 as int,
                    a1 as int,
                    b1 as int,
                    (a - a0) as nat,
                ),
                forall|k: int|
                    0 <= k < len ==> #[trigger] self.buff@[k] == if ww_walk_covers(
                        ww,
                        a0 as int,
                        b0 as int,
                        a1 as int,
                        b1 as int,
                        steep,
                        a - a0,
                        k,
                    ) {
                        color
                    } else {
                        old_px[k]
                    },
            decreases a1 - a + 1,
        {
            let ghost i = (a - a0) as int;
            let ai = a as i32;
            assert(ww_walk_index(ww, a0 as int, b0 as int, a1 as int, b1 as int, steep, i) < len);
            if steep {
                self.set_pixel(b as usize, ai as usize, color);
            } else {
                self.set_pixel(ai as usize, b as usize, color);
            }
            proof {
                assert(walk_step_fits(a0 as int, b0 as int, a1 as int, b1 as int, i as nat));
                assert forall|k: int| 0 <= k < len implies #[trigger] self.buff@[k] == if ww_walk_covers(
                    ww,
                    a0 as int,
                    b0 as int,
                    a1 as int,
                    b1 as int,
                    steep,
                    i + 1,
                    k,
                ) {
                    color
                } else {
                    old_px[k]
                } by {
                    if ww_walk_hit(ww, a0 as int, b0 as int, a1 as int, b1 as int, steep, i, k) {
                        assert(ww_walk_covers(ww, a0 as int, b0 as int, a1 as int, b1 as int, steep, i + 1, k));
                    } else {
                        if ww_walk_covers(ww, a0 as int, b0 as int, a1 as int, b1 as int, steep, i + 1, k) {
                            let j = choose|j: int|
                                0 <= j < i + 1 && #[trigger] ww_walk_hit(
                                    ww,
                                    a0 as int,
                                    b0 as int,
                                    a1 as int,
                                    b1 as int,
                                    steep,
                                    j,
                                    k,
                                );
                            assert(ww_walk_covers(ww, a0 as int, b0 as int, a1 as int, b1 as int, steep, i, k));
                        }
                        if ww_walk_covers(ww, a0 as int, b0 as int, a1 as int, b1 as int, steep, i, k) {
                            let j = choose|j: int|
                                0 <= j < i && #[trigger] ww_walk_hit(
                                    ww,
                                    a0 as int,
                                    b0 as int,
                                    a1 as int,
                                    b1 as int,
                                    steep,
                                    j,
                                    k,
                                );
                            assert(ww_walk_covers(ww, a0 as int, b0 as int, a1 as int, b1 as int, steep, i + 1, k));
                        }
                    }
                }
            }
            if d > 0 {
                b = b + dir;
                d = d + 2 * (db - da);
            } else {
                d = d + 2 * db;
            }
            a = a + 1;
        }
    }

    /// Bresenham's line for shallow slopes: walks `x` from `x0` to `x1` (nothing when
    /// `x0 > x1`), writing one pixel per column at the flat index of `(x, y)`, each coordinate
    /// taken as `v as usize`; every pixel written must lie inside the buffer.
    pub fn draw_line_low(&mut self, x0: i32, y0: i32, x1: i32, y1: i32, color: Color)
        requires
            walk_fits(x0 as int, y0 as int, x1 as int, y1 as int),
            ww_walk_in_bounds(
                old(self).width as int,
                old(self).buff@.len() as int,
                x0 as int,
                y0 as int,
                x1 as int,
                y1 as int,
                false,
            ),
        ensures
            final(self).width == old(self).width,
            final(self).height == old(self).height,
            final(self).buff@.len() == old(self).buff@.len(),
            forall|k: int|
                0 <= k < old(self).buff@.len() ==> #[trigger] final(self).buff@[k] == if ww_walk_line(
                    old(self).width as int,
                    x0 as int,
                    y0 as int,
                    x1 as int,
                    y1 as int,
                    false,
                    k,
                ) {
                    color
                } else {
                    old(self).buff@[k]
                },
    {
        self.walk_line(x0, y0, x1, y1, false, color);
    }

    /// Bresenham's line for steep slopes: walks `y` from `y0` to `y1` (nothing when
    /// `y0 > y1`), writing one pixel per row at the flat index of `(x, y)`, each coordinate
    /// taken as `v as usize`; every pixel written must lie inside the buffer.
    pub fn draw_line_high(&mut self, x0: i32, y0: i32, x1: i32, y1: i32, color: Color)
        requires
            walk_fits(y0 as int, x0 as int, y1 as int, x1 as int),
            ww_walk_in_bounds(
                old(self).width as int,
                old(self).buff@.len() as int,
                y0 as int,
                x0 as int,
                y1 as int,
                x1 as int,
                true,
            ),
        ensures
            final(self).width == old(self).width,
            final(self).height == old(self).height,
            final(self).buff@.len() == old(self).buff@.len(),
            forall|k: int|
                0 <= k < old(self).buff@.len() ==> #[trigger] final(self).buff@[k] == if ww_walk_line(
                    old(self).width as int,
                    y0 as int,
                    x0 as int,
                    y1 as int,
                    x1 as int,
                    true,
                    k,
                ) {
                    color
                } else {
                    old(self).buff@[k]
                },
    {
        self.walk_line(y0, x0, y1, x1, true, color);
    }

    /// Bresenham's line between `(x0, y0)` and `(x1, y1)`, the coordinates taken as `i32`: a
    /// shallow line column by column from its left end, a steep one row by row from its top end.
    pub fn draw_line(&mut self, x0: usize, y0: usize, x1: usize, y1: usize, color: Color)
        requires
            ww_line_ok(
                old(self).width as int,
                old(self).buff@.len() as int,
                x0 as i32 as int,
                y0 as i32 as int,
                x1 as i32 as int,
                y1 as i32 as int,
            ),
        ensures
            final(self).width == old(self).width,
            final(self).height == old(self).height,
            final(self).buff@.len() == old(self).buff@.len(),
            forall|k: int|
                0 <= k < old(self).buff@.len() ==> #[trigger] final(self).buff@[k] == if ww_line_covers(
                    old(self).width as int,
                    x0 as i32 as int,
                    y0 as i32 as int,
                    x1 as i32 as int,
                    y1 as i32 as int,
                    k,
                ) {
                    color
                } else {
                    old(self).buff@[k]
                },
    {
        let x0 = x0 as i32;
        let y0 = y0 as i32;
        let x1 = x1 as i32;
        let y1 = y1 as i32;
        let dy = y1 - y0;
        let dx = x1 - x0;
        let ady = if dy < 0 {
            -dy
        } else {
            dy
        };
        let adx = if dx < 0 {
            -dx
        } else {
            dx
        };
        if ady < adx {
            if x0 > x1 {
                self.draw_line_low(x1, y1, x0, y0, color);
            } else {
                self.draw_line_low(x0, y0, x1, y1, color);
            }
        } else {
            if y0 > y1 {
                self.draw_line_high(x1, y1, x0, y0, color);
            } else {
                self.draw_line_high(x0, y0, x1, y1, color);
            }
        }
    }

    /// Fills a circle of radius `r` centred at `(x, y)` (taken as `i32`), row by row: row
    /// `y + dy`, for `dy` from `-r` to `r`, is filled from flat position `(x - s, y + dy)` up to
    /// `(x + s, y + dy)`, with `s` the integer square root of `r * r - dy * dy`; every range
    /// must be ordered and lie inside the buffer.
    pub fn draw_circle_fill(&mut self, x: usize, y: usize, r: u16, color: Color)
        requires
            r * r <= i32::MAX,
            in_i32(x as i32 - r),
            in_i32(x as i32 + r),
            in_i32(y as i32 - r),
            in_i32(y as i32 + r),
            forall|dy: int|
                -r <= dy <= r ==> ({
                    let span = #[trigger] ww_circle_row(
                        old(self).width as int,
                        x as i32 as int,
                        y as i32 as int,
                        r as int,
                        dy,
                    );
                    span.0 <= span.1 <= old(self).buff@.len()
                }),
        ensures
            final(self).width == old(self).width,
            final(self).height == old(self).height,
            final(self).buff@.len() == old(self).buff@.len(),
            forall|k: int|
                0 <= k < old(self).buff@.len() ==> #[trigger] final(self).buff@[k] == if ww_circle_fill_covers(
                    old(self).width as int,
                    x as i32 as int,
                    y as i32 as int,
                    r as int,
                    k,
                ) {
                    color
                } else {
                    old(self).buff@[k]
                },
    {
        let ghost ww = self.width as int;
        let ghost len = self.buff@.len() as int;
        let ghost old_px = self.buff@;
        let ghost cx = x as i32 as int;
        let ghost cy = y as i32 as int;
        let ghost rr = r as int;
        let r = r as i32;
        let mut dy: i32 = -r;
        while dy <= r
            invariant
                ww == self.width,
                self.width == old(self).width,
                self.height == old(self).height,
                len == old(self).buff@.len(),
                old_px == old(self).buff@,
                self.buff@.len() == len,
                cx == x as i32 as int,
                cy == y as i32 as int,
                rr == r,
                0 <= r <= 0xffff,
                r * r <= i32::MAX,
                in_i32(cx - r),
                in_i32(cx + r),
                in_i32(cy - r),
                in_i32(cy + r),
                forall|d: int|
                    -rr <= d <= rr ==> ({
                        let span = #[trigger] ww_circle_row(ww, cx, cy, rr, d);
                        span.0 <= span.1 <= len
                    }),
                -r <= dy <= r + 1,
                forall|k: int|
                    0 <= k < len ==> #[trigger] self.buff@[k] == if ww_circle_covers(
                        ww,
                        cx,
                        cy,
                        r as int,
                        dy as int,
                        k,
                    ) {
                        color
                    } else {
                        old_px[k]
                    },
            decreases r - dy + 1,
        {
            proof {
                assert(dy * dy <= r * r) by (nonlinear_arith)
                    requires
                        -r <= dy <= r,
                ;
                assert(0 <= dy * dy) by (nonlinear_arith);
            }
            let dx = isqrt_i32(r * r - dy * dy);
            proof {
                lemma_isqrt_is((r * r - dy * dy) as int, dx as int);
                assert(dx <= r) by (nonlinear_arith)
                    requires
                        0 <= dx,
                        dx * dx <= r * r - dy * dy,
                        0 <= dy * dy,
                        0 <= r,
                ;
                let span = ww_circle_row(ww, cx, cy, rr, dy as int);
                assert(span.0 <= span.1 <= len);
            }
            let dx_1 = -dx;
            let dx_2 = dx;
            self.set_pixels_between_points(
                (y as i32 + dy) as usize,
                (x as i32 + dx_1) as usize,
                (x as i32 + dx_2) as usize,
                color,
            );
            proof {
                assert forall|k: int| 0 <= k < len implies #[trigger] self.buff@[k] == if ww_circle_covers(
                    ww,
                    cx,
                    cy,
                    r as int,
                    dy + 1,
                    k,
                ) {
                    color
                } else {
                    old_px[k]
                } by {
                    if ww_circle_row_hit(ww, cx, cy, r as int, dy as int, k) {
                        assert(ww_circle_covers(ww, cx, cy, r as int, dy + 1, k));
                    } else {
                        if ww_circle_covers(ww, cx, cy, r as int, dy + 1, k) {
                            let j = choose|j: int|
                                -r <= j < dy + 1 && #[trigger] ww_circle_row_hit(ww, cx, cy, r as int, j, k);
                            assert(ww_circle_covers(ww, cx, cy, r as int, dy as int, k));
                        }
                        if ww_circle_covers(ww, cx, cy, r as int, dy as int, k) {
                            let j = choose|j: int|
                                -r <= j < dy && #[trigger] ww_circle_row_hit(ww, cx, cy, r as int, j, k);
                            assert(ww_circle_covers(ww, cx, cy, r as int, dy + 1, k));
                        }
                    }
                }
            }
            dy = dy + 1;
        }
    }

    /// Outlines a circle of radius `r` around `(x, y)` with the midpoint circle algorithm: the
    /// points it steps through and their mirror images are marked in a `(2r + 1)`-square mask,
    /// which is then stamped with its top-left corner at `(x - r, y - r)`.
    pub fn draw_circle_stroke(&mut self, x: usize, y: usize, r: usize, color: Color)
        requires
            old(self).wf(),
            (2 * r + 1) * (2 * r + 1) <= usize::MAX,
            stroke_fits(r as int),
            r <= x,
            r <= y,
            y + r + 1 <= usize::MAX + 1,
            flat_index(x - r, y + r, old(self).width as int) + 2 * r + 1 <= old(self).buff@.len(),
        ensures
            final(self).wf(),
            final(self).width == old(self).width,
            final(self).height == old(self).height,
            final(self).buff@.len() == old(self).buff@.len(),
            forall|k: int|
                0 <= k < old(self).buff@.len() ==> #[trigger] final(self).buff@[k] == if ww_stroke_covers(
                    old(self).width as int,
                    x as int,
                    y as int,
                    r as int,
                    k,
                ) {
                    color
                } else {
                    old(self).buff@[k]
                },
    {
        let ghost rr = r as int;
        let n = 2 * r + 1;
        proof {
            assert(r <= 0x7fff_ffff) by (nonlinear_arith)
                requires
                    (2 * r + 1) * (2 * r + 1) <= usize::MAX,
                    usize::MAX <= 0xffff_ffff_ffff_ffff,
            ;
        }
        let mut cells: Vec<bool> = vec![false; n * n];
        let ri = r as i32;
        assert(ri == r);
        let mut cx = ri;
        let mut cy: i32 = 0;
        let mut p = 1 - ri;
        let ghost mut i: nat = 0;
        proof {
            assert forall|a: int, b: int| 0 <= a < n && 0 <= b < n implies #[trigger] cells@[flat_index(
                b,
                a,
                n as int,
            )] == mask_marked_upto(rr, 0, a, b) by {
                lemma_flat_index_in_bounds(b, a, n as int, n as int);
            }
        }
        while cx >= cy
            invariant
                rr == r,
                rr == ri,
                n == 2 * r + 1,
                n * n <= usize::MAX,
                cells@.len() == n * n,
                stroke_fits(rr),
                (cx as int, cy as int, p as int) == stroke_state(rr, i),
                forall|a: int, b: int|
                    0 <= a < n && 0 <= b < n ==> #[trigger] cells@[flat_index(b, a, n as int)]
                        == mask_marked_upto(rr, i as int, a, b),
            decreases cx - cy + 2,
        {
            proof {
                lemma_stroke_state_shape(rr, i);
                assert(stroke_runs(rr, i));
                assert(stroke_step_fits(rr, i));
            }
            let ghost c0 = cells@;
            mark_pair(&mut cells, n, ri, cx, cy, 1, 1);
            let ghost c1 = cells@;
            mark_pair(&mut cells, n, ri, cx, cy, 1, -1);
            let ghost c2 = cells@;
            mark_pair(&mut cells, n, ri, cx, cy, -1, 1);
            let ghost c3 = cells@;
            mark_pair(&mut cells, n, ri, cx, cy, -1, -1);
            proof {
                assert forall|a: int, b: int|
                    0 <= a < n && 0 <= b < n implies #[trigger] cells@[flat_index(b, a, n as int)]
                    == mask_marked_upto(rr, i as int + 1, a, b) by {
                    let f = flat_index(b, a, n as int);
                    assert(c1[f] == (c0[f] || mask_pair_marks(cx as int, cy as int, rr, 1, 1, a, b)));
                    assert(c2[f] == (c1[f] || mask_pair_marks(cx as int, cy as int, rr, 1, -1, a, b)));
                    assert(c3[f] == (c2[f] || mask_pair_marks(cx as int, cy as int, rr, -1, 1, a, b)));
                    if mask_step_marks(rr, i as int, a, b) {
                        assert(mask_marked_upto(rr, i as int + 1, a, b));
                    } else {
                        if mask_marked_upto(rr, i as int + 1, a, b) {
                            let t = choose|t: int|
                                0 <= t < i as int + 1 && #[trigger] mask_step_marks(rr, t, a, b);
                            assert(mask_marked_upto(rr, i as int, a, b));
                        }
                        if mask_marked_upto(rr, i as int, a, b) {
                            let t = choose|t: int| 0 <= t < i && #[trigger] mask_step_marks(rr, t, a, b);
                            assert(mask_marked_upto(rr, i as int + 1, a, b));
                        }
                    }
                }
            }
            let was_positive = p > 0;
            cx = cx - if was_positive {
                1
            } else {
                0
            };
            cy = cy + 1;
            p = p + if was_positive {
                1 - 2 * cx + 2 * cy
            } else {
                1 + 2 * cy
            };
            proof {
                i = i + 1;
            }
        }
        proof {
            assert forall|a: int, b: int| 0 <= a < n && 0 <= b < n implies mask_marked_upto(
                rr,
                i as int,
                a,
                b,
            ) == mask_marked(rr, a, b) by {
                if mask_marked(rr, a, b) {
                    let t = choose|t: int| #[trigger] mask_step_marks(rr, t, a, b);
                    if t >= i {
                        lemma_stroke_stops(rr, i, t as nat);
                    }
                }
            }
        }
        let mut array: Vec<Vec<bool>> = Vec::new();
        let mut a: usize = 0;
        while a < n
            invariant
                rr == r,
                n == 2 * r + 1,
                n * n <= usize::MAX,
                cells@.len() == n * n,
                0 <= a <= n,
                array@.len() == a,
                forall|a2: int, b: int|
                    0 <= a2 < n && 0 <= b < n ==> #[trigger] cells@[flat_index(b, a2, n as int)]
                        == mask_marked(rr, a2, b),
                forall|a2: int| 0 <= a2 < a ==> (#[trigger] array@[a2])@ == stroke_mask(rr)[a2],
            decreases n - a,
        {
            let mut row: Vec<bool> = Vec::new();
            let mut b: usize = 0;
            while b < n
                invariant
                    rr == r,
                    n == 2 * r + 1,
                    n * n <= usize::MAX,
                    cells@.len() == n * n,
                    0 <= a < n,
                    0 <= b <= n,
                    row@.len() == b,
                    forall|a2: int, b2: int|
                        0 <= a2 < n && 0 <= b2 < n ==> #[trigger] cells@[flat_index(b2, a2, n as int)]
                            == mask_marked(rr, a2, b2),
                    forall|b2: int| 0 <= b2 < b ==> #[trigger] row@[b2] == mask_marked(rr, a as int, b2),
                decreases n - b,
            {
                proof {
                    lemma_flat_index_in_bounds(b as int, a as int, n as int, n as int);
                    assert(cells.len() == cells@.len());
                }
                row.push(cells[a * n + b]);
                b = b + 1;
            }
            assert(row@ =~= stroke_mask(rr)[a as int]);
            array.push(row);
            a = a + 1;
        }
        proof {
            assert(array.deep_view() =~= stroke_mask(rr)) by {
                assert forall|a2: int| 0 <= a2 < n implies #[trigger] array.deep_view()[a2]
                    == stroke_mask(rr)[a2] by {
                    assert(array@[a2]@ == stroke_mask(rr)[a2]);
                    assert(array.deep_view()[a2] =~= array@[a2]@);
                }
            }
            assert forall|dy: int| 0 <= dy < array@.len() implies flat_index(
                x - r,
                y - r + dy,
                self.width as int,
            ) + (#[trigger] array@[dy])@.len() <= self.buff@.len() by {
                lemma_rows_monotone(self.width as int, x - r, y - r + dy, y + r);
            }
        }
        self.set_pixels_masked(x - r, y - r, array, color);
    }

    /// The pixel at flat index `y * width + x`, which must lie inside the buffer.
    pub fn get_pixel(&self, x: usize, y: usize) -> (c: Color)
        requires
            flat_index(x as int, y as int, self.width as int) < self.buff@.len(),
        ensures
            c == self.buff@[flat_index(x as int, y as int, self.width as int)],
    {
        proof {
            assert(self.buff.len() == self.buff@.len());
        }
        self.buff[Self::idx(x, y, self.width)]
    }

    /// The `length` pixels of the flat buffer starting at `(x, y)`, which must lie inside it.
    pub fn get_pixel_range(&self, x: usize, y: usize, length: usize) -> (r: &[Color])
        requires
            flat_index(x as int, y as int, self.width as int) + length <= self.buff@.len(),
        ensures
            ({
                let start = flat_index(x as int, y as int, self.width as int);
                r@ == self.buff@.subrange(start, start + length)
            }),
    {
        proof {
            assert(self.buff.len() == self.buff@.len());
            assert(0 <= y * self.width) by (nonlinear_arith)
                requires
                    y >= 0,
                    self.width >= 0,
            ;
        }
        let start = Self::idx(x, y, self.width);
        let s = self.buff.as_slice();
        let (_, tail) = s.split_at(start);
        let (mid, _) = tail.split_at(length);
        mid
    }

    /// Mutable access to the `length` pixels of the flat buffer starting at `(x, y)`; what is
    /// written through it lands at those pixels, and every other pixel is kept.
    pub fn get_pixel_range_mut(&mut self, x: usize, y: usize, length: usize) -> (r: &mut [Color])
        requires
            flat_index(x as int, y as int, old(self).width as int) + length <= old(self).buff@.len(),
        ensures
            ({
                let start = flat_index(x as int, y as int, old(self).width as int);
                &&& r@ == old(self).buff@.subrange(start, start + length)
                &&& final(self).width == old(self).width
                &&& final(self).height == old(self).height
                &&& final(self).buff@ == old(self).buff@.subrange(0, start) + final(r)@
                    + old(self).buff@.subrange(start + length, old(self).buff@.len() as int)
            }),
    {
        proof {
            assert(self.buff.len() == self.buff@.len());
            assert(0 <= y * self.width) by (nonlinear_arith)
                requires
                    y >= 0,
                    self.width >= 0,
            ;
        }
        let start = Self::idx(x, y, self.width);
        let s = self.buff.as_mut_slice();
        let (_, tail) = s.split_at_mut(start);
        let (mid, _) = tail.split_at_mut(length);
        mid
    }
}

} // verus!
