//! What the drawing routines paint, stated over flat pixel indices.
use vstd::prelude::*;

use crate::buffer::{flat_index, lemma_flat_index_injective};
use crate::pixel_buffer::min_int;
use vstd::arithmetic::div_mod::{lemma_add_mod_noop_right, lemma_mod_add_multiples_vanish, lemma_small_mod};

verus! {

/// Whether `set_pixel(px, py)` on a `w` x `h` buffer writes the flat index `k`.
pub open spec fn point_covers(w: int, h: int, px: int, py: int, k: int) -> bool {
    &&& 0 <= px < w
    &&& 0 <= py < h
    &&& k == flat_index(px, py, w)
}

/// Whether `set_pixel_range_from_value(x, y, length)` on a `w` x `h` buffer holding `len`
/// pixels writes the flat index `k`.
pub open spec fn run_covers(w: int, h: int, len: int, x: int, y: int, length: int, k: int) -> bool {
    &&& 0 <= x < w
    &&& 0 <= y < h
    &&& flat_index(x, y, w) <= k < min_int(flat_index(x, y, w) + length, len)
}

/// Whether `set_pixels_between_points(y, x1, x2)` on a `w` x `h` buffer writes the flat index `k`.
pub open spec fn segment_covers(w: int, h: int, y: int, x1: int, x2: int, k: int) -> bool {
    &&& 0 <= y < h
    &&& x1 <= w
    &&& x1 <= x2
    &&& flat_index(x1, y, w) <= k < flat_index(min_int(x2, w), y, w)
}

/// Whether row `dy` of a filled rectangle with top-left corner `(x, y)` and width `rw` writes
/// the flat index `k`.
pub open spec fn rect_row_covers(w: int, h: int, len: int, x: int, y: int, rw: int, dy: int, k: int) -> bool {
    run_covers(w, h, len, x, y + dy, rw, k)
}

/// Whether one of the first `rows` rows of a filled rectangle writes the flat index `k`.
pub open spec fn rect_fill_covers_upto(
    w: int,
    h: int,
    len: int,
    x: int,
    y: int,
    rw: int,
    rows: int,
    k: int,
) -> bool {
    exists|dy: int| 0 <= dy < rows && #[trigger] rect_row_covers(w, h, len, x, y, rw, dy, k)
}

/// Whether `draw_rect_fill(x, y, rw, rh)` writes the flat index `k`: each of the `rh` rows is a
/// run of `rw` pixels starting at `(x, y + dy)`.
pub open spec fn rect_fill_covers(w: int, h: int, len: int, x: int, y: int, rw: int, rh: int, k: int) -> bool {
    rect_fill_covers_upto(w, h, len, x, y, rw, rh, k)
}

/// Whether the side pixels of row `dy` of a stroked rectangle, `(x, y + dy)` and
/// `(x + rw, y + dy)`, include the flat index `k`.
pub open spec fn rect_side_covers(w: int, h: int, x: int, y: int, rw: int, dy: int, k: int) -> bool {
    point_covers(w, h, x, y + dy, k) || point_covers(w, h, x + rw, y + dy, k)
}

/// Whether the side pixels of the rows `1 <= dy < upto` of a stroked rectangle include `k`.
pub open spec fn rect_sides_covers_upto(w: int, h: int, x: int, y: int, rw: int, upto: int, k: int) -> bool {
    exists|dy: int| 1 <= dy < upto && #[trigger] rect_side_covers(w, h, x, y, rw, dy, k)
}

/// Whether `draw_rect_stroke(x, y, rw, rh)` writes the flat index `k`: the top row and the
/// bottom row are runs of `rw` pixels, and each row in between gets the pixels at columns `x`
/// and `x + rw`.
pub open spec fn rect_stroke_covers(w: int, h: int, len: int, x: int, y: int, rw: int, rh: int, k: int) -> bool {
    ||| rh >= 1 && run_covers(w, h, len, x, y, rw, k)
    ||| rh >= 2 && run_covers(w, h, len, x, y + rh - 1, rw, k)
    ||| rh >= 3 && rect_sides_covers_upto(w, h, x, y, rw, rh - 1, k)
}

/// `draw_rect_fill(x, y, rw, rh)` paints exactly the `rh` runs that
/// `set_pixel_range_from_value(x, row, rw)` writes for the rows `y <= row < y + rh`: every pixel
/// of each of them, and nothing else.
pub proof fn lemma_rect_fill_is_its_rows(
    w: int,
    h: int,
    len: int,
    x: int,
    y: int,
    rw: int,
    rh: int,
    k: int,
)
    ensures
        rect_fill_covers(w, h, len, x, y, rw, rh, k) <==> exists|row: int|
            y <= row < y + rh && #[trigger] run_covers(w, h, len, x, row, rw, k),
{
    if rect_fill_covers(w, h, len, x, y, rw, rh, k) {
        let dy = choose|dy: int| 0 <= dy < rh && #[trigger] rect_row_covers(w, h, len, x, y, rw, dy, k);
        assert(run_covers(w, h, len, x, y + dy, rw, k));
    }
    if exists|row: int| y <= row < y + rh && #[trigger] run_covers(w, h, len, x, row, rw, k) {
        let row = choose|row: int| y <= row < y + rh && #[trigger] run_covers(w, h, len, x, row, rw, k);
        assert(rect_row_covers(w, h, len, x, y, rw, row - y, k));
    }
}

/// `draw_rect_stroke(x, y, rw, rh)` paints exactly the outline: the run of `rw` pixels that
/// `set_pixel_range_from_value` writes from the top corner `(x, y)` (when `rh >= 1`) and from
/// `(x, y + rh - 1)` (when `rh >= 2`), and, for every row strictly between the two, the pixels
/// `(x, row)` and `(x + rw, row)` that lie in the buffer.
pub proof fn lemma_rect_stroke_is_outline(
    w: int,
    h: int,
    len: int,
    x: int,
    y: int,
    rw: int,
    rh: int,
    k: int,
)
    ensures
        rect_stroke_covers(w, h, len, x, y, rw, rh, k) <==> {
            ||| rh >= 1 && run_covers(w, h, len, x, y, rw, k)
            ||| rh >= 2 && run_covers(w, h, len, x, y + rh - 1, rw, k)
            ||| exists|row: int|
                #![trigger point_covers(w, h, x, row, k)]
                #![trigger point_covers(w, h, x + rw, row, k)]
                y + 1 <= row <= y + rh - 2 && (point_covers(w, h, x, row, k) || point_covers(
                    w,
                    h,
                    x + rw,
                    row,
                    k,
                ))
        },
{
    if rh >= 3 && rect_sides_covers_upto(w, h, x, y, rw, rh - 1, k) {
        let dy = choose|dy: int| 1 <= dy < rh - 1 && #[trigger] rect_side_covers(w, h, x, y, rw, dy, k);
        assert(point_covers(w, h, x, y + dy, k) || point_covers(w, h, x + rw, y + dy, k));
    }
    if exists|row: int|
        #![trigger point_covers(w, h, x, row, k)]
        #![trigger point_covers(w, h, x + rw, row, k)]
        y + 1 <= row <= y + rh - 2 && (point_covers(w, h, x, row, k) || point_covers(
            w,
            h,
            x + rw,
            row,
            k,
        )) {
        let row = choose|row: int|
            #![trigger point_covers(w, h, x, row, k)]
            #![trigger point_covers(w, h, x + rw, row, k)]
            y + 1 <= row <= y + rh - 2 && (point_covers(w, h, x, row, k) || point_covers(
                w,
                h,
                x + rw,
                row,
                k,
            ));
        assert(rect_side_covers(w, h, x, y, rw, row - y, k));
        assert(rect_sides_covers_upto(w, h, x, y, rw, rh - 1, k));
    }
}

/// On a well-formed `w` x `h` buffer, a run of `rw` pixels that starts at `(x, row)` and stays
/// within the row writes exactly the pixels `(px, row)` with `x <= px < x + rw`.
pub proof fn lemma_run_is_row_span(
    w: int,
    h: int,
    len: int,
    x: int,
    row: int,
    rw: int,
    px: int,
    py: int,
)
    requires
        len == w * h,
        0 <= x,
        0 <= rw,
        x + rw <= w,
        0 <= px < w,
        0 <= py < h,
    ensures
        run_covers(w, h, len, x, row, rw, flat_index(px, py, w)) <==> (py == row && x <= px < x
            + rw),
{
    if 0 <= row < h && x < w {
        assert(row * w + w <= h * w) by (nonlinear_arith)
            requires
                0 <= row < h,
                w > 0,
        ;
        assert(w * h == h * w) by (nonlinear_arith);
        lemma_flat_in_row_span(w, row, x, x + rw, px, py);
    }
}

/// `draw_rect_fill(x, y, rw, rh)` on a well-formed buffer, for a rectangle that does not reach
/// past the right edge, paints exactly the pixels of the rectangle: `(px, py)` with
/// `x <= px < x + rw` and `y <= py < y + rh`.
pub proof fn lemma_rect_fill_is_rectangle(
    w: int,
    h: int,
    len: int,
    x: int,
    y: int,
    rw: int,
    rh: int,
    px: int,
    py: int,
)
    requires
        len == w * h,
        0 <= x,
        0 <= rw,
        x + rw <= w,
        0 <= px < w,
        0 <= py < h,
    ensures
        rect_fill_covers(w, h, len, x, y, rw, rh, flat_index(px, py, w)) <==> (x <= px < x + rw && y
            <= py < y + rh),
{
    let k = flat_index(px, py, w);
    lemma_rect_fill_is_its_rows(w, h, len, x, y, rw, rh, k);
    if rect_fill_covers(w, h, len, x, y, rw, rh, k) {
        let row = choose|row: int| y <= row < y + rh && #[trigger] run_covers(w, h, len, x, row, rw, k);
        lemma_run_is_row_span(w, h, len, x, row, rw, px, py);
    }
    lemma_run_is_row_span(w, h, len, x, py, rw, px, py);
}

/// `draw_rect_stroke(x, y, rw, rh)` on a well-formed buffer, for a rectangle that does not reach
/// past the right edge, paints exactly its frame: the top row `y` (when `rh >= 1`) and the
/// bottom row `y + rh - 1` (when `rh >= 2`) from `x` to `x + rw - 1`, and on every row strictly
/// between them the two pixels at columns `x` and `x + rw`.
pub proof fn lemma_rect_stroke_is_frame(
    w: int,
    h: int,
    len: int,
    x: int,
    y: int,
    rw: int,
    rh: int,
    px: int,
    py: int,
)
    requires
        len == w * h,
        0 <= x,
        0 <= rw,
        x + rw <= w,
        0 <= px < w,
        0 <= py < h,
    ensures
        rect_stroke_covers(w, h, len, x, y, rw, rh, flat_index(px, py, w)) <==> {
            ||| rh >= 1 && py == y && x <= px < x + rw
            ||| rh >= 2 && py == y + rh - 1 && x <= px < x + rw
            ||| y + 1 <= py <= y + rh - 2 && (px == x || px == x + rw)
        },
{
    let k = flat_index(px, py, w);
    lemma_rect_stroke_is_outline(w, h, len, x, y, rw, rh, k);
    lemma_run_is_row_span(w, h, len, x, y, rw, px, py);
    lemma_run_is_row_span(w, h, len, x, y + rh - 1, rw, px, py);
    assert forall|row: int| #[trigger] point_covers(w, h, x, row, k) implies px == x && py == row by {
        lemma_flat_index_injective(w, x, row, px, py);
    }
    assert forall|row: int| #[trigger] point_covers(w, h, x + rw, row, k) implies px == x + rw && py
        == row by {
        lemma_flat_index_injective(w, x + rw, row, px, py);
    }
    if y + 1 <= py <= y + rh - 2 && (px == x || px == x + rw) {
        if px == x {
            assert(point_covers(w, h, x, py, k));
        } else {
            assert(point_covers(w, h, x + rw, py, k));
        }
    }
}

/// Whether `v` is a value of `i32`.
pub open spec fn in_i32(v: int) -> bool {
    i32::MIN <= v <= i32::MAX
}

/// Absolute value.
pub open spec fn abs_int(v: int) -> int {
    if v < 0 {
        -v
    } else {
        v
    }
}

/// The index that `v as usize` yields for an `i32` value `v`.
pub open spec fn i32_index(v: int) -> int {
    ((v as i32) as usize) as int
}

/// The direction, `-1` or `1`, in which the minor coordinate moves from `b0` to `b1`.
pub open spec fn walk_dir(b0: int, b1: int) -> int {
    if b1 - b0 < 0 {
        -1
    } else {
        1
    }
}

/// Bresenham's walk from `(a0, b0)` towards `(a1, b1)` along the major axis `a`: the minor
/// coordinate and the decision value after `i` steps.
///
/// It starts at `(b0, 2 * |b1 - b0| - (a1 - a0))`; at each step a positive decision value moves
/// the minor coordinate one unit towards `b1` and adds `2 * (|b1 - b0| - (a1 - a0))`, any other
/// adds `2 * |b1 - b0|`.
pub open spec fn walk_state(a0: int, b0: int, a1: int, b1: int, i: nat) -> (int, int)
    decreases i,
{
    let da = a1 - a0;
    let db = abs_int(b1 - b0);
    if i == 0 {
        (b0, 2 * db - da)
    } else {
        let prev = walk_state(a0, b0, a1, b1, (i - 1) as nat);
        if prev.1 > 0 {
            (prev.0 + walk_dir(b0, b1), prev.1 + 2 * (db - da))
        } else {
            (prev.0, prev.1 + 2 * db)
        }
    }
}

/// Whether step `i` of the walk computes its next state within `i32`.
pub open spec fn walk_step_fits(a0: int, b0: int, a1: int, b1: int, i: nat) -> bool {
    let da = a1 - a0;
    let db = abs_int(b1 - b0);
    let s = walk_state(a0, b0, a1, b1, i);
    if s.1 > 0 {
        &&& in_i32(s.0 + walk_dir(b0, b1))
        &&& in_i32(2 * (db - da))
        &&& in_i32(s.1 + 2 * (db - da))
    } else {
        in_i32(s.1 + 2 * db)
    }
}

/// Whether every value the walk computes, from its set-up to its last step, fits in `i32`.
pub open spec fn walk_fits(a0: int, b0: int, a1: int, b1: int) -> bool {
    &&& in_i32(a1 - a0)
    &&& in_i32(b1 - b0)
    &&& in_i32(abs_int(b1 - b0))
    &&& in_i32(2 * abs_int(b1 - b0))
    &&& in_i32(2 * abs_int(b1 - b0) - (a1 - a0))
    &&& forall|i: nat| i <= a1 - a0 ==> #[trigger] walk_step_fits(a0, b0, a1, b1, i)
}

/// Whether step `i` of the walk paints the flat index `k` of a `w` x `h` buffer; a steep walk
/// runs along `y`, so its major coordinate is the row.
pub open spec fn walk_hit(
    w: int,
    h: int,
    a0: int,
    b0: int,
    a1: int,
    b1: int,
    steep: bool,
    i: int,
    k: int,
) -> bool {
    let a = i32_index(a0 + i);
    let b = i32_index(walk_state(a0, b0, a1, b1, i as nat).0);
    if steep {
        point_covers(w, h, b, a, k)
    } else {
        point_covers(w, h, a, b, k)
    }
}

/// Whether one of the first `n` steps of the walk paints the flat index `k`.
pub open spec fn walk_covers_upto(
    w: int,
    h: int,
    a0: int,
    b0: int,
    a1: int,
    b1: int,
    steep: bool,
    n: int,
    k: int,
) -> bool {
    exists|i: int| 0 <= i < n && #[trigger] walk_hit(w, h, a0, b0, a1, b1, steep, i, k)
}

/// Whether the whole walk, one step per major coordinate from `a0` to `a1`, paints `k`.
pub open spec fn walk_covers(w: int, h: int, a0: int, b0: int, a1: int, b1: int, steep: bool, k: int) -> bool {
    walk_covers_upto(w, h, a0, b0, a1, b1, steep, a1 - a0 + 1, k)
}

/// Whether `draw_line(x0, y0, x1, y1)` paints the flat index `k`, the coordinates taken as the
/// `i32` values the line is drawn with: a shallow line walks along `x` from its left end, a
/// steep one along `y` from its top end.
pub open spec fn line_covers(w: int, h: int, x0: int, y0: int, x1: int, y1: int, k: int) -> bool {
    if abs_int(y1 - y0) < abs_int(x1 - x0) {
        if x0 > x1 {
            walk_covers(w, h, x1, y1, x0, y0, false, k)
        } else {
            walk_covers(w, h, x0, y0, x1, y1, false, k)
        }
    } else {
        if y0 > y1 {
            walk_covers(w, h, y1, x1, y0, x0, true, k)
        } else {
            walk_covers(w, h, y0, x0, y1, x1, true, k)
        }
    }
}

/// Whether `draw_line(x0, y0, x1, y1)` computes every value within `i32`.
pub open spec fn line_fits(x0: int, y0: int, x1: int, y1: int) -> bool {
    &&& in_i32(y1 - y0)
    &&& in_i32(x1 - x0)
    &&& in_i32(abs_int(y1 - y0))
    &&& in_i32(abs_int(x1 - x0))
    &&& if abs_int(y1 - y0) < abs_int(x1 - x0) {
        if x0 > x1 {
            walk_fits(x1, y1, x0, y0)
        } else {
            walk_fits(x0, y0, x1, y1)
        }
    } else {
        if y0 > y1 {
            walk_fits(y1, x1, y0, x0)
        } else {
            walk_fits(y0, x0, y1, x1)
        }
    }
}

/// Whether `s` is the integer square root of `n`: the largest non-negative `s` with `s * s <= n`.
pub open spec fn is_isqrt(n: int, s: int) -> bool {
    &&& 0 <= s
    &&& s * s <= n
    &&& n < (s + 1) * (s + 1)
}

/// The integer square root of `n`.
pub open spec fn isqrt(n: int) -> int {
    choose|s: int| is_isqrt(n, s)
}

/// The integer square root is unique.
pub proof fn lemma_isqrt_unique(n: int, s: int, t: int)
    requires
        is_isqrt(n, s),
        is_isqrt(n, t),
    ensures
        s == t,
{
    if s < t {
        assert((s + 1) * (s + 1) <= t * t) by (nonlinear_arith)
            requires
                0 <= s,
                s + 1 <= t,
        ;
    } else if t < s {
        assert((t + 1) * (t + 1) <= s * s) by (nonlinear_arith)
            requires
                0 <= t,
                t + 1 <= s,
        ;
    }
}

/// A value `s` with the integer-square-root property is `isqrt(n)`.
pub proof fn lemma_isqrt_is(n: int, s: int)
    requires
        is_isqrt(n, s),
    ensures
        isqrt(n) == s,
{
    assert(is_isqrt(n, isqrt(n)));
    lemma_isqrt_unique(n, s, isqrt(n));
}

/// Every non-negative integer has an integer square root.
pub proof fn lemma_isqrt_exists(n: int)
    requires
        n >= 0,
    ensures
        is_isqrt(n, isqrt(n)),
    decreases n,
{
    if n == 0 {
        assert(is_isqrt(0, 0));
    } else {
        lemma_isqrt_exists(n - 1);
        let s = isqrt(n - 1);
        if (s + 1) * (s + 1) <= n {
            assert((s + 1) * (s + 1) <= n < (s + 2) * (s + 2)) by (nonlinear_arith)
                requires
                    (s + 1) * (s + 1) <= n,
                    n - 1 < (s + 1) * (s + 1),
                    0 <= s,
            ;
            assert(is_isqrt(n, s + 1));
        } else {
            assert(is_isqrt(n, s));
        }
    }
}

/// The integer square root of a non-negative `n`, the largest `s` with `s * s <= n`, as
/// `i32::isqrt` computes it, found by bisection.
pub(crate) fn isqrt_i32(n: i32) -> (s: i32)
    requires
        n >= 0,
    ensures
        is_isqrt(n as int, s as int),
{
    let mut lo: i32 = 0;
    let mut hi: i32 = 46341;
    assert(i32::MAX < 46341 * 46341);
    while hi - lo > 1
        invariant
            0 <= lo < hi <= 46341,
            lo * lo <= n,
            n < hi * hi,
        decreases hi - lo,
    {
        let mid = lo + (hi - lo) / 2;
        assert(mid * mid <= 46340 * 46340) by (nonlinear_arith)
            requires
                0 <= mid <= 46340,
        ;
        if mid * mid <= n {
            lo = mid;
        } else {
            hi = mid;
        }
    }
    lo
}

/// The larger of an integer and zero.
pub open spec fn clamp_low(v: int) -> int {
    if v > 0 {
        v
    } else {
        0
    }
}

/// Whether row `dy` (from `-r` to `r`) of a filled circle of radius `r` centred at `(cx, cy)`
/// paints the flat index `k`: it spans `cx - s` up to, not including, `cx + s` on row `cy + dy`,
/// where `s` is the integer square root of `r * r - dy * dy`, both ends clamped at zero.
pub open spec fn circle_row_hit(w: int, h: int, cx: int, cy: int, r: int, dy: int, k: int) -> bool {
    let s = isqrt(r * r - dy * dy);
    segment_covers(w, h, i32_index(cy + dy), clamp_low(cx - s), clamp_low(cx + s), k)
}

/// Whether one of the rows `-r <= dy < upto` of a filled circle paints `k`.
pub open spec fn circle_fill_covers_upto(
    w: int,
    h: int,
    cx: int,
    cy: int,
    r: int,
    upto: int,
    k: int,
) -> bool {
    exists|dy: int| -r <= dy < upto && #[trigger] circle_row_hit(w, h, cx, cy, r, dy, k)
}

/// Whether `draw_circle_fill` with centre `(cx, cy)` (as `i32`) and radius `r` paints `k`.
pub open spec fn circle_fill_covers(w: int, h: int, cx: int, cy: int, r: int, k: int) -> bool {
    circle_fill_covers_upto(w, h, cx, cy, r, r + 1, k)
}

/// `v` reduced modulo `usize::MAX + 1`: the value that wrapping `usize` arithmetic yields.
pub open spec fn wrap_usize(v: int) -> int {
    v % (usize::MAX + 1)
}

/// Wrapping `usize` subtraction yields the difference reduced modulo `usize::MAX + 1`.
pub proof fn lemma_wrapping_sub(x: usize, y: usize)
    ensures
        vstd::wrapping::usize_specs::wrapping_sub(x, y) == wrap_usize(x - y),
{
    let m = usize::MAX + 1;
    if x - y < 0 {
        lemma_mod_add_multiples_vanish(x - y, m);
        lemma_small_mod((m + (x - y)) as nat, m as nat);
    } else {
        lemma_small_mod((x - y) as nat, m as nat);
    }
}

/// Wrapping `usize` addition yields the sum reduced modulo `usize::MAX + 1`.
pub proof fn lemma_wrapping_add(x: usize, y: usize)
    ensures
        vstd::wrapping::usize_specs::wrapping_add(x, y) == wrap_usize(x + y),
{
    let m = usize::MAX + 1;
    if x + y > usize::MAX {
        lemma_mod_add_multiples_vanish(x + y - m, m);
        lemma_small_mod((x + y - m) as nat, m as nat);
    } else {
        lemma_small_mod((x + y) as nat, m as nat);
    }
}

/// Reducing before adding gives the same residue as reducing after.
pub proof fn lemma_wrap_add(v: int, t: int)
    ensures
        wrap_usize(wrap_usize(v) + t) == wrap_usize(v + t),
{
    lemma_add_mod_noop_right(t, v, usize::MAX + 1);
}

/// The midpoint circle algorithm's state `(cx, cy, p)` after `i` steps for radius `r`: it starts
/// at `(r, 0, 1 - r)`; each step moves `cx` one left when `p > 0`, moves `cy` one up, and adds
/// `1 - 2 * cx + 2 * cy` (when `p > 0`) or `1 + 2 * cy` to `p`, with the new `cx` and `cy`.
pub open spec fn stroke_state(r: int, i: nat) -> (int, int, int)
    decreases i,
{
    if i == 0 {
        (r, 0, 1 - r)
    } else {
        let s = stroke_state(r, (i - 1) as nat);
        let cx = if s.2 > 0 {
            s.0 - 1
        } else {
            s.0
        };
        let cy = s.1 + 1;
        let p = if s.2 > 0 {
            s.2 + (1 - 2 * cx + 2 * cy)
        } else {
            s.2 + (1 + 2 * cy)
        };
        (cx, cy, p)
    }
}

/// Whether step `i` runs: the algorithm stops once `cx < cy`.
pub open spec fn stroke_runs(r: int, i: nat) -> bool {
    stroke_state(r, i).0 >= stroke_state(r, i).1
}

/// Whether step `i` of the midpoint circle algorithm computes every value within `i32`.
pub open spec fn stroke_step_fits(r: int, i: nat) -> bool {
    let s = stroke_state(r, i);
    let n = stroke_state(r, (i + 1) as nat);
    &&& in_i32(s.0 + r)
    &&& in_i32(s.1 + r)
    &&& in_i32(s.1 + 1)
    &&& if s.2 > 0 {
        &&& in_i32(2 * n.0)
        &&& in_i32(1 - 2 * n.0)
        &&& in_i32(2 * n.1)
        &&& in_i32(1 - 2 * n.0 + 2 * n.1)
        &&& in_i32(n.2)
    } else {
        &&& in_i32(2 * n.1)
        &&& in_i32(1 + 2 * n.1)
        &&& in_i32(n.2)
    }
}

/// Whether `draw_circle_stroke` with radius `r` (as `i32`) computes every value within `i32`.
pub open spec fn stroke_fits(r: int) -> bool {
    &&& in_i32(1 - r)
    &&& forall|i: nat| #[trigger] stroke_runs(r, i) ==> stroke_step_fits(r, i)
}

/// Whether the two pixels that one octant pair `(j, kk)` mirrors `(cx, cy)` to around `(x, y)`,
/// namely `(x + j * cx, y + kk * cy)` and `(x + kk * cy, y + j * cx)` in wrapping `usize`
/// arithmetic, include the flat index `k`.
pub open spec fn stroke_pair_hit(w: int, h: int, x: int, y: int, cx: int, cy: int, j: int, kk: int, k: int) -> bool {
    ||| point_covers(w, h, wrap_usize(x + j * cx), wrap_usize(y + kk * cy), k)
    ||| point_covers(w, h, wrap_usize(x + kk * cy), wrap_usize(y + j * cx), k)
}

/// Whether the eight mirror images of the point `(cx, cy)` around `(x, y)` include `k`.
pub open spec fn stroke_octants_hit(w: int, h: int, x: int, y: int, cx: int, cy: int, k: int) -> bool {
    ||| stroke_pair_hit(w, h, x, y, cx, cy, 1, 1, k)
    ||| stroke_pair_hit(w, h, x, y, cx, cy, 1, -1, k)
    ||| stroke_pair_hit(w, h, x, y, cx, cy, -1, 1, k)
    ||| stroke_pair_hit(w, h, x, y, cx, cy, -1, -1, k)
}

/// Whether step `i` of the circle outline around `(x, y)` with radius `r` runs and paints `k`.
pub open spec fn stroke_hit(w: int, h: int, x: int, y: int, r: int, i: int, k: int) -> bool {
    &&& i >= 0
    &&& stroke_runs(r, i as nat)
    &&& stroke_octants_hit(w, h, x, y, stroke_state(r, i as nat).0, stroke_state(r, i as nat).1, k)
}

/// Whether one of the first `n` steps of the circle outline paints `k`.
pub open spec fn stroke_covers_upto(w: int, h: int, x: int, y: int, r: int, n: int, k: int) -> bool {
    exists|i: int| 0 <= i < n && #[trigger] stroke_hit(w, h, x, y, r, i, k)
}

/// Whether `draw_circle_stroke` around `(x, y)` with radius `r` paints `k`.
pub open spec fn stroke_covers(w: int, h: int, x: int, y: int, r: int, k: int) -> bool {
    exists|i: int| #[trigger] stroke_hit(w, h, x, y, r, i, k)
}

/// After `i` steps, `cy == i` and `cx` has not grown past `r`.
pub proof fn lemma_stroke_state_shape(r: int, i: nat)
    ensures
        stroke_state(r, i).1 == i,
        stroke_state(r, i).0 <= r,
        stroke_state(r, i).0 >= r - i,
    decreases i,
{
    if i > 0 {
        lemma_stroke_state_shape(r, (i - 1) as nat);
    }
}

/// The decision value of the midpoint circle algorithm is `cx^2 + cy^2 - r^2 - cx + 2 * cy + 1`.
pub proof fn lemma_stroke_decision(r: int, i: nat)
    ensures
        ({
            let s = stroke_state(r, i);
            s.2 == s.0 * s.0 + s.1 * s.1 - r * r - s.0 + 2 * s.1 + 1
        }),
    decreases i,
{
    if i == 0 {
        assert(r * r - r * r == 0);
    } else {
        lemma_stroke_decision(r, (i - 1) as nat);
        let s = stroke_state(r, (i - 1) as nat);
        let n = stroke_state(r, i);
        if s.2 > 0 {
            assert(n.0 * n.0 + n.1 * n.1 - n.0 + 2 * n.1 == s.0 * s.0 + s.1 * s.1 - s.0 + 2 * s.1 + (1
                - 2 * n.0 + 2 * n.1)) by (nonlinear_arith)
                requires
                    n.0 == s.0 - 1,
                    n.1 == s.1 + 1,
            ;
        } else {
            assert(n.0 * n.0 + n.1 * n.1 - n.0 + 2 * n.1 == s.0 * s.0 + s.1 * s.1 - s.0 + 2 * s.1 + (1
                + 2 * n.1)) by (nonlinear_arith)
                requires
                    n.0 == s.0,
                    n.1 == s.1 + 1,
            ;
        }
    }
}

/// The midpoint rule: from `(cx, cy)` the algorithm moves `cx` one step in exactly when the
/// midpoint `(cx - 1/2, cy + 1)` between its two candidate pixels lies farther than
/// `sqrt(r^2 + 1/4)` from the centre, that is when `(2cx - 1)^2 + (2cy + 2)^2 > 4r^2 + 1`.
pub proof fn lemma_stroke_midpoint_rule(r: int, i: nat)
    ensures
        ({
            let s = stroke_state(r, i);
            (s.2 > 0) == ((2 * s.0 - 1) * (2 * s.0 - 1) + (2 * s.1 + 2) * (2 * s.1 + 2) > 4 * r * r
                + 1)
        }),
{
    lemma_stroke_decision(r, i);
    let s = stroke_state(r, i);
    assert((2 * s.0 - 1) * (2 * s.0 - 1) + (2 * s.1 + 2) * (2 * s.1 + 2) - 4 * r * r == 4 * (s.0
        * s.0 + s.1 * s.1 - r * r - s.0 + 2 * s.1 + 1) + 1) by (nonlinear_arith);
}

/// The midpoint circle algorithm in closed form: at step `i` (row `cy == i`) the column `cx`
/// it paints is `sqrt(r^2 - i^2 + 1/4)` rounded to the nearest integer (an exact half rounding
/// up), that is `(2cx - 1)^2 <= 4(r^2 - i^2) + 1 < (2cx + 1)^2`; the upper inequality holds at
/// every step, the lower one at every step that runs.
pub proof fn lemma_stroke_closed_form(r: int, i: nat)
    requires
        r > 0,
    ensures
        ({
            let c = stroke_state(r, i).0;
            &&& 4 * r * r + 1 < (2 * c + 1) * (2 * c + 1) + 4 * i * i
            &&& stroke_runs(r, i) ==> (2 * c - 1) * (2 * c - 1) + 4 * i * i <= 4 * r * r + 1
        }),
    decreases i,
{
    lemma_stroke_state_shape(r, i);
    if i == 0 {
        assert(4 * r * r + 1 < (2 * r + 1) * (2 * r + 1) && (2 * r - 1) * (2 * r - 1) <= 4 * r * r
            + 1) by (nonlinear_arith)
            requires
                r > 0,
        ;
    } else {
        let j = (i - 1) as nat;
        lemma_stroke_closed_form(r, j);
        lemma_stroke_midpoint_rule(r, j);
        lemma_stroke_state_shape(r, j);
        let st = stroke_state(r, j);
        let nx = stroke_state(r, i);
        let c = st.0;
        assert(2 * st.1 + 2 == 2 * i);
        if st.2 > 0 {
            assert(nx.0 == c - 1);
            assert((2 * nx.0 + 1) * (2 * nx.0 + 1) == (2 * c - 1) * (2 * c - 1)) by (nonlinear_arith)
                requires
                    nx.0 == c - 1,
            ;
            assert((2 * i) * (2 * i) == 4 * i * i) by (nonlinear_arith);
            if stroke_runs(r, i) {
                assert(stroke_runs(r, j));
                assert((2 * nx.0 - 1) * (2 * nx.0 - 1) + 4 * i * i <= (2 * c - 1) * (2 * c - 1) + 4
                    * j * j) by (nonlinear_arith)
                    requires
                        nx.0 == c - 1,
                        c >= i + 1,
                        i == j + 1,
                ;
            }
        } else {
            assert(nx.0 == c);
            assert((2 * i) * (2 * i) == 4 * i * i) by (nonlinear_arith);
            assert(4 * j * j <= 4 * i * i) by (nonlinear_arith)
                requires
                    0 <= j,
                    i == j + 1,
            ;
        }
    }
}

/// Once the algorithm stops it stays stopped: `cx - cy` never grows.
pub proof fn lemma_stroke_stops(r: int, i: nat, j: nat)
    requires
        i <= j,
        !stroke_runs(r, i),
    ensures
        !stroke_runs(r, j),
    decreases j - i,
{
    if i < j {
        lemma_stroke_state_shape(r, i);
        lemma_stroke_state_shape(r, (i + 1) as nat);
        assert(!stroke_runs(r, (i + 1) as nat));
        lemma_stroke_stops(r, (i + 1) as nat, j);
    }
}

/// The number of unit moves the walk's minor coordinate has made after `i` steps.
pub open spec fn walk_moves(a0: int, b0: int, a1: int, b1: int, i: nat) -> int {
    (walk_state(a0, b0, a1, b1, i).0 - b0) * walk_dir(b0, b1)
}

/// The decision value after `i` steps is `2 * |b1 - b0| * (i + 1) - (a1 - a0)` minus
/// `2 * (a1 - a0)` for every move made so far.
pub proof fn lemma_walk_decision(a0: int, b0: int, a1: int, b1: int, i: nat)
    ensures
        walk_state(a0, b0, a1, b1, i).1 == 2 * abs_int(b1 - b0) * (i + 1) - (a1 - a0) - 2 * (a1
            - a0) * walk_moves(a0, b0, a1, b1, i),
    decreases i,
{
    let da = a1 - a0;
    let db = abs_int(b1 - b0);
    let dir = walk_dir(b0, b1);
    if i == 0 {
        assert(walk_moves(a0, b0, a1, b1, i) == 0) by (nonlinear_arith)
            requires
                walk_moves(a0, b0, a1, b1, i) == (b0 - b0) * dir,
        ;
        assert(2 * db * (i + 1) == 2 * db) by (nonlinear_arith)
            requires
                i == 0,
        ;
    } else {
        let j = (i - 1) as nat;
        lemma_walk_decision(a0, b0, a1, b1, j);
        let prev = walk_state(a0, b0, a1, b1, j);
        let n = walk_moves(a0, b0, a1, b1, j);
        let cur = walk_state(a0, b0, a1, b1, i);
        assert(dir * dir == 1);
        if prev.1 > 0 {
            assert(cur.0 == prev.0 + dir);
            assert((cur.0 - b0) * dir == (prev.0 - b0) * dir + dir * dir) by (nonlinear_arith)
                requires
                    cur.0 == prev.0 + dir,
            ;
            assert(2 * db * (i + 1) - da - 2 * da * (n + 1) == 2 * db * (j + 1) - da - 2 * da * n + 2
                * (db - da)) by (nonlinear_arith)
                requires
                    i == j + 1,
            ;
        } else {
            assert(2 * db * (i + 1) - da - 2 * da * n == 2 * db * (j + 1) - da - 2 * da * n + 2 * db)
                by (nonlinear_arith)
                requires
                    i == j + 1,
            ;
        }
    }
}

/// For a shallow walk (`|b1 - b0| <= a1 - a0`) the decision value stays within
/// `[-(a1 - a0), a1 - a0]` once shifted by `2 * |b1 - b0| - (a1 - a0)`.
pub proof fn lemma_walk_band(a0: int, b0: int, a1: int, b1: int, i: nat)
    requires
        abs_int(b1 - b0) <= a1 - a0,
    ensures
        -(a1 - a0) <= walk_state(a0, b0, a1, b1, i).1 - 2 * abs_int(b1 - b0) + (a1 - a0) <= a1 - a0,
    decreases i,
{
    if i > 0 {
        lemma_walk_band(a0, b0, a1, b1, (i - 1) as nat);
    }
}

/// For a shallow walk of positive length the shifted decision value never falls to
/// `-(a1 - a0)`: the walk's error stays in `(-(a1 - a0), a1 - a0]`.
pub proof fn lemma_walk_band_strict(a0: int, b0: int, a1: int, b1: int, i: nat)
    requires
        abs_int(b1 - b0) <= a1 - a0,
        a0 < a1,
    ensures
        -(a1 - a0) < walk_state(a0, b0, a1, b1, i).1 - 2 * abs_int(b1 - b0) + (a1 - a0),
    decreases i,
{
    if i > 0 {
        lemma_walk_band_strict(a0, b0, a1, b1, (i - 1) as nat);
    }
}

/// Bresenham's walk in closed form: after `i` steps of a shallow walk of positive length the
/// minor coordinate has moved `i * |b1 - b0| / (a1 - a0)` units towards `b1`, rounded to the
/// nearest integer, an exact half rounding back towards `b0`.
pub proof fn lemma_walk_closed_form(a0: int, b0: int, a1: int, b1: int, i: nat)
    requires
        abs_int(b1 - b0) <= a1 - a0,
        a0 < a1,
    ensures
        walk_state(a0, b0, a1, b1, i).0 == b0 + walk_dir(b0, b1) * ((2 * abs_int(b1 - b0) * i + (
        a1 - a0) - 1) / (2 * (a1 - a0))),
{
    let da = a1 - a0;
    let db = abs_int(b1 - b0);
    let dir = walk_dir(b0, b1);
    let st = walk_state(a0, b0, a1, b1, i);
    let mv = walk_moves(a0, b0, a1, b1, i);
    lemma_walk_band(a0, b0, a1, b1, i);
    lemma_walk_band_strict(a0, b0, a1, b1, i);
    lemma_walk_decision(a0, b0, a1, b1, i);
    assert(2 * db * (i + 1) == 2 * db * i + 2 * db) by (nonlinear_arith);
    let num = 2 * db * i + da - 1;
    assert(mv == num / (2 * da)) by (nonlinear_arith)
        requires
            da > 0,
            -da < 2 * db * i - 2 * da * mv <= da,
            num == 2 * db * i + da - 1,
    ;
    assert(st.0 - b0 == mv * dir) by (nonlinear_arith)
        requires
            mv == (st.0 - b0) * dir,
            dir == 1 || dir == -1,
    ;
}

/// The minor coordinate at step `i` of a walk along its longer axis from `(a0, b0)` to
/// `(a1, b1)`: `b0` moved `i * |b1 - b0| / (a1 - a0)` units towards `b1`, rounded to the
/// nearest integer, an exact half rounding back towards `b0`.
pub open spec fn rounded_minor(a0: int, b0: int, a1: int, b1: int, i: int) -> int {
    if a1 == a0 {
        b0
    } else {
        b0 + walk_dir(b0, b1) * ((2 * abs_int(b1 - b0) * i + (a1 - a0) - 1) / (2 * (a1 - a0)))
    }
}

/// At every step of a walk along its longer axis the walk's minor coordinate is the rounded one.
pub proof fn lemma_walk_state_is_rounded(a0: int, b0: int, a1: int, b1: int, i: int)
    requires
        a0 <= a1,
        abs_int(b1 - b0) <= a1 - a0,
        0 <= i <= a1 - a0,
    ensures
        walk_state(a0, b0, a1, b1, i as nat).0 == rounded_minor(a0, b0, a1, b1, i),
{
    if a0 < a1 {
        lemma_walk_closed_form(a0, b0, a1, b1, i as nat);
    }
}

/// A walk as `draw_line_low` and `draw_line_high` run it paints exactly one pixel for each major
/// coordinate `a0 + i` with `0 <= i <= a1 - a0` (when it lies in the buffer), the one at the
/// rounded minor coordinate, and nothing else; a steep walk's major coordinate is the row.
pub proof fn lemma_walk_paints_rounded_line(
    w: int,
    h: int,
    a0: int,
    b0: int,
    a1: int,
    b1: int,
    steep: bool,
    k: int,
)
    requires
        a0 <= a1,
        abs_int(b1 - b0) <= a1 - a0,
    ensures
        walk_covers(w, h, a0, b0, a1, b1, steep, k) <==> exists|i: int|
            #![trigger rounded_minor(a0, b0, a1, b1, i)]
            0 <= i <= a1 - a0 && if steep {
                point_covers(w, h, i32_index(rounded_minor(a0, b0, a1, b1, i)), i32_index(a0 + i), k)
            } else {
                point_covers(w, h, i32_index(a0 + i), i32_index(rounded_minor(a0, b0, a1, b1, i)), k)
            },
{
    if walk_covers(w, h, a0, b0, a1, b1, steep, k) {
        let i = choose|i: int| 0 <= i < a1 - a0 + 1 && #[trigger] walk_hit(w, h, a0, b0, a1, b1, steep, i, k);
        lemma_walk_state_is_rounded(a0, b0, a1, b1, i);
        assert(rounded_minor(a0, b0, a1, b1, i) == walk_state(a0, b0, a1, b1, i as nat).0);
    }
    if exists|i: int|
        #![trigger rounded_minor(a0, b0, a1, b1, i)]
        0 <= i <= a1 - a0 && if steep {
            point_covers(w, h, i32_index(rounded_minor(a0, b0, a1, b1, i)), i32_index(a0 + i), k)
        } else {
            point_covers(w, h, i32_index(a0 + i), i32_index(rounded_minor(a0, b0, a1, b1, i)), k)
        } {
        let i = choose|i: int|
            #![trigger rounded_minor(a0, b0, a1, b1, i)]
            0 <= i <= a1 - a0 && if steep {
                point_covers(w, h, i32_index(rounded_minor(a0, b0, a1, b1, i)), i32_index(a0 + i), k)
            } else {
                point_covers(w, h, i32_index(a0 + i), i32_index(rounded_minor(a0, b0, a1, b1, i)), k)
            };
        lemma_walk_state_is_rounded(a0, b0, a1, b1, i);
        assert(walk_hit(w, h, a0, b0, a1, b1, steep, i, k));
    }
}

/// Bresenham's walk stays within half a pixel of the ideal line: after `i` steps of a shallow
/// walk, `|2 * (a1 - a0) * moves - 2 * |b1 - b0| * i| <= a1 - a0`.
pub proof fn lemma_walk_near_line(a0: int, b0: int, a1: int, b1: int, i: nat)
    requires
        abs_int(b1 - b0) <= a1 - a0,
    ensures
        -(a1 - a0) <= 2 * abs_int(b1 - b0) * i - 2 * (a1 - a0) * walk_moves(a0, b0, a1, b1, i)
            <= a1 - a0,
{
    lemma_walk_band(a0, b0, a1, b1, i);
    lemma_walk_decision(a0, b0, a1, b1, i);
    let da = a1 - a0;
    let db = abs_int(b1 - b0);
    assert(2 * db * (i + 1) == 2 * db * i + 2 * db) by (nonlinear_arith);
}

/// A shallow walk ends exactly at its end point: after `a1 - a0` steps the minor coordinate
/// is `b1`.
pub proof fn lemma_walk_reaches_end(a0: int, b0: int, a1: int, b1: int)
    requires
        abs_int(b1 - b0) <= a1 - a0,
    ensures
        walk_state(a0, b0, a1, b1, (a1 - a0) as nat).0 == b1,
{
    let da = a1 - a0;
    let db = abs_int(b1 - b0);
    let dir = walk_dir(b0, b1);
    let n = walk_moves(a0, b0, a1, b1, da as nat);
    lemma_walk_near_line(a0, b0, a1, b1, da as nat);
    if da == 0 {
        assert(db == 0);
        assert(walk_state(a0, b0, a1, b1, 0).0 == b0);
    } else {
        assert(n == db) by (nonlinear_arith)
            requires
                da > 0,
                -da <= 2 * db * da - 2 * da * n <= da,
        ;
        let b = walk_state(a0, b0, a1, b1, da as nat).0;
        assert(b - b0 == n * dir) by (nonlinear_arith)
            requires
                n == (b - b0) * dir,
                dir == 1 || dir == -1,
        ;
    }
}

/// A walk paints its start point (when it lies inside the buffer).
pub proof fn lemma_walk_hits_start(w: int, h: int, a0: int, b0: int, a1: int, b1: int, steep: bool)
    requires
        a0 <= a1,
        in_i32(a0),
        in_i32(b0),
    ensures
        ({
            let (px, py) = if steep {
                (i32_index(b0), i32_index(a0))
            } else {
                (i32_index(a0), i32_index(b0))
            };
            0 <= px < w && 0 <= py < h ==> walk_covers(w, h, a0, b0, a1, b1, steep, flat_index(px, py, w))
        }),
{
    let (px, py) = if steep {
        (i32_index(b0), i32_index(a0))
    } else {
        (i32_index(a0), i32_index(b0))
    };
    if 0 <= px < w && 0 <= py < h {
        assert(walk_hit(w, h, a0, b0, a1, b1, steep, 0, flat_index(px, py, w)));
    }
}

/// A shallow walk paints its end point (when it lies inside the buffer).
pub proof fn lemma_walk_hits_end(w: int, h: int, a0: int, b0: int, a1: int, b1: int, steep: bool)
    requires
        abs_int(b1 - b0) <= a1 - a0,
        in_i32(a1),
        in_i32(b1),
    ensures
        ({
            let (px, py) = if steep {
                (i32_index(b1), i32_index(a1))
            } else {
                (i32_index(a1), i32_index(b1))
            };
            0 <= px < w && 0 <= py < h ==> walk_covers(w, h, a0, b0, a1, b1, steep, flat_index(px, py, w))
        }),
{
    lemma_walk_reaches_end(a0, b0, a1, b1);
    let (px, py) = if steep {
        (i32_index(b1), i32_index(a1))
    } else {
        (i32_index(a1), i32_index(b1))
    };
    if 0 <= px < w && 0 <= py < h {
        assert(a0 + (a1 - a0) == a1);
        assert(walk_hit(w, h, a0, b0, a1, b1, steep, a1 - a0, flat_index(px, py, w)));
    }
}

/// `draw_line` paints both of its end points whenever they lie inside the buffer.
pub proof fn lemma_line_hits_ends(w: int, h: int, x0: int, y0: int, x1: int, y1: int)
    requires
        in_i32(x0),
        in_i32(y0),
        in_i32(x1),
        in_i32(y1),
    ensures
        0 <= i32_index(x0) < w && 0 <= i32_index(y0) < h ==> line_covers(
            w,
            h,
            x0,
            y0,
            x1,
            y1,
            flat_index(i32_index(x0), i32_index(y0), w),
        ),
        0 <= i32_index(x1) < w && 0 <= i32_index(y1) < h ==> line_covers(
            w,
            h,
            x0,
            y0,
            x1,
            y1,
            flat_index(i32_index(x1), i32_index(y1), w),
        ),
{
    if abs_int(y1 - y0) < abs_int(x1 - x0) {
        if x0 > x1 {
            lemma_walk_hits_start(w, h, x1, y1, x0, y0, false);
            lemma_walk_hits_end(w, h, x1, y1, x0, y0, false);
        } else {
            lemma_walk_hits_start(w, h, x0, y0, x1, y1, false);
            lemma_walk_hits_end(w, h, x0, y0, x1, y1, false);
        }
    } else {
        if y0 > y1 {
            lemma_walk_hits_start(w, h, y1, x1, y0, x0, true);
            lemma_walk_hits_end(w, h, y1, x1, y0, x0, true);
        } else {
            lemma_walk_hits_start(w, h, y0, x0, y1, x1, true);
            lemma_walk_hits_end(w, h, y0, x0, y1, x1, true);
        }
    }
}

/// A walk between points whose coordinates lie in `[0, 0x1fff_ffff]` (a quarter of
/// `i32::MAX`), run along its longer axis (`a0 <= a1` and `|b1 - b0| <= a1 - a0`), computes every
/// value within `i32`.
pub proof fn lemma_walk_fits_bounded(a0: int, b0: int, a1: int, b1: int)
    requires
        0 <= a0 <= a1 <= 0x1fff_ffff,
        0 <= b0 <= 0x1fff_ffff,
        0 <= b1 <= 0x1fff_ffff,
        abs_int(b1 - b0) <= a1 - a0,
    ensures
        walk_fits(a0, b0, a1, b1),
{
    let da = a1 - a0;
    let db = abs_int(b1 - b0);
    let dir = walk_dir(b0, b1);
    assert forall|i: nat| i <= a1 - a0 implies #[trigger] walk_step_fits(a0, b0, a1, b1, i) by {
        lemma_walk_band(a0, b0, a1, b1, i);
        lemma_walk_near_line(a0, b0, a1, b1, i);
        let st = walk_state(a0, b0, a1, b1, i);
        let mv = walk_moves(a0, b0, a1, b1, i);
        if da == 0 {
            assert(st.0 == b0);
        } else {
            assert(0 <= mv <= db) by (nonlinear_arith)
                requires
                    da > 0,
                    0 <= i <= da,
                    0 <= db <= da,
                    -da <= 2 * db * i - 2 * da * mv <= da,
            ;
            assert(st.0 - b0 == mv * dir) by (nonlinear_arith)
                requires
                    mv == (st.0 - b0) * dir,
                    dir == 1 || dir == -1,
            ;
        }
        assert(0 <= st.0 <= 0x1fff_ffff);
    }
}

/// A line between points whose coordinates lie in `[0, 0x1fff_ffff]` (a quarter of `i32::MAX`)
/// computes every value within `i32`, so `draw_line` can draw it.
pub proof fn lemma_line_fits_bounded(x0: int, y0: int, x1: int, y1: int)
    requires
        0 <= x0 <= 0x1fff_ffff,
        0 <= y0 <= 0x1fff_ffff,
        0 <= x1 <= 0x1fff_ffff,
        0 <= y1 <= 0x1fff_ffff,
    ensures
        line_fits(x0, y0, x1, y1),
{
    if abs_int(y1 - y0) < abs_int(x1 - x0) {
        if x0 > x1 {
            lemma_walk_fits_bounded(x1, y1, x0, y0);
        } else {
            lemma_walk_fits_bounded(x0, y0, x1, y1);
        }
    } else {
        if y0 > y1 {
            lemma_walk_fits_bounded(y1, x1, y0, x0);
        } else {
            lemma_walk_fits_bounded(y0, x0, y1, x1);
        }
    }
}

/// A line does not depend on its direction: drawn from `(x1, y1)` to `(x0, y0)` it computes
/// within `i32` exactly when drawn the other way does, and paints the same pixels.
pub proof fn lemma_line_symmetric(w: int, h: int, x0: int, y0: int, x1: int, y1: int)
    ensures
        line_fits(x0, y0, x1, y1) == line_fits(x1, y1, x0, y0),
        forall|k: int| #[trigger] line_covers(w, h, x0, y0, x1, y1, k) == line_covers(w, h, x1, y1, x0, y0, k),
{
}

/// The midpoint circle algorithm computes every value within `i32` for any radius up to
/// `30000`.
pub proof fn lemma_stroke_fits_bounded(r: int)
    requires
        0 <= r <= 30000,
    ensures
        stroke_fits(r),
{
    assert forall|i: nat| #[trigger] stroke_runs(r, i) implies stroke_step_fits(r, i) by {
        let st = stroke_state(r, i);
        let n = stroke_state(r, (i + 1) as nat);
        lemma_stroke_state_shape(r, i);
        lemma_stroke_state_shape(r, (i + 1) as nat);
        lemma_stroke_decision(r, (i + 1) as nat);
        assert(0 <= st.1 <= st.0 <= r);
        assert(-1 <= n.0 <= r);
        assert(0 <= n.1 <= r + 1);
        assert(n.0 * n.0 <= 30001 * 30001 && n.1 * n.1 <= 30001 * 30001 && 0 <= r * r <= 30000
            * 30000) by (nonlinear_arith)
            requires
                0 <= r <= 30000,
                -1 <= n.0 <= r,
                0 <= n.1 <= r + 1,
        ;
        assert(n.0 * n.0 >= 0 && n.1 * n.1 >= 0) by (nonlinear_arith);
    }
}

/// Every pixel that row `dy` of `draw_circle_fill` paints lies inside the circle: its column
/// `px` satisfies `(px - cx)^2 + dy^2 <= r^2`.
pub proof fn lemma_circle_fill_inside(w: int, h: int, cx: int, cy: int, r: int, dy: int, px: int)
    requires
        0 <= r,
        -r <= dy <= r,
        0 <= px < w,
        circle_row_hit(w, h, cx, cy, r, dy, flat_index(px, i32_index(cy + dy), w)),
    ensures
        (px - cx) * (px - cx) + dy * dy <= r * r,
{
    let n = r * r - dy * dy;
    assert(dy * dy <= r * r) by (nonlinear_arith)
        requires
            -r <= dy <= r,
    ;
    lemma_isqrt_exists(n);
    let s = isqrt(n);
    let row = i32_index(cy + dy);
    let lo = clamp_low(cx - s);
    let hi = min_int(clamp_low(cx + s), w);
    assert(flat_index(lo, row, w) <= flat_index(px, row, w) < flat_index(hi, row, w));
    assert(lo <= px < hi);
    assert((px - cx) * (px - cx) <= s * s) by (nonlinear_arith)
        requires
            cx - s <= px < cx + s,
            0 <= s,
    ;
}

/// A flat index lies in the part `[lo, hi)` of row `row` of a width-`w` matrix exactly when it
/// is the cell `(px, row)` of a column `lo <= px < hi`.
pub proof fn lemma_flat_in_row_span(w: int, row: int, lo: int, hi: int, px: int, py: int)
    requires
        0 <= lo <= hi <= w,
        0 <= px < w,
        0 <= row,
        0 <= py,
    ensures
        (flat_index(lo, row, w) <= flat_index(px, py, w) < flat_index(hi, row, w)) <==> (py == row
            && lo <= px < hi),
{
    if py < row {
        assert(py * w + w <= row * w) by (nonlinear_arith)
            requires
                py < row,
                w > 0,
        ;
    } else if py > row {
        assert(row * w + w <= py * w) by (nonlinear_arith)
            requires
                py > row,
                w > 0,
        ;
    }
}

/// `draw_circle_fill` paints a disc: on each row `cy + dy` with `|dy| <= r` it paints the
/// columns `px` left of the centre with `(cx - px)^2 + dy^2 <= r^2` and the columns from the
/// centre on with `(px - cx + 1)^2 + dy^2 <= r^2` (each row's span stops just before
/// `cx + isqrt(r^2 - dy^2)`), and it paints nothing on any other row. Stated for circles whose
/// rows all lie at non-negative `i32` coordinates, and pixels inside the buffer.
pub proof fn lemma_circle_fill_disc(w: int, h: int, cx: int, cy: int, r: int, px: int, py: int)
    requires
        0 <= r,
        0 <= cy - r,
        cy + r <= i32::MAX,
        0 <= px < w,
        0 <= py < h,
    ensures
        circle_fill_covers(w, h, cx, cy, r, flat_index(px, py, w)) <==> (-r <= py - cy <= r && if px
            < cx {
            (cx - px) * (cx - px) + (py - cy) * (py - cy) <= r * r
        } else {
            (px - cx + 1) * (px - cx + 1) + (py - cy) * (py - cy) <= r * r
        }),
{
    let k = flat_index(px, py, w);
    if circle_fill_covers(w, h, cx, cy, r, k) {
        let dy = choose|dy: int| -r <= dy < r + 1 && #[trigger] circle_row_hit(w, h, cx, cy, r, dy, k);
        let n = r * r - dy * dy;
        assert(dy * dy <= r * r) by (nonlinear_arith)
            requires
                -r <= dy <= r,
        ;
        lemma_isqrt_exists(n);
        let s = isqrt(n);
        let row = i32_index(cy + dy);
        assert(row == cy + dy);
        let lo = clamp_low(cx - s);
        let hi = min_int(clamp_low(cx + s), w);
        lemma_flat_in_row_span(w, row, lo, hi, px, py);
        assert(py == row && lo <= px < hi);
        if px < cx {
            assert((cx - px) * (cx - px) <= s * s) by (nonlinear_arith)
                requires
                    0 < cx - px <= s,
            ;
        } else {
            assert((px - cx + 1) * (px - cx + 1) <= s * s) by (nonlinear_arith)
                requires
                    0 < px - cx + 1 <= s,
            ;
        }
    }
    let dy = py - cy;
    let cond = if px < cx {
        (cx - px) * (cx - px) + dy * dy <= r * r
    } else {
        (px - cx + 1) * (px - cx + 1) + dy * dy <= r * r
    };
    if -r <= dy <= r && cond {
        let n = r * r - dy * dy;
        assert(dy * dy <= r * r) by (nonlinear_arith)
            requires
                -r <= dy <= r,
        ;
        lemma_isqrt_exists(n);
        let s = isqrt(n);
        let row = i32_index(cy + dy);
        assert(row == py);
        if px < cx {
            assert(cx - px <= s) by (nonlinear_arith)
                requires
                    0 < cx - px,
                    0 <= s,
                    (cx - px) * (cx - px) <= n,
                    n < (s + 1) * (s + 1),
            ;
        } else {
            assert(px - cx + 1 <= s) by (nonlinear_arith)
                requires
                    0 < px - cx + 1,
                    0 <= s,
                    (px - cx + 1) * (px - cx + 1) <= n,
                    n < (s + 1) * (s + 1),
            ;
        }
        let lo = clamp_low(cx - s);
        let hi = min_int(clamp_low(cx + s), w);
        lemma_flat_in_row_span(w, row, lo, hi, px, py);
        assert(circle_row_hit(w, h, cx, cy, r, dy, k));
    }
}

/// Whether `v` lies in the range of `i32`.
fn fits_i32(v: i64) -> (b: bool)
    ensures
        b == in_i32(v as int),
{
    -2147483648i64 <= v && v <= 2147483647i64
}

/// Decides `walk_fits(a0, b0, a1, b1)`: whether Bresenham's walk from `(a0, b0)` to `(a1, b1)`
/// computes every value within `i32`, by running the walk in 64-bit arithmetic.
pub fn walk_fits_exec(a0: i32, b0: i32, a1: i32, b1: i32) -> (ok: bool)
    ensures
        ok == walk_fits(a0 as int, b0 as int, a1 as int, b1 as int),
{
    let ghost (ga0, gb0, ga1, gb1) = (a0 as int, b0 as int, a1 as int, b1 as int);
    let da = a1 as i64 - a0 as i64;
    let dbs = b1 as i64 - b0 as i64;
    if !fits_i32(da) || !fits_i32(dbs) {
        return false;
    }
    let db = if dbs < 0 {
        -dbs
    } else {
        dbs
    };
    if !fits_i32(db) || !fits_i32(2 * db) || !fits_i32(2 * db - da) {
        return false;
    }
    let dir: i64 = if dbs < 0 {
        -1
    } else {
        1
    };
    let mut b = b0 as i64;
    let mut d = 2 * db - da;
    let mut i: i64 = 0;
    while i <= da
        invariant
            ga0 == a0,
            gb0 == b0,
            ga1 == a1,
            gb1 == b1,
            da == ga1 - ga0,
            db == abs_int(gb1 - gb0),
            dir == walk_dir(gb0, gb1),
            in_i32(da as int),
            in_i32(db as int),
            in_i32(2 * db - da),
            0 <= i <= da + 1 || i == 0,
            in_i32(b as int),
            in_i32(d as int),
            (b as int, d as int) == walk_state(ga0, gb0, ga1, gb1, i as nat),
            forall|j: nat| j < i ==> #[trigger] walk_step_fits(ga0, gb0, ga1, gb1, j),
        decreases da - i + 1,
    {
        if d > 0 {
            if !fits_i32(b + dir) || !fits_i32(2 * (db - da)) || !fits_i32(d + 2 * (db - da)) {
                assert(!walk_step_fits(ga0, gb0, ga1, gb1, i as nat));
                return false;
            }
            b = b + dir;
            d = d + 2 * (db - da);
        } else {
            if !fits_i32(d + 2 * db) {
                assert(!walk_step_fits(ga0, gb0, ga1, gb1, i as nat));
                return false;
            }
            d = d + 2 * db;
        }
        assert(walk_step_fits(ga0, gb0, ga1, gb1, i as nat));
        i = i + 1;
    }
    true
}

/// Decides `stroke_fits(r as i32)`: whether the midpoint circle algorithm for radius `r`
/// computes every value within `i32`, by running it in 64-bit arithmetic.
pub fn stroke_fits_exec(r: usize) -> (ok: bool)
    ensures
        ok == stroke_fits(r as i32 as int),
{
    let ghost rr = r as i32 as int;
    let rs = r as i32 as i64;
    if !fits_i32(1 - rs) {
        return false;
    }
    let mut cx = rs;
    let mut cy: i64 = 0;
    let mut p = 1 - rs;
    let ghost mut i: nat = 0;
    while cx >= cy
        invariant
            rr == r as i32 as int,
            rr == rs,
            in_i32(rs as int),
            in_i32(1 - rs),
            (cx as int, cy as int, p as int) == stroke_state(rr, i),
            in_i32(cx as int),
            in_i32(cy as int),
            in_i32(p as int),
            forall|j: nat| j < i && #[trigger] stroke_runs(rr, j) ==> stroke_step_fits(rr, j),
        decreases cx - cy + 2,
    {
        proof {
            lemma_stroke_state_shape(rr, i);
        }
        let positive = p > 0;
        let ncx = if positive {
            cx - 1
        } else {
            cx
        };
        let ncy = cy + 1;
        if !fits_i32(cx + rs) || !fits_i32(cy + rs) || !fits_i32(cy + 1) {
            assert(stroke_runs(rr, i) && !stroke_step_fits(rr, i));
            return false;
        }
        let np = if positive {
            if !fits_i32(2 * ncx) || !fits_i32(1 - 2 * ncx) || !fits_i32(2 * ncy) || !fits_i32(
                1 - 2 * ncx + 2 * ncy,
            ) || !fits_i32(p + (1 - 2 * ncx + 2 * ncy)) {
                assert(stroke_runs(rr, i) && !stroke_step_fits(rr, i));
                return false;
            }
            p + (1 - 2 * ncx + 2 * ncy)
        } else {
            if !fits_i32(2 * ncy) || !fits_i32(1 + 2 * ncy) || !fits_i32(p + (1 + 2 * ncy)) {
                assert(stroke_runs(rr, i) && !stroke_step_fits(rr, i));
                return false;
            }
            p + (1 + 2 * ncy)
        };
        assert(stroke_step_fits(rr, i));
        cx = ncx;
        cy = ncy;
        p = np;
        proof {
            i = i + 1;
        }
    }
    proof {
        assert forall|j: nat| #[trigger] stroke_runs(rr, j) implies stroke_step_fits(rr, j) by {
            if j >= i {
                lemma_stroke_stops(rr, i, j);
            }
        }
    }
    true
}

} // verus!
