use vstd::prelude::*;

use crate::buffer::{
    flat_index, lemma_flat_index_in_bounds, lemma_flat_index_injective, lemma_row_in_bounds, Buffer,
};
use crate::color::Color;
use crate::error::BufferError;
use crate::texture::Texture;

verus! {

/// `s` with every index in `[a, b)` set to `c`.
pub open spec fn fill_range(s: Seq<Color>, a: int, b: int, c: Color) -> Seq<Color> {
    Seq::new(s.len(), |i: int| if a <= i < b { c } else { s[i] })
}

/// `s` with the indices `[a, a + src.len())` overwritten by `src`.
pub open spec fn copy_into(s: Seq<Color>, a: int, src: Seq<Color>) -> Seq<Color> {
    Seq::new(s.len(), |i: int| if a <= i < a + src.len() { src[i - a] } else { s[i] })
}

/// The pixels of a `w` x `h` buffer after `set_pixel_range_from_value(x, y, length, c)`: from
/// the flat index of `(x, y)` on, `length` pixels become `c`, cut at the end of the buffer;
/// nothing changes when `(x, y)` lies outside the buffer.
pub open spec fn run_filled(p: Seq<Color>, w: int, h: int, x: int, y: int, length: int, c: Color) -> Seq<Color> {
    if x < w && y < h {
        let start = flat_index(x, y, w);
        fill_range(p, start, min_int(start + length, p.len() as int), c)
    } else {
        p
    }
}

/// The pixels of a `w` x `h` buffer after `set_pixel_range_from_array(x, y, colors)`: from the
/// flat index of `(x, y)` on, the pixels take the colours in order, as many as fit before the
/// end of the buffer; nothing changes when `(x, y)` lies outside the buffer.
pub open spec fn run_copied(p: Seq<Color>, w: int, h: int, x: int, y: int, colors: Seq<Color>) -> Seq<Color> {
    if x < w && y < h {
        let start = flat_index(x, y, w);
        let n = min_int(colors.len() as int, p.len() - start);
        copy_into(p, start, colors.subrange(0, n))
    } else {
        p
    }
}

/// The pixels of a `w` x `h` buffer after `set_pixels_between_points(y, x1, x2, c)`: the pixels
/// of row `y` from column `x1` up to, not including, column `x2` (cut at the row's end) become
/// `c`; nothing changes when `y` is out of bounds, `x1` past the row's end, or `x1 > x2`.
pub open spec fn segment_filled(p: Seq<Color>, w: int, h: int, y: int, x1: int, x2: int, c: Color) -> Seq<Color> {
    if y < h && x1 <= w && x1 <= x2 {
        fill_range(p, flat_index(x1, y, w), flat_index(min_int(x2, w), y, w), c)
    } else {
        p
    }
}

/// `set_pixel_range_from_value(x, y, length, c)` on a well-formed `w` x `h` buffer gives every
/// pixel whose flat index `k` satisfies `y * w + x <= k < y * w + x + length` the colour `c`
/// and keeps every other pixel, when `(x, y)` lies in the buffer; otherwise it keeps them all.
pub proof fn lemma_run_filled_pixels(p: Seq<Color>, w: int, h: int, x: int, y: int, length: int, c: Color, k: int)
    requires
        p.len() == w * h,
        0 <= x,
        0 <= y,
        0 <= k < p.len(),
    ensures
        run_filled(p, w, h, x, y, length, c).len() == p.len(),
        run_filled(p, w, h, x, y, length, c)[k] == if x < w && y < h && y * w + x <= k < y * w + x
            + length {
            c
        } else {
            p[k]
        },
{
}

/// `set_pixel_range_from_array(x, y, colors)` on a well-formed `w` x `h` buffer gives the pixel
/// at flat index `k` the colour `colors[k - (y * w + x)]` when `y * w + x <= k` and that colour
/// exists, and keeps every other pixel, when `(x, y)` lies in the buffer; otherwise it keeps
/// them all.
pub proof fn lemma_run_copied_pixels(p: Seq<Color>, w: int, h: int, x: int, y: int, colors: Seq<Color>, k: int)
    requires
        p.len() == w * h,
        0 <= x,
        0 <= y,
        0 <= k < p.len(),
    ensures
        run_copied(p, w, h, x, y, colors).len() == p.len(),
        run_copied(p, w, h, x, y, colors)[k] == if x < w && y < h && y * w + x <= k < y * w + x
            + colors.len() {
            colors[k - (y * w + x)]
        } else {
            p[k]
        },
{
    if x < w && y < h {
        crate::buffer::lemma_flat_index_in_bounds(x, y, w, h);
        assert(w * h == h * w) by (nonlinear_arith);
    }
}

/// `set_pixels_between_points(y, x1, x2, c)` on a well-formed `w` x `h` buffer gives the pixel
/// `(px, py)` the colour `c` exactly when it lies on row `y` with `x1 <= px < x2`, and keeps
/// every other pixel.
pub proof fn lemma_segment_filled_pixels(
    p: Seq<Color>,
    w: int,
    h: int,
    y: int,
    x1: int,
    x2: int,
    c: Color,
    px: int,
    py: int,
)
    requires
        p.len() == w * h,
        0 <= y,
        0 <= x1,
        0 <= px < w,
        0 <= py < h,
    ensures
        segment_filled(p, w, h, y, x1, x2, c).len() == p.len(),
        segment_filled(p, w, h, y, x1, x2, c)[flat_index(px, py, w)] == if py == y && x1 <= px
            < x2 {
            c
        } else {
            p[flat_index(px, py, w)]
        },
{
    crate::buffer::lemma_flat_index_in_bounds(px, py, w, h);
    assert(w * h == h * w) by (nonlinear_arith);
    if y < h && x1 <= w && x1 <= x2 {
        crate::raster::lemma_flat_in_row_span(w, y, x1, min_int(x2, w), px, py);
    }
}

/// Whether the mask cell `(dx, dy)` is one that is already stamped after the first `rows` rows
/// and, in row `rows`, the first `cols` cells.
pub open spec fn mask_cell_done(m: Seq<Seq<bool>>, dy: int, dx: int, rows: int, cols: int) -> bool {
    &&& 0 <= dy < m.len()
    &&& 0 <= dx < m[dy].len()
    &&& (dy < rows || (dy == rows && dx < cols))
    &&& m[dy][dx]
}

/// Whether the flat index `k` is stamped by a set mask cell among the first `rows` rows and, in
/// row `rows`, the first `cols` cells, when the mask's top-left corner sits at `(x, y)` of a
/// buffer of width `w`.
pub open spec fn mask_covers_upto(
    m: Seq<Seq<bool>>,
    x: int,
    y: int,
    w: int,
    k: int,
    rows: int,
    cols: int,
) -> bool {
    exists|dy: int, dx: int|
        #![trigger m[dy][dx], flat_index(x + dx, y + dy, w)]
        mask_cell_done(m, dy, dx, rows, cols) && k == flat_index(x + dx, y + dy, w)
}

/// Whether the flat index `k` is stamped by some set cell of the mask.
pub open spec fn mask_covers(m: Seq<Seq<bool>>, x: int, y: int, w: int, k: int) -> bool {
    mask_covers_upto(m, x, y, w, k, m.len() as int, 0)
}

/// `set_pixels_masked(x, y, m)` (and any stamp of a mask `m` with its corner at `(x, y)`), for a
/// mask whose rows all fit in the buffer's width, stamps exactly the pixels under the set cells:
/// `(px, py)` is stamped when `m[py - y][px - x]` is a set cell of the mask, and only then.
pub proof fn lemma_mask_stamps_set_cells(m: Seq<Seq<bool>>, x: int, y: int, w: int, px: int, py: int)
    requires
        0 <= x,
        0 <= y,
        forall|dy: int| 0 <= dy < m.len() ==> x + (#[trigger] m[dy]).len() <= w,
        0 <= px < w,
        0 <= py,
    ensures
        mask_covers(m, x, y, w, flat_index(px, py, w)) <==> (0 <= py - y < m.len() && 0 <= px - x
            < m[py - y].len() && m[py - y][px - x]),
{
    let k = flat_index(px, py, w);
    if mask_covers(m, x, y, w, k) {
        let (dy, dx) = choose|dy: int, dx: int|
            #![trigger m[dy][dx], flat_index(x + dx, y + dy, w)]
            mask_cell_done(m, dy, dx, m.len() as int, 0) && k == flat_index(x + dx, y + dy, w);
        assert(x + m[dy].len() <= w);
        crate::buffer::lemma_flat_index_injective(w, x + dx, y + dy, px, py);
    }
    if 0 <= py - y < m.len() && 0 <= px - x < m[py - y].len() && m[py - y][px - x] {
        let dy = py - y;
        let dx = px - x;
        assert(mask_cell_done(m, dy, dx, m.len() as int, 0));
        assert(k == flat_index(x + dx, y + dy, w));
    }
}

/// Sets every element of the range `[start, end)` of `v` to `color`.
pub(crate) fn fill_vec(v: &mut Vec<Color>, start: usize, end: usize, color: Color)
    requires
        start <= end <= old(v)@.len(),
    ensures
        final(v)@ == fill_range(old(v)@, start as int, end as int, color),
{
    let mut i = start;
    while i < end
        invariant
            start <= i <= end <= v@.len(),
            v@ == fill_range(old(v)@, start as int, i as int, color),
        decreases end - i,
    {
        v.set(i, color);
        i = i + 1;
    }
}

/// Copies `src` over the elements of `v` starting at `start`.
pub(crate) fn copy_vec(v: &mut Vec<Color>, start: usize, src: &[Color])
    requires
        start + src@.len() <= old(v)@.len(),
    ensures
        final(v)@ == copy_into(old(v)@, start as int, src@),
{
    let mut i: usize = 0;
    while i < src.len()
        invariant
            start + src@.len() <= v@.len(),
            0 <= i <= src@.len(),
            v@.len() == old(v)@.len(),
            v@ == copy_into(old(v)@, start as int, src@.subrange(0, i as int)),
        decreases src@.len() - i,
    {
        assert(v.len() == v@.len());
        v.set(start + i, src[i]);
        i = i + 1;
    }
    assert(src@.subrange(0, src@.len() as int) =~= src@);
}

/// Width of the region that `blit` copies: what fits of `ow` columns right of column `x`.
pub open spec fn blit_width(sw: int, ow: int, x: int) -> int {
    min_int(ow, sw - x)
}

/// Whether `blit` at `(x, y)` writes the pixel `(px, py)` of a `sw` x `sh` target from an
/// `ow` x `oh` source, having copied the first `rows` rows and, in row `rows`, `cols` columns.
pub open spec fn blit_done(
    sw: int,
    sh: int,
    ow: int,
    oh: int,
    x: int,
    y: int,
    px: int,
    py: int,
    rows: int,
    cols: int,
) -> bool {
    &&& x < sw
    &&& y < sh
    &&& x <= px < x + blit_width(sw, ow, x)
    &&& y <= py < y + min_int(oh, sh - y)
    &&& (py - y < rows || (py - y == rows && px - x < cols))
}

/// Whether `blit` at `(x, y)` writes the pixel `(px, py)`.
pub open spec fn blit_covers(sw: int, sh: int, ow: int, oh: int, x: int, y: int, px: int, py: int) -> bool {
    blit_done(sw, sh, ow, oh, x, y, px, py, oh, 0)
}

/// Blitting a buffer of the same size at the origin replaces every pixel by the source's.
pub proof fn lemma_blit_same_size_copies_all(sw: int, sh: int, px: int, py: int)
    requires
        0 <= px < sw,
        0 <= py < sh,
    ensures
        blit_covers(sw, sh, sw, sh, 0, 0, px, py),
{
}

/// `blit` and `blit_texture` at `(x, y)` copy exactly the source pixels that land inside the
/// target: the target pixel `(px, py)` receives a source pixel if and only if it lies both in
/// the `ow` x `oh` source rectangle placed with its corner at `(x, y)` and in the `sw` x `sh`
/// target. A source that overhangs the right or the bottom edge is clipped there, not dropped.
pub proof fn lemma_blit_copies_overlap(sw: int, sh: int, ow: int, oh: int, x: int, y: int, px: int, py: int)
    requires
        0 <= x,
        0 <= y,
        0 <= ow,
        0 <= oh,
    ensures
        blit_covers(sw, sh, ow, oh, x, y, px, py) <==> (x <= px < x + ow && px < sw && y <= py < y
            + oh && py < sh),
{
}

/// The smaller of two integers.
pub open spec fn min_int(a: int, b: int) -> int {
    if a <= b {
        a
    } else {
        b
    }
}

/// Whether `b` is a well-formed pixel buffer with the width and height of `a`.
pub open spec fn same_shape(a: PixelBuffer, b: PixelBuffer) -> bool {
    &&& b.wf()
    &&& b.width() == a.width()
    &&& b.height() == a.height()
}

/// A pixel buffer keeps its dimensions, and its storage keeps matching them, whatever is drawn
/// into it: along any run of buffers in which each has the shape of the one before (as every
/// drawing operation ensures of the buffer it draws into), the last has the shape and the pixel
/// count of the first.
pub proof fn lemma_shape_kept(run: Seq<PixelBuffer>)
    requires
        run.len() > 0,
        run[0].wf(),
        forall|i: int| 0 <= i < run.len() - 1 ==> same_shape(#[trigger] run[i], run[i + 1]),
    ensures
        same_shape(run[0], run.last()),
        run.last().pixels().len() == run[0].pixels().len(),
    decreases run.len(),
{
    if run.len() > 1 {
        let front = run.drop_last();
        assert forall|i: int| 0 <= i < front.len() - 1 implies same_shape(
            #[trigger] front[i],
            front[i + 1],
        ) by {
            assert(same_shape(run[i], run[i + 1]));
        }
        lemma_shape_kept(front);
        assert(same_shape(run[run.len() - 2], run[run.len() - 1]));
    }
}

/// A 2D buffer of colour pixels, the drawing surface of windows and textures.
#[derive(Clone, Debug)]
pub struct PixelBuffer {
    pub buff: Buffer<Color>,
}

impl PixelBuffer {
    /// The dimensions agree with the storage.
    pub open spec fn wf(&self) -> bool {
        self.buff.wf()
    }

    /// Width of the buffer.
    pub open spec fn width(&self) -> int {
        self.buff.w as int
    }

    /// Height of the buffer.
    pub open spec fn height(&self) -> int {
        self.buff.h as int
    }

    /// The flat pixel sequence.
    pub open spec fn pixels(&self) -> Seq<Color> {
        self.buff.buff@
    }

    /// A zero-initialised (black) `w` x `h` buffer.
    pub fn new(w: usize, h: usize) -> (p: Self)
        requires
            w * h <= usize::MAX,
        ensures
            p.wf(),
            p.width() == w,
            p.height() == h,
            forall|i: int| 0 <= i < p.pixels().len() ==> (#[trigger] p.pixels()[i])@ == 0,
    {
        PixelBuffer { buff: Buffer::new(w, h) }
    }

    /// Sets the pixel `(x, y)` to `color`; does nothing when the coordinates are out of bounds.
    pub fn set_pixel(&mut self, x: usize, y: usize, color: Color)
        requires
            old(self).wf(),
        ensures
            same_shape(*old(self), *final(self)),
            final(self).wf(),
            final(self).buff.w == old(self).buff.w,
            final(self).buff.h == old(self).buff.h,
            final(self).pixels().len() == old(self).pixels().len(),
            final(self).pixels() == if x < old(self).width() && y < old(self).height() {
                old(self).pixels().update(flat_index(x as int, y as int, old(self).width()), color)
            } else {
                old(self).pixels()
            },
    {
        proof {
            if x < self.buff.w && y < self.buff.h {
                lemma_flat_index_in_bounds(x as int, y as int, self.buff.w as int, self.buff.h as int);
            }
        }
        self.buff.set(x, y, color);
    }

    /// Fills `length` consecutive pixels of the flat buffer starting at `(x, y)` with `color`.
    ///
    /// A run longer than the rest of the row continues into the following rows; it is cut
    /// at the end of the buffer. Nothing happens when `(x, y)` is out of bounds.
    pub fn set_pixel_range_from_value(&mut self, x: usize, y: usize, length: usize, color: Color)
        requires
            old(self).wf(),
        ensures
            same_shape(*old(self), *final(self)),
            final(self).wf(),
            final(self).buff.w == old(self).buff.w,
            final(self).buff.h == old(self).buff.h,
            final(self).pixels().len() == old(self).pixels().len(),
            final(self).pixels() == run_filled(
                old(self).pixels(),
                old(self).width(),
                old(self).height(),
                x as int,
                y as int,
                length as int,
                color,
            ),
    {
        if y >= self.buff.h || x >= self.buff.w {
            return;
        }
        proof {
            lemma_flat_index_in_bounds(x as int, y as int, self.buff.w as int, self.buff.h as int);
            assert(self.buff.buff.len() == self.pixels().len());
        }
        let start = Buffer::<Color>::idx(x, y, self.buff.w);
        let rest = self.buff.buff.len() - start;
        let n = if length < rest {
            length
        } else {
            rest
        };
        fill_vec(&mut self.buff.buff, start, start + n, color);
    }

    /// Copies `colors` into consecutive pixels of the flat buffer starting at `(x, y)`.
    ///
    /// Colours that do not fit before the end of the buffer are dropped; a run longer than the
    /// rest of the row continues into the following rows. Nothing happens when `(x, y)` is out
    /// of bounds.
    pub fn set_pixel_range_from_array(&mut self, x: usize, y: usize, colors: &[Color])
        requires
            old(self).wf(),
        ensures
            same_shape(*old(self), *final(self)),
            final(self).wf(),
            final(self).buff.w == old(self).buff.w,
            final(self).buff.h == old(self).buff.h,
            final(self).pixels().len() == old(self).pixels().len(),
            final(self).pixels() == run_copied(
                old(self).pixels(),
                old(self).width(),
                old(self).height(),
                x as int,
                y as int,
                colors@,
            ),
    {
        if y >= self.buff.h || x >= self.buff.w {
            return;
        }
        proof {
            lemma_flat_index_in_bounds(x as int, y as int, self.buff.w as int, self.buff.h as int);
            assert(self.buff.buff.len() == self.pixels().len());
        }
        let start = Buffer::<Color>::idx(x, y, self.buff.w);
        let rest = self.buff.buff.len() - start;
        let n = if colors.len() < rest {
            colors.len()
        } else {
            rest
        };
        let (head, _) = colors.split_at(n);
        copy_vec(&mut self.buff.buff, start, head);
    }

    /// Fills the pixels of row `y` from column `x1` up to, not including, column `x2`
    /// (cut at the row's end).
    ///
    /// Nothing happens when `y` is out of bounds, when `x1` is past the row's end, or when
    /// `x1 > x2`.
    pub fn set_pixels_between_points(&mut self, y: usize, x1: usize, x2: usize, color: Color)
        requires
            old(self).wf(),
        ensures
            same_shape(*old(self), *final(self)),
            final(self).wf(),
            final(self).buff.w == old(self).buff.w,
            final(self).buff.h == old(self).buff.h,
            final(self).pixels().len() == old(self).pixels().len(),
            final(self).pixels() == segment_filled(
                old(self).pixels(),
                old(self).width(),
                old(self).height(),
                y as int,
                x1 as int,
                x2 as int,
                color,
            ),
    {
        if y >= self.buff.h || x1 > self.buff.w || x1 > x2 {
            return;
        }
        let x2 = if x2 < self.buff.w {
            x2
        } else {
            self.buff.w
        };
        proof {
            lemma_row_in_bounds(y as int, self.buff.w as int, self.buff.h as int);
            assert(self.buff.buff.len() == self.pixels().len());
        }
        let start = Buffer::<Color>::idx(x1, y, self.buff.w);
        let end = Buffer::<Color>::idx(x2, y, self.buff.w);
        fill_vec(&mut self.buff.buff, start, end, color);
    }

    /// Stamps `mask` with its top-left corner at `(x, y)`: the pixel under every `true` cell
    /// becomes `color`, the others are kept. Row `dy` of the mask covers the `mask[dy].len()`
    /// flat pixels that start at `(x, y + dy)`.
    pub fn set_pixels_masked(&mut self, x: usize, y: usize, mask: Vec<Vec<bool>>, color: Color)
        requires
            old(self).wf(),
            y + mask@.len() <= usize::MAX + 1,
            forall|dy: int|
                0 <= dy < mask@.len() ==> flat_index(x as int, y + dy, old(self).width()) + (
                #[trigger] mask@[dy])@.len() <= old(self).pixels().len(),
        ensures
            same_shape(*old(self), *final(self)),
            final(self).wf(),
            final(self).buff.w == old(self).buff.w,
            final(self).buff.h == old(self).buff.h,
            final(self).pixels().len() == old(self).pixels().len(),
            forall|k: int|
                0 <= k < old(self).pixels().len() ==> #[trigger] final(self).pixels()[k] == if mask_covers(
                    mask.deep_view(),
                    x as int,
                    y as int,
                    old(self).width(),
                    k,
                ) {
                    color
                } else {
                    old(self).pixels()[k]
                },
    {
        let ghost m = mask.deep_view();
        let ghost w = old(self).width();
        let mut dy: usize = 0;
        while dy < mask.len()
            invariant
                m == mask.deep_view(),
                w == old(self).width(),
                0 <= dy <= mask@.len(),
                self.buff.w == old(self).buff.w,
                self.buff.h == old(self).buff.h,
                self.pixels().len() == old(self).pixels().len(),
                y + mask@.len() <= usize::MAX + 1,
                forall|d: int|
                    0 <= d < mask@.len() ==> flat_index(x as int, y + d, w) + (
                    #[trigger] mask@[d])@.len() <= old(self).pixels().len(),
                forall|k: int|
                    0 <= k < old(self).pixels().len() ==> #[trigger] self.pixels()[k] == if mask_covers_upto(
                        m,
                        x as int,
                        y as int,
                        w,
                        k,
                        dy as int,
                        0,
                    ) {
                        color
                    } else {
                        old(self).pixels()[k]
                    },
            decreases mask@.len() - dy,
        {
            let row = &mask[dy];
            assert(row@ == m[dy as int]);
            proof {
                assert(self.buff.buff.len() == self.pixels().len());
                assert(0 <= (y + dy) * self.buff.w) by (nonlinear_arith)
                    requires
                        y + dy >= 0,
                        self.buff.w >= 0,
                ;
            }
            let start = Buffer::<Color>::idx(x, y + dy, self.buff.w);
            let mut dx: usize = 0;
            while dx < row.len()
                invariant
                    m == mask.deep_view(),
                    w == old(self).width(),
                    row@ == m[dy as int],
                    0 <= dy < mask@.len(),
                    0 <= dx <= row@.len(),
                    start == flat_index(x as int, y + dy, w),
                    start + row@.len() <= old(self).pixels().len(),
                    self.buff.w == old(self).buff.w,
                    self.buff.h == old(self).buff.h,
                    self.pixels().len() == old(self).pixels().len(),
                    forall|k: int|
                        0 <= k < old(self).pixels().len() ==> #[trigger] self.pixels()[k] == if mask_covers_upto(
                            m,
                            x as int,
                            y as int,
                            w,
                            k,
                            dy as int,
                            dx as int,
                        ) {
                            color
                        } else {
                            old(self).pixels()[k]
                        },
                decreases row@.len() - dx,
            {
                assert(self.buff.buff.len() == self.pixels().len());
                if row[dx] {
                    self.buff.buff.set(start + dx, color);
                }
                proof {
                    assert forall|k: int| 0 <= k < old(self).pixels().len() implies #[trigger] self.pixels()[k]
                        == if mask_covers_upto(m, x as int, y as int, w, k, dy as int, dx + 1) {
                        color
                    } else {
                        old(self).pixels()[k]
                    } by {
                        let k0 = start + dx;
                        assert(flat_index(x + dx, y + dy, w) == k0);
                        if mask_covers_upto(m, x as int, y as int, w, k, dy as int, dx + 1) {
                            let (a, b) = choose|a: int, b: int|
                                #![trigger m[a][b], flat_index(x + b, y + a, w)]
                                mask_cell_done(m, a, b, dy as int, dx + 1) && k == flat_index(
                                    x + b,
                                    y + a,
                                    w,
                                );
                            if !(a == dy && b == dx) {
                                assert(mask_cell_done(m, a, b, dy as int, dx as int));
                                assert(mask_covers_upto(m, x as int, y as int, w, k, dy as int, dx as int));
                            }
                        } else {
                            if mask_covers_upto(m, x as int, y as int, w, k, dy as int, dx as int) {
                                let (a, b) = choose|a: int, b: int|
                                    #![trigger m[a][b], flat_index(x + b, y + a, w)]
                                    mask_cell_done(m, a, b, dy as int, dx as int) && k == flat_index(
                                        x + b,
                                        y + a,
                                        w,
                                    );
                                assert(mask_cell_done(m, a, b, dy as int, dx + 1));
                            }
                            if row@[dx as int] && k == k0 {
                                assert(mask_cell_done(m, dy as int, dx as int, dy as int, dx + 1));
                            }
                        }
                    }
                }
                dx = dx + 1;
            }
            proof {
                assert forall|k: int| 0 <= k < old(self).pixels().len() implies mask_covers_upto(
                    m,
                    x as int,
                    y as int,
                    w,
                    k,
                    dy as int,
                    row@.len() as int,
                ) == mask_covers_upto(m, x as int, y as int, w, k, dy + 1, 0) by {
                    if mask_covers_upto(m, x as int, y as int, w, k, dy + 1, 0) {
                        let (a, b) = choose|a: int, b: int|
                            #![trigger m[a][b], flat_index(x + b, y + a, w)]
                            mask_cell_done(m, a, b, dy + 1, 0) && k == flat_index(x + b, y + a, w);
                        assert(mask_cell_done(m, a, b, dy as int, row@.len() as int));
                    }
                    if mask_covers_upto(m, x as int, y as int, w, k, dy as int, row@.len() as int) {
                        let (a, b) = choose|a: int, b: int|
                            #![trigger m[a][b], flat_index(x + b, y + a, w)]
                            mask_cell_done(m, a, b, dy as int, row@.len() as int) && k == flat_index(
                                x + b,
                                y + a,
                                w,
                            );
                        assert(mask_cell_done(m, a, b, dy + 1, 0));
                    }
                }
            }
            dy = dy + 1;
        }
    }

    /// The colour of the pixel `(x, y)`, or `InvalidAddress` when it is out of bounds.
    pub fn get_pixel(&self, x: usize, y: usize) -> (r: Result<Color, BufferError>)
        requires
            self.wf(),
        ensures
            x < self.width() && y < self.height() ==> r == Ok::<Color, BufferError>(
                self.buff.at(x as int, y as int),
            ),
            !(x < self.width() && y < self.height()) ==> r == Err::<Color, BufferError>(
                BufferError::InvalidAddress { x, y, w: self.buff.w, h: self.buff.h },
            ),
    {
        if x >= self.buff.w || y >= self.buff.h {
            return Err(BufferError::InvalidAddress { x, y, w: self.buff.w, h: self.buff.h });
        }
        Ok(*self.buff.get_unchecked(x, y))
    }

    /// The `length` pixels of the flat buffer starting at `(x, y)`.
    pub fn get_pixel_range(&self, x: usize, y: usize, length: usize) -> (r: &[Color])
        requires
            flat_index(x as int, y as int, self.width()) + length <= self.pixels().len(),
        ensures
            ({
                let start = flat_index(x as int, y as int, self.width());
                r@ == self.pixels().subrange(start, start + length)
            }),
    {
        proof {
            assert(self.buff.buff.len() == self.pixels().len());
            assert(0 <= y * self.buff.w) by (nonlinear_arith)
                requires
                    y >= 0,
                    self.buff.w >= 0,
            ;
        }
        let start = Buffer::<Color>::idx(x, y, self.buff.w);
        let s = self.buff.buff.as_slice();
        let (_, tail) = s.split_at(start);
        let (mid, _) = tail.split_at(length);
        mid
    }

    /// Mutable access to the `length` pixels of the flat buffer starting at `(x, y)`; what is
    /// written through it lands at those pixels, and every other pixel is kept.
    pub fn get_pixel_range_mut(&mut self, x: usize, y: usize, length: usize) -> (r: &mut [Color])
        requires
            flat_index(x as int, y as int, old(self).width()) + length <= old(self).pixels().len(),
        ensures
            ({
                let start = flat_index(x as int, y as int, old(self).width());
                &&& r@ == old(self).pixels().subrange(start, start + length)
                &&& final(self).buff.w == old(self).buff.w
                &&& final(self).buff.h == old(self).buff.h
                &&& final(self).pixels() == old(self).pixels().subrange(0, start) + final(r)@
                    + old(self).pixels().subrange(start + length, old(self).pixels().len() as int)
            }),
    {
        proof {
            assert(self.buff.buff.len() == self.pixels().len());
            assert(0 <= y * self.buff.w) by (nonlinear_arith)
                requires
                    y >= 0,
                    self.buff.w >= 0,
            ;
        }
        let start = Buffer::<Color>::idx(x, y, self.buff.w);
        let s = self.buff.buff.as_mut_slice();
        let (_, tail) = s.split_at_mut(start);
        let (mid, _) = tail.split_at_mut(length);
        mid
    }

    /// Copies `other` onto this buffer with its top-left corner at `(x, y)`, clipped to this
    /// buffer's right and bottom edges. Nothing happens when `(x, y)` is out of bounds.
    pub fn blit(&mut self, x: usize, y: usize, other: &PixelBuffer)
        requires
            old(self).wf(),
            other.wf(),
        ensures
            same_shape(*old(self), *final(self)),
            final(self).wf(),
            final(self).buff.w == old(self).buff.w,
            final(self).buff.h == old(self).buff.h,
            final(self).pixels().len() == old(self).pixels().len(),
            forall|px: int, py: int|
                0 <= px < old(self).width() && 0 <= py < old(self).height() ==> #[trigger] final(self).buff.at(px, py) == if blit_covers(
                    old(self).width(),
                    old(self).height(),
                    other.width(),
                    other.height(),
                    x as int,
                    y as int,
                    px,
                    py,
                ) {
                    other.buff.at(px - x, py - y)
                } else {
                    old(self).buff.at(px, py)
                },
    {
        let sw = self.buff.w;
        let sh = self.buff.h;
        let ow = other.buff.w;
        let oh = other.buff.h;
        if x >= sw || y >= sh {
            return;
        }
        let copy_w = if ow < sw - x {
            ow
        } else {
            sw - x
        };
        let copy_h = if oh < sh - y {
            oh
        } else {
            sh - y
        };
        let ghost ws = sw as int;
        let ghost hs = sh as int;
        let mut row: usize = 0;
        while row < copy_h
            invariant
                sw == old(self).buff.w,
                sh == old(self).buff.h,
                ow == other.buff.w,
                oh == other.buff.h,
                other.wf(),
                x < sw,
                y < sh,
                copy_w == blit_width(sw as int, ow as int, x as int),
                copy_h == min_int(oh as int, sh - y),
                0 <= row <= copy_h,
                self.buff.w == sw,
                self.buff.h == sh,
                self.pixels().len() == old(self).pixels().len(),
                old(self).wf(),
                forall|px: int, py: int|
                    0 <= px < sw && 0 <= py < sh ==> #[trigger] self.buff.at(px, py) == if blit_done(
                        sw as int,
                        sh as int,
                        ow as int,
                        oh as int,
                        x as int,
                        y as int,
                        px,
                        py,
                        row as int,
                        0,
                    ) {
                        other.buff.at(px - x, py - y)
                    } else {
                        old(self).buff.at(px, py)
                    },
            decreases copy_h - row,
        {
            let mut col: usize = 0;
            while col < copy_w
                invariant
                    sw == old(self).buff.w,
                    sh == old(self).buff.h,
                    ow == other.buff.w,
                    oh == other.buff.h,
                    other.wf(),
                    x < sw,
                    y < sh,
                    copy_w == blit_width(sw as int, ow as int, x as int),
                    copy_h == min_int(oh as int, sh - y),
                    0 <= row < copy_h,
                    0 <= col <= copy_w,
                    self.buff.w == sw,
                    self.buff.h == sh,
                    self.pixels().len() == old(self).pixels().len(),
                    old(self).wf(),
                    forall|px: int, py: int|
                        0 <= px < sw && 0 <= py < sh ==> #[trigger] self.buff.at(px, py) == if blit_done(
                            sw as int,
                            sh as int,
                            ow as int,
                            oh as int,
                            x as int,
                            y as int,
                            px,
                            py,
                            row as int,
                            col as int,
                        ) {
                            other.buff.at(px - x, py - y)
                        } else {
                            old(self).buff.at(px, py)
                        },
                decreases copy_w - col,
            {
                proof {
                    lemma_flat_index_in_bounds(col as int, row as int, ow as int, oh as int);
                    lemma_flat_index_in_bounds(
                        (x + col) as int,
                        (y + row) as int,
                        sw as int,
                        sh as int,
                    );
                    assert(other.buff.buff.len() == other.pixels().len());
                    assert(self.buff.buff.len() == self.pixels().len());
                }
                let src = Buffer::<Color>::idx(col, row, ow);
                let dst = Buffer::<Color>::idx(x + col, y + row, sw);
                let c = other.buff.buff[src];
                let ghost before = *self;
                self.buff.buff.set(dst, c);
                proof {
                    assert forall|px: int, py: int| 0 <= px < sw && 0 <= py < sh implies #[trigger] self.buff.at(
                        px,
                        py,
                    ) == if blit_done(
                        sw as int,
                        sh as int,
                        ow as int,
                        oh as int,
                        x as int,
                        y as int,
                        px,
                        py,
                        row as int,
                        col + 1,
                    ) {
                        other.buff.at(px - x, py - y)
                    } else {
                        old(self).buff.at(px, py)
                    } by {
                        lemma_flat_index_in_bounds(px, py, sw as int, sh as int);
                        if px == x + col && py == y + row {
                        } else {
                            if flat_index(px, py, sw as int) == dst {
                                lemma_flat_index_injective(
                                    sw as int,
                                    px,
                                    py,
                                    (x + col) as int,
                                    (y + row) as int,
                                );
                            }
                            assert(self.buff.at(px, py) == before.buff.at(px, py));
                        }
                    }
                }
                col = col + 1;
            }
            proof {
                assert forall|px: int, py: int| 0 <= px < sw && 0 <= py < sh implies blit_done(
                    sw as int,
                    sh as int,
                    ow as int,
                    oh as int,
                    x as int,
                    y as int,
                    px,
                    py,
                    row as int,
                    copy_w as int,
                ) == blit_done(
                    sw as int,
                    sh as int,
                    ow as int,
                    oh as int,
                    x as int,
                    y as int,
                    px,
                    py,
                    row + 1,
                    0,
                ) by {}
            }
            row = row + 1;
        }
        proof {
            assert forall|px: int, py: int| 0 <= px < sw && 0 <= py < sh implies blit_done(
                sw as int,
                sh as int,
                ow as int,
                oh as int,
                x as int,
                y as int,
                px,
                py,
                copy_h as int,
                0,
            ) == blit_covers(sw as int, sh as int, ow as int, oh as int, x as int, y as int, px, py) by {}
        }
    }

    /// Copies the pixels of `texture` onto this buffer with its top-left corner at `(x, y)`,
    /// exactly as `blit` does with the texture's buffer.
    pub fn blit_texture(&mut self, x: usize, y: usize, texture: &Texture)
        requires
            old(self).wf(),
            texture.buff.wf(),
        ensures
            same_shape(*old(self), *final(self)),
            final(self).wf(),
            final(self).buff.w == old(self).buff.w,
            final(self).buff.h == old(self).buff.h,
            final(self).pixels().len() == old(self).pixels().len(),
            forall|px: int, py: int|
                0 <= px < old(self).width() && 0 <= py < old(self).height() ==> #[trigger] final(self).buff.at(px, py) == if blit_covers(
                    old(self).width(),
                    old(self).height(),
                    texture.buff.width(),
                    texture.buff.height(),
                    x as int,
                    y as int,
                    px,
                    py,
                ) {
                    texture.buff.buff.at(px - x, py - y)
                } else {
                    old(self).buff.at(px, py)
                },
    {
        self.blit(x, y, &texture.buff);
    }

    /// The packed `0x00RRGGBB` values of all pixels, in flat order.
    pub fn to_array(&self) -> (a: Vec<u32>)
        ensures
            a@.len() == self.pixels().len(),
            forall|i: int| 0 <= i < a@.len() ==> #[trigger] a@[i] == self.pixels()[i]@,
    {
        let mut a: Vec<u32> = Vec::new();
        let mut i: usize = 0;
        while i < self.buff.buff.len()
            invariant
                0 <= i <= self.pixels().len(),
                a@.len() == i,
                forall|j: int| 0 <= j < i ==> #[trigger] a@[j] == self.pixels()[j]@,
            decreases self.pixels().len() - i,
        {
            a.push(self.buff.buff[i].as_u32());
            i = i + 1;
        }
        a
    }

    /// Whether `other` has the same width and height.
    pub fn will_it_fit(&self, other: &Self) -> (r: bool)
        ensures
            r == (self.buff.w == other.buff.w && self.buff.h == other.buff.h),
    {
        self.buff.w == other.buff.w && self.buff.h == other.buff.h
    }

    /// The `(width, height)` of the buffer.
    pub fn get_dimensions(&self) -> (d: (usize, usize))
        ensures
            d == (self.buff.w, self.buff.h),
    {
        (self.buff.w, self.buff.h)
    }
}

} // verus!
