use vstd::prelude::*;

use std::collections::HashMap;

use crate::buffer::lemma_flat_index_in_bounds;
use crate::color::Color;
use crate::error::{DrawError, PixelBufferError};
use crate::font_manager::FontManager;
use crate::pixel_buffer::PixelBuffer;
use crate::raster::{
    abs_int, circle_fill_covers, circle_fill_covers_upto, circle_row_hit, clamp_low, i32_index,
    in_i32, isqrt_i32, lemma_isqrt_is, lemma_stroke_state_shape, lemma_stroke_stops,
    lemma_wrap_add, lemma_wrapping_add, lemma_wrapping_sub, line_covers, line_fits,
    rect_fill_covers, rect_fill_covers_upto, rect_row_covers, rect_side_covers,
    rect_sides_covers_upto, rect_stroke_covers, run_covers, segment_covers, stroke_covers,
    stroke_covers_upto, stroke_fits, stroke_hit, stroke_pair_hit, stroke_runs, stroke_state,
    stroke_step_fits, walk_covers, walk_covers_upto, walk_dir, walk_fits, walk_hit, walk_state,
    walk_step_fits, wrap_usize,
};

verus! {

broadcast use vstd::std_specs::hash::group_hash_axioms;

/// Identifies a font loaded into a window manager.
#[derive(Debug, PartialEq, Eq, Hash, Clone, Copy, Structural)]
pub struct FontId(pub u64);

/// The drawing state of a window: its frame buffer and the fonts loaded for text.
///
/// Fonts are kept under the numbers of the ids that `load_font` hands out; every such number is
/// below `next_font_id`, so a new id never clashes with a loaded font.
pub struct WindowManager {
    pub w: usize,
    pub h: usize,
    pub buff: PixelBuffer,
    pub loaded_fonts: HashMap<u64, FontManager>,
    pub next_font_id: FontId,
}

/// Whether every key of `fonts` is below `next`.
pub open spec fn ids_below(fonts: Map<u64, FontManager>, next: u64) -> bool {
    forall|k: u64| #[trigger] fonts.contains_key(k) ==> k < next
}

/// The font kept under `font_id` among `fonts`, the fonts of a window manager, for drawing text
/// with it; fails with `FontNotLoaded` when no font is kept under that id (it was never loaded,
/// or was unloaded).
pub fn lookup_font(fonts: &HashMap<u64, FontManager>, font_id: FontId) -> (r: Result<
    &FontManager,
    DrawError,
>)
    ensures
        fonts@.contains_key(font_id.0) ==> r == Ok::<&FontManager, DrawError>(&fonts@[font_id.0]),
        !fonts@.contains_key(font_id.0) ==> r == Err::<&FontManager, DrawError>(
            DrawError::FontNotLoaded { font_id },
        ),
{
    match fonts.get(&font_id.0) {
        Some(font) => Ok(font),
        None => Err(DrawError::FontNotLoaded { font_id }),
    }
}

impl WindowManager {
    /// The frame buffer is well formed and has the window's size, and loaded font ids are below
    /// the next id to hand out.
    pub open spec fn wf(&self) -> bool {
        &&& self.buff.wf()
        &&& self.buff.buff.w == self.w
        &&& self.buff.buff.h == self.h
        &&& ids_below(self.loaded_fonts@, self.next_font_id.0)
    }

    /// A `w` x `h` window state with a black frame buffer and no fonts.
    pub fn new(w: usize, h: usize) -> (m: Self)
        requires
            w * h <= usize::MAX,
        ensures
            m.wf(),
            m.w == w,
            m.h == h,
            m.loaded_fonts@ == Map::<u64, FontManager>::empty(),
            m.next_font_id == FontId(0),
            forall|i: int| 0 <= i < m.buff.pixels().len() ==> (#[trigger] m.buff.pixels()[i])@ == 0,
    {
        WindowManager {
            w,
            h,
            buff: PixelBuffer::new(w, h),
            loaded_fonts: HashMap::new(),
            next_font_id: FontId(0),
        }
    }

    /// Replaces the frame buffer with `buff` when it has the same dimensions; fails with
    /// `IncorrectBufferSize`, leaving the state unchanged, otherwise.
    pub fn write_buff(&mut self, buff: PixelBuffer) -> (r: Result<(), PixelBufferError>)
        ensures
            ({
                let fits = buff.buff.w == old(self).buff.buff.w && buff.buff.h == old(
                    self,
                ).buff.buff.h;
                &&& fits ==> r is Ok && final(self).buff == buff
                &&& !fits ==> r == Err::<(), PixelBufferError>(
                    PixelBufferError::IncorrectBufferSize {
                        orig_w: old(self).buff.buff.w,
                        orig_h: old(self).buff.buff.h,
                        new_w: buff.buff.w,
                        new_h: buff.buff.h,
                    },
                ) && final(self).buff == old(self).buff
            }),
            final(self).w == old(self).w,
            final(self).h == old(self).h,
            final(self).loaded_fonts@ == old(self).loaded_fonts@,
            final(self).next_font_id == old(self).next_font_id,
            old(self).wf() && buff.wf() ==> final(self).wf(),
    {
        if !buff.will_it_fit(&self.buff) {
            let (orig_w, orig_h) = self.buff.get_dimensions();
            let (new_w, new_h) = buff.get_dimensions();
            return Err(PixelBufferError::IncorrectBufferSize { orig_w, orig_h, new_w, new_h });
        }
        self.buff = buff;
        Ok(())
    }

    /// Takes ownership of `font` and returns the fresh id it is kept under.
    pub fn load_font(&mut self, font: FontManager) -> (id: FontId)
        requires
            old(self).wf(),
            old(self).next_font_id.0 < u64::MAX,
        ensures
            final(self).wf(),
            id == old(self).next_font_id,
            !old(self).loaded_fonts@.contains_key(id.0),
            final(self).loaded_fonts@ == old(self).loaded_fonts@.insert(id.0, font),
            final(self).next_font_id.0 == old(self).next_font_id.0 + 1,
            final(self).buff == old(self).buff,
            final(self).w == old(self).w,
            final(self).h == old(self).h,
    {
        let id = self.next_font_id;
        self.next_font_id = FontId(self.next_font_id.0 + 1);
        self.loaded_fonts.insert(id.0, font);
        id
    }

    /// Removes the font kept under `font_id` and returns it, or `None` when no font is kept
    /// under that id.
    pub fn unload_font(&mut self, font_id: FontId) -> (f: Option<FontManager>)
        requires
            old(self).wf(),
        ensures
            final(self).wf(),
            old(self).loaded_fonts@.contains_key(font_id.0) ==> f == Some(
                old(self).loaded_fonts@[font_id.0],
            ),
            !old(self).loaded_fonts@.contains_key(font_id.0) ==> f is None,
            final(self).loaded_fonts@ == old(self).loaded_fonts@.remove(font_id.0),
            final(self).next_font_id == old(self).next_font_id,
            final(self).buff == old(self).buff,
            final(self).w == old(self).w,
            final(self).h == old(self).h,
    {
        self.loaded_fonts.remove(&font_id.0)
    }

    /// Fills a `w` x `h` rectangle with top-left corner `(x, y)`: each of its rows is a run of
    /// `w` pixels as `set_pixel_range_from_value` writes it.
    pub fn draw_rect_fill(&mut self, x: usize, y: usize, w: usize, h: usize, color: Color)
        requires
            old(self).wf(),
            y + h <= usize::MAX + 1,
        ensures
            final(self).wf(),
            final(self).w == old(self).w,
            final(self).h == old(self).h,
            final(self).loaded_fonts@ == old(self).loaded_fonts@,
            final(self).next_font_id == old(self).next_font_id,
            final(self).buff.pixels().len() == old(self).buff.pixels().len(),
            forall|k: int|
                0 <= k < old(self).buff.pixels().len() ==> #[trigger] final(self).buff.pixels()[k]
                    == if rect_fill_covers(
                    old(self).w as int,
                    old(self).h as int,
                    old(self).buff.pixels().len() as int,
                    x as int,
                    y as int,
                    w as int,
                    h as int,
                    k,
                ) {
                    color
                } else {
                    old(self).buff.pixels()[k]
                },
    {
        let ghost ww = self.w as int;
        let ghost hh = self.h as int;
        let ghost len = self.buff.pixels().len() as int;
        let mut dy: usize = 0;
        while dy < h
            invariant
                self.wf(),
                ww == old(self).w,
                hh == old(self).h,
                len == old(self).buff.pixels().len(),
                self.w == old(self).w,
                self.h == old(self).h,
                self.loaded_fonts@ == old(self).loaded_fonts@,
                self.next_font_id == old(self).next_font_id,
                self.buff.pixels().len() == len,
                y + h <= usize::MAX + 1,
                0 <= dy <= h,
                forall|k: int|
                    0 <= k < len ==> #[trigger] self.buff.pixels()[k] == if rect_fill_covers_upto(
                        ww,
                        hh,
                        len,
                        x as int,
                        y as int,
                        w as int,
                        dy as int,
                        k,
                    ) {
                        color
                    } else {
                        old(self).buff.pixels()[k]
                    },
            decreases h - dy,
        {
            let ghost before = self.buff.pixels();
            self.buff.set_pixel_range_from_value(x, y + dy, w, color);
            proof {
                assert forall|k: int| 0 <= k < len implies #[trigger] self.buff.pixels()[k] == if rect_fill_covers_upto(
                    ww,
                    hh,
                    len,
                    x as int,
                    y as int,
                    w as int,
                    dy + 1,
                    k,
                ) {
                    color
                } else {
                    old(self).buff.pixels()[k]
                } by {
                    if rect_row_covers(ww, hh, len, x as int, y as int, w as int, dy as int, k) {
                        assert(rect_fill_covers_upto(ww, hh, len, x as int, y as int, w as int, dy + 1, k));
                    } else {
                        if rect_fill_covers_upto(ww, hh, len, x as int, y as int, w as int, dy + 1, k) {
                            let d = choose|d: int|
                                0 <= d < dy + 1 && #[trigger] rect_row_covers(
                                    ww,
                                    hh,
                                    len,
                                    x as int,
                                    y as int,
                                    w as int,
                                    d,
                                    k,
                                );
                            assert(rect_fill_covers_upto(ww, hh, len, x as int, y as int, w as int, dy as int, k));
                        }
                        if rect_fill_covers_upto(ww, hh, len, x as int, y as int, w as int, dy as int, k) {
                            let d = choose|d: int|
                                0 <= d < dy && #[trigger] rect_row_covers(
                                    ww,
                                    hh,
                                    len,
                                    x as int,
                                    y as int,
                                    w as int,
                                    d,
                                    k,
                                );
                            assert(rect_fill_covers_upto(ww, hh, len, x as int, y as int, w as int, dy + 1, k));
                        }
                    }
                }
            }
            dy = dy + 1;
        }
    }

    /// Outlines a `w` x `h` rectangle with top-left corner `(x, y)`: the top and bottom rows are
    /// runs of `w` pixels, and every row in between gets the pixels at columns `x` and `x + w`.
    pub fn draw_rect_stroke(&mut self, x: usize, y: usize, w: usize, h: usize, color: Color)
        requires
            old(self).wf(),
            h == 2 ==> y + 1 <= usize::MAX,
            h >= 3 ==> y + h <= usize::MAX && x + w <= usize::MAX,
        ensures
            final(self).wf(),
            final(self).w == old(self).w,
            final(self).h == old(self).h,
            final(self).loaded_fonts@ == old(self).loaded_fonts@,
            final(self).next_font_id == old(self).next_font_id,
            final(self).buff.pixels().len() == old(self).buff.pixels().len(),
            forall|k: int|
                0 <= k < old(self).buff.pixels().len() ==> #[trigger] final(self).buff.pixels()[k]
                    == if rect_stroke_covers(
                    old(self).w as int,
                    old(self).h as int,
                    old(self).buff.pixels().len() as int,
                    x as int,
                    y as int,
                    w as int,
                    h as int,
                    k,
                ) {
                    color
                } else {
                    old(self).buff.pixels()[k]
                },
    {
        let ghost ww = self.w as int;
        let ghost hh = self.h as int;
        let ghost len = self.buff.pixels().len() as int;
        let ghost old_px = self.buff.pixels();
        if h == 0 {
            return;
        }
        self.buff.set_pixel_range_from_value(x, y, w, color);
        if h == 1 {
            return;
        }
        if h >= 3 {
            let mut dy: usize = 1;
            while dy <= h - 2
                invariant
                    self.wf(),
                    ww == old(self).w,
                    hh == old(self).h,
                    len == old(self).buff.pixels().len(),
                    old_px == old(self).buff.pixels(),
                    self.w == old(self).w,
                    self.h == old(self).h,
                    self.loaded_fonts@ == old(self).loaded_fonts@,
                    self.next_font_id == old(self).next_font_id,
                    self.buff.pixels().len() == len,
                    y + h <= usize::MAX,
                    x + w <= usize::MAX,
                    h >= 3,
                    1 <= dy <= h - 1,
                    forall|k: int|
                        0 <= k < len ==> #[trigger] self.buff.pixels()[k] == if run_covers(
                            ww,
                            hh,
                            len,
                            x as int,
                            y as int,
                            w as int,
                            k,
                        ) || rect_sides_covers_upto(ww, hh, x as int, y as int, w as int, dy as int, k) {
                            color
                        } else {
                            old_px[k]
                        },
                decreases h - dy,
            {
                let ghost p0 = self.buff.pixels();
                self.buff.set_pixel(x, y + dy, color);
                let ghost p1 = self.buff.pixels();
                self.buff.set_pixel(x + w, y + dy, color);
                proof {
                    assert forall|k: int| 0 <= k < len implies #[trigger] self.buff.pixels()[k] == if rect_side_covers(ww, hh, x as int, y as int, w as int, dy as int, k) {
                        color
                    } else {
                        p0[k]
                    } by {
                        if x < ww && y + dy < hh {
                            lemma_flat_index_in_bounds(x as int, y + dy, ww, hh);
                        }
                        if x + w < ww && y + dy < hh {
                            lemma_flat_index_in_bounds(x + w, y + dy, ww, hh);
                        }
                    }
                    assert forall|k: int| 0 <= k < len implies #[trigger] self.buff.pixels()[k] == if run_covers(
                        ww,
                        hh,
                        len,
                        x as int,
                        y as int,
                        w as int,
                        k,
                    ) || rect_sides_covers_upto(ww, hh, x as int, y as int, w as int, dy + 1, k) {
                        color
                    } else {
                        old_px[k]
                    } by {
                        if rect_side_covers(ww, hh, x as int, y as int, w as int, dy as int, k) {
                            assert(rect_sides_covers_upto(ww, hh, x as int, y as int, w as int, dy + 1, k));
                        } else {
                            if rect_sides_covers_upto(ww, hh, x as int, y as int, w as int, dy + 1, k) {
                                let d = choose|d: int|
                                    1 <= d < dy + 1 && #[trigger] rect_side_covers(
                                        ww,
                                        hh,
                                        x as int,
                                        y as int,
                                        w as int,
                                        d,
                                        k,
                                    );
                                assert(rect_sides_covers_upto(ww, hh, x as int, y as int, w as int, dy as int, k));
                            }
                            if rect_sides_covers_upto(ww, hh, x as int, y as int, w as int, dy as int, k) {
                                let d = choose|d: int|
                                    1 <= d < dy && #[trigger] rect_side_covers(
                                        ww,
                                        hh,
                                        x as int,
                                        y as int,
                                        w as int,
                                        d,
                                        k,
                                    );
                                assert(rect_sides_covers_upto(ww, hh, x as int, y as int, w as int, dy + 1, k));
                            }
                        }
                    }
                }
                dy = dy + 1;
            }
        }
        if h == 2 {
            self.buff.set_pixel_range_from_value(x, y + 1, w, color);
        } else {
            self.buff.set_pixel_range_from_value(x, y + h - 1, w, color);
        }
        proof {
            assert forall|k: int| 0 <= k < len implies #[trigger] self.buff.pixels()[k] == if rect_stroke_covers(
                ww,
                hh,
                len,
                x as int,
                y as int,
                w as int,
                h as int,
                k,
            ) {
                color
            } else {
                old_px[k]
            } by {
                if h < 3 {
                    assert(!rect_sides_covers_upto(ww, hh, x as int, y as int, w as int, h - 1, k));
                }
            }
        }
    }

    /// Bresenham's walk from `(a0, b0)` to `(a1, b1)` along the major axis `a`, painting one
    /// pixel per major coordinate; a steep walk paints `(b, a)`, a shallow one `(a, b)`.
    fn walk_line(&mut self, a0: i32, b0: i32, a1: i32, b1: i32, steep: bool, color: Color)
        requires
            old(self).wf(),
            walk_fits(a0 as int, b0 as int, a1 as int, b1 as int),
        ensures
            final(self).wf(),
            final(self).w == old(self).w,
            final(self).h == old(self).h,
            final(self).loaded_fonts@ == old(self).loaded_fonts@,
            final(self).next_font_id == old(self).next_font_id,
            final(self).buff.pixels().len() == old(self).buff.pixels().len(),
            forall|k: int|
                0 <= k < old(self).buff.pixels().len() ==> #[trigger] final(self).buff.pixels()[k]
                    == if walk_covers(
                    old(self).w as int,
                    old(self).h as int,
                    a0 as int,
                    b0 as int,
                    a1 as int,
                    b1 as int,
                    steep,
                    k,
                ) {
                    color
                } else {
                    old(self).buff.pixels()[k]
                },
    {
        let ghost ww = self.w as int;
        let ghost hh = self.h as int;
        let ghost len = self.buff.pixels().len() as int;
        let ghost old_px = self.buff.pixels();
        let da = a1 - a0;
        let mut db = b1 - b0;
        let mut dir: i32 = 1;
        if db < 0 {
            dir = -1;
            db = -db;
        }
        let mut d = (2 * db) - da;
        let mut b = b0;
        let mut a: i64 = a0 as i64;
        while a <= a1 as i64
            invariant
                self.wf(),
                ww == old(self).w,
                hh == old(self).h,
                len == old(self).buff.pixels().len(),
                old_px == old(self).buff.pixels(),
                self.w == old(self).w,
                self.h == old(self).h,
                self.loaded_fonts@ == old(self).loaded_fonts@,
                self.next_font_id == old(self).next_font_id,
                self.buff.pixels().len() == len,
                walk_fits(a0 as int, b0 as int, a1 as int, b1 as int),
                da == a1 - a0,
                db == abs_int(b1 - b0),
                dir == walk_dir(b0 as int, b1 as int),
                a0 <= a <= a1 + 1 || a == a0,
                (b as int, d as int) == walk_state(
                    a0 as int,
                    b0 as int,
                    a1 as int,
                    b1 as int,
                    (a - a0) as nat,
                ),
                forall|k: int|
                    0 <= k < len ==> #[trigger] self.buff.pixels()[k] == if walk_covers_upto(
                        ww,
                        hh,
                        a0 as int,
                        b0 as int,
                        a1 as int,
                        b1 as int,
                        steep,
                        a - a0,
                        k,
                    ) {
                        color
                    } else {
                        old_px[k]
                    },
            decreases a1 - a + 1,
        {
            let ghost i = (a - a0) as int;
            let ghost p0 = self.buff.pixels();
            let ai = a as i32;
            if steep {
                self.buff.set_pixel(b as usize, ai as usize, color);
            } else {
                self.buff.set_pixel(ai as usize, b as usize, color);
            }
            proof {
                assert(walk_step_fits(a0 as int, b0 as int, a1 as int, b1 as int, i as nat));
                assert forall|k: int| 0 <= k < len implies #[trigger] self.buff.pixels()[k] == if walk_covers_upto(
                    ww,
                    hh,
                    a0 as int,
                    b0 as int,
                    a1 as int,
                    b1 as int,
                    steep,
                    i as int + 1,
                    k,
                ) {
                    color
                } else {
                    old_px[k]
                } by {
                    let px = if steep { b as usize } else { ai as usize };
                    let py = if steep { ai as usize } else { b as usize };
                    if px < ww && py < hh {
                        lemma_flat_index_in_bounds(px as int, py as int, ww, hh);
                    }
                    if walk_hit(ww, hh, a0 as int, b0 as int, a1 as int, b1 as int, steep, i, k) {
                        assert(walk_covers_upto(ww, hh, a0 as int, b0 as int, a1 as int, b1 as int, steep, i + 1, k));
                    } else {
                        if walk_covers_upto(ww, hh, a0 as int, b0 as int, a1 as int, b1 as int, steep, i + 1, k) {
                            let j = choose|j: int|
                                0 <= j < i + 1 && #[trigger] walk_hit(
                                    ww,
                                    hh,
                                    a0 as int,
                                    b0 as int,
                                    a1 as int,
                                    b1 as int,
                                    steep,
                                    j,
                                    k,
                                );
                            assert(walk_covers_upto(ww, hh, a0 as int, b0 as int, a1 as int, b1 as int, steep, i, k));
                        }
                        if walk_covers_upto(ww, hh, a0 as int, b0 as int, a1 as int, b1 as int, steep, i, k) {
                            let j = choose|j: int|
                                0 <= j < i && #[trigger] walk_hit(
                                    ww,
                                    hh,
                                    a0 as int,
                                    b0 as int,
                                    a1 as int,
                                    b1 as int,
                                    steep,
                                    j,
                                    k,
                                );
                            assert(walk_covers_upto(ww, hh, a0 as int, b0 as int, a1 as int, b1 as int, steep, i + 1, k));
                        }
                    }
                }
            }
            if d > 0 {
                b = b + dir;
                d = d + 2 * (db - da);
            } else {
                d = d + 2 * db;
            }
            a = a + 1;
        }
    }

    /// Bresenham's line for shallow slopes: walks `x` from `x0` to `x1`, painting one pixel per
    /// column (nothing when `x0 > x1`); each coordinate becomes an index as `v as usize` does.
    pub fn draw_line_low(&mut self, x0: i32, y0: i32, x1: i32, y1: i32, color: Color)
        requires
            old(self).wf(),
            walk_fits(x0 as int, y0 as int, x1 as int, y1 as int),
        ensures
            final(self).wf(),
            final(self).w == old(self).w,
            final(self).h == old(self).h,
            final(self).loaded_fonts@ == old(self).loaded_fonts@,
            final(self).next_font_id == old(self).next_font_id,
            final(self).buff.pixels().len() == old(self).buff.pixels().len(),
            forall|k: int|
                0 <= k < old(self).buff.pixels().len() ==> #[trigger] final(self).buff.pixels()[k]
                    == if walk_covers(
                    old(self).w as int,
                    old(self).h as int,
                    x0 as int,
                    y0 as int,
                    x1 as int,
                    y1 as int,
                    false,
                    k,
                ) {
                    color
                } else {
                    old(self).buff.pixels()[k]
                },
    {
        self.walk_line(x0, y0, x1, y1, false, color);
    }

    /// Bresenham's line for steep slopes: walks `y` from `y0` to `y1`, painting one pixel per
    /// row (nothing when `y0 > y1`); each coordinate becomes an index as `v as usize` does.
    pub fn draw_line_high(&mut self, x0: i32, y0: i32, x1: i32, y1: i32, color: Color)
        requires
            old(self).wf(),
            walk_fits(y0 as int, x0 as int, y1 as int, x1 as int),
        ensures
            final(self).wf(),
            final(self).w == old(self).w,
            final(self).h == old(self).h,
            final(self).loaded_fonts@ == old(self).loaded_fonts@,
            final(self).next_font_id == old(self).next_font_id,
            final(self).buff.pixels().len() == old(self).buff.pixels().len(),
            forall|k: int|
                0 <= k < old(self).buff.pixels().len() ==> #[trigger] final(self).buff.pixels()[k]
                    == if walk_covers(
                    old(self).w as int,
                    old(self).h as int,
                    y0 as int,
                    x0 as int,
                    y1 as int,
                    x1 as int,
                    true,
                    k,
                ) {
                    color
                } else {
                    old(self).buff.pixels()[k]
                },
    {
        self.walk_line(y0, x0, y1, x1, true, color);
    }

    /// Bresenham's line between `(x0, y0)` and `(x1, y1)`, the coordinates taken as `i32`
    /// (as `v as i32` truncates them): a shallow line is drawn column by column from its left
    /// end, a steep one row by row from its top end.
    pub fn draw_line(&mut self, x0: usize, y0: usize, x1: usize, y1: usize, color: Color)
        requires
            old(self).wf(),
            line_fits(x0 as i32 as int, y0 as i32 as int, x1 as i32 as int, y1 as i32 as int),
        ensures
            final(self).wf(),
            final(self).w == old(self).w,
            final(self).h == old(self).h,
            final(self).loaded_fonts@ == old(self).loaded_fonts@,
            final(self).next_font_id == old(self).next_font_id,
            final(self).buff.pixels().len() == old(self).buff.pixels().len(),
            forall|k: int|
                0 <= k < old(self).buff.pixels().len() ==> #[trigger] final(self).buff.pixels()[k]
                    == if line_covers(
                    old(self).w as int,
                    old(self).h as int,
                    x0 as i32 as int,
                    y0 as i32 as int,
                    x1 as i32 as int,
                    y1 as i32 as int,
                    k,
                ) {
                    color
                } else {
                    old(self).buff.pixels()[k]
                },
    {
        let x0 = x0 as i32;
        let y0 = y0 as i32;
        let x1 = x1 as i32;
        let y1 = y1 as i32;
        let dy = y1 - y0;
        let dx = x1 - x0;
        let ady = if dy < 0 {
            -dy
        } else {
            dy
        };
        let adx = if dx < 0 {
            -dx
        } else {
            dx
        };
        if ady < adx {
            if x0 > x1 {
                self.draw_line_low(x1, y1, x0, y0, color);
            } else {
                self.draw_line_low(x0, y0, x1, y1, color);
            }
        } else {
            if y0 > y1 {
                self.draw_line_high(x1, y1, x0, y0, color);
            } else {
                self.draw_line_high(x0, y0, x1, y1, color);
            }
        }
    }

    /// Fills a circle of radius `r` centred at `(x, y)` (taken as `i32`), row by row: row
    /// `y + dy`, for `dy` from `-r` to `r`, is filled by `set_pixels_between_points` from
    /// `x - s` to `x + s`, with `s` the integer square root of `r * r - dy * dy` and both ends
    /// clamped at zero.
    pub fn draw_circle_fill(&mut self, x: usize, y: usize, r: u16, color: Color)
        requires
            old(self).wf(),
            r * r <= i32::MAX,
            in_i32(x as i32 - r),
            in_i32(x as i32 + r),
            in_i32(y as i32 - r),
            in_i32(y as i32 + r),
        ensures
            final(self).wf(),
            final(self).w == old(self).w,
            final(self).h == old(self).h,
            final(self).loaded_fonts@ == old(self).loaded_fonts@,
            final(self).next_font_id == old(self).next_font_id,
            final(self).buff.pixels().len() == old(self).buff.pixels().len(),
            forall|k: int|
                0 <= k < old(self).buff.pixels().len() ==> #[trigger] final(self).buff.pixels()[k]
                    == if circle_fill_covers(
                    old(self).w as int,
                    old(self).h as int,
                    x as i32 as int,
                    y as i32 as int,
                    r as int,
                    k,
                ) {
                    color
                } else {
                    old(self).buff.pixels()[k]
                },
    {
        let ghost ww = self.w as int;
        let ghost hh = self.h as int;
        let ghost len = self.buff.pixels().len() as int;
        let ghost old_px = self.buff.pixels();
        let ghost cx = x as i32 as int;
        let ghost cy = y as i32 as int;
        let r = r as i32;
        let mut dy: i32 = -r;
        while dy <= r
            invariant
                self.wf(),
                ww == old(self).w,
                hh == old(self).h,
                len == old(self).buff.pixels().len(),
                old_px == old(self).buff.pixels(),
                self.w == old(self).w,
                self.h == old(self).h,
                self.loaded_fonts@ == old(self).loaded_fonts@,
                self.next_font_id == old(self).next_font_id,
                self.buff.pixels().len() == len,
                cx == x as i32 as int,
                cy == y as i32 as int,
                0 <= r <= 0xffff,
                r * r <= i32::MAX,
                in_i32(cx - r),
                in_i32(cx + r),
                in_i32(cy - r),
                in_i32(cy + r),
                -r <= dy <= r + 1,
                forall|k: int|
                    0 <= k < len ==> #[trigger] self.buff.pixels()[k] == if circle_fill_covers_upto(
                        ww,
                        hh,
                        cx,
                        cy,
                        r as int,
                        dy as int,
                        k,
                    ) {
                        color
                    } else {
                        old_px[k]
                    },
            decreases r - dy + 1,
        {
            proof {
                assert(dy * dy <= r * r) by (nonlinear_arith)
                    requires
                        -r <= dy <= r,
                ;
                assert(0 <= dy * dy) by (nonlinear_arith);
            }
            let dx = isqrt_i32(r * r - dy * dy);
            proof {
                lemma_isqrt_is((r * r - dy * dy) as int, dx as int);
                assert(dx <= r) by (nonlinear_arith)
                    requires
                        0 <= dx,
                        dx * dx <= r * r - dy * dy,
                        0 <= dy * dy,
                        0 <= r,
                ;
            }
            let x1 = x as i32 - dx;
            let x2 = x as i32 + dx;
            let ghost p0 = self.buff.pixels();
            self.buff.set_pixels_between_points(
                (y as i32 + dy) as usize,
                (if x1 > 0 {
                    x1
                } else {
                    0
                }) as usize,
                (if x2 > 0 {
                    x2
                } else {
                    0
                }) as usize,
                color,
            );
            proof {
                assert forall|k: int| 0 <= k < len implies #[trigger] self.buff.pixels()[k] == if circle_fill_covers_upto(
                    ww,
                    hh,
                    cx,
                    cy,
                    r as int,
                    dy + 1,
                    k,
                ) {
                    color
                } else {
                    old_px[k]
                } by {
                    assert(circle_row_hit(ww, hh, cx, cy, r as int, dy as int, k) == segment_covers(
                        ww,
                        hh,
                        i32_index(cy + dy),
                        clamp_low(cx - dx),
                        clamp_low(cx + dx),
                        k,
                    ));
                    if circle_row_hit(ww, hh, cx, cy, r as int, dy as int, k) {
                        assert(circle_fill_covers_upto(ww, hh, cx, cy, r as int, dy + 1, k));
                    } else {
                        if circle_fill_covers_upto(ww, hh, cx, cy, r as int, dy + 1, k) {
                            let j = choose|j: int|
                                -r <= j < dy + 1 && #[trigger] circle_row_hit(ww, hh, cx, cy, r as int, j, k);
                            assert(circle_fill_covers_upto(ww, hh, cx, cy, r as int, dy as int, k));
                        }
                        if circle_fill_covers_upto(ww, hh, cx, cy, r as int, dy as int, k) {
                            let j = choose|j: int|
                                -r <= j < dy && #[trigger] circle_row_hit(ww, hh, cx, cy, r as int, j, k);
                            assert(circle_fill_covers_upto(ww, hh, cx, cy, r as int, dy + 1, k));
                        }
                    }
                }
            }
            dy = dy + 1;
        }
    }

    /// Paints the two mirror images `(x + j * cx, y + k * cy)` and `(x + k * cy, y + j * cx)`
    /// of an octant point, given `x0 = x - r` and `y0 = y - r` in wrapping arithmetic.
    fn plot_stroke_pair(
        &mut self,
        x0: usize,
        y0: usize,
        r: i32,
        cx: i32,
        cy: i32,
        j: i32,
        k: i32,
        color: Color,
        Ghost(x): Ghost<int>,
        Ghost(y): Ghost<int>,
    )
        requires
            old(self).wf(),
            j == 1 || j == -1,
            k == 1 || k == -1,
            0 <= cy <= cx <= r,
            in_i32(cx + r),
            in_i32(cy + r),
            x0 == wrap_usize(x - r),
            y0 == wrap_usize(y - r),
        ensures
            final(self).wf(),
            final(self).w == old(self).w,
            final(self).h == old(self).h,
            final(self).loaded_fonts@ == old(self).loaded_fonts@,
            final(self).next_font_id == old(self).next_font_id,
            final(self).buff.pixels().len() == old(self).buff.pixels().len(),
            forall|i: int|
                0 <= i < old(self).buff.pixels().len() ==> #[trigger] final(self).buff.pixels()[i]
                    == if stroke_pair_hit(
                    old(self).w as int,
                    old(self).h as int,
                    x,
                    y,
                    cx as int,
                    cy as int,
                    j as int,
                    k as int,
                    i,
                ) {
                    color
                } else {
                    old(self).buff.pixels()[i]
                },
    {
        let ghost ww = self.w as int;
        let ghost hh = self.h as int;
        let ghost len = self.buff.pixels().len() as int;
        proof {
            assert(j * cx == if j == 1 { cx as int } else { -cx }) by (nonlinear_arith)
                requires
                    j == 1 || j == -1,
            ;
            assert(k * cy == if k == 1 { cy as int } else { -cy }) by (nonlinear_arith)
                requires
                    k == 1 || k == -1,
            ;
        }
        let tx = (j * cx + r) as usize;
        let ty = (k * cy + r) as usize;
        let ax = x0.wrapping_add(tx);
        let ay = y0.wrapping_add(ty);
        let bx = x0.wrapping_add(ty);
        let by = y0.wrapping_add(tx);
        proof {
            lemma_wrapping_add(x0, tx);
            lemma_wrapping_add(y0, ty);
            lemma_wrapping_add(x0, ty);
            lemma_wrapping_add(y0, tx);
            lemma_wrap_add(x - r, tx as int);
            lemma_wrap_add(y - r, ty as int);
            lemma_wrap_add(x - r, ty as int);
            lemma_wrap_add(y - r, tx as int);
            assert(ax == wrap_usize(x + j * cx));
            assert(ay == wrap_usize(y + k * cy));
            assert(bx == wrap_usize(x + k * cy));
            assert(by == wrap_usize(y + j * cx));
        }
        self.buff.set_pixel(ax, ay, color);
        self.buff.set_pixel(bx, by, color);
        proof {
            assert forall|i: int| 0 <= i < len implies #[trigger] self.buff.pixels()[i] == if stroke_pair_hit(
                ww,
                hh,
                x,
                y,
                cx as int,
                cy as int,
                j as int,
                k as int,
                i,
            ) {
                color
            } else {
                old(self).buff.pixels()[i]
            } by {
                if ax < ww && ay < hh {
                    lemma_flat_index_in_bounds(ax as int, ay as int, ww, hh);
                }
                if bx < ww && by < hh {
                    lemma_flat_index_in_bounds(bx as int, by as int, ww, hh);
                }
            }
        }
    }

    /// Outlines a circle of radius `r` (taken as `i32`) around `(x, y)` with the midpoint circle
    /// algorithm: every point `(cx, cy)` it steps through is painted with its eight mirror
    /// images, the coordinates wrapping around as `usize` arithmetic does.
    pub fn draw_circle_stroke(&mut self, x: usize, y: usize, r: usize, color: Color)
        requires
            old(self).wf(),
            stroke_fits(r as i32 as int),
        ensures
            final(self).wf(),
            final(self).w == old(self).w,
            final(self).h == old(self).h,
            final(self).loaded_fonts@ == old(self).loaded_fonts@,
            final(self).next_font_id == old(self).next_font_id,
            final(self).buff.pixels().len() == old(self).buff.pixels().len(),
            forall|k: int|
                0 <= k < old(self).buff.pixels().len() ==> #[trigger] final(self).buff.pixels()[k]
                    == if stroke_covers(
                    old(self).w as int,
                    old(self).h as int,
                    x as int,
                    y as int,
                    r as i32 as int,
                    k,
                ) {
                    color
                } else {
                    old(self).buff.pixels()[k]
                },
    {
        let ghost ww = self.w as int;
        let ghost hh = self.h as int;
        let ghost len = self.buff.pixels().len() as int;
        let ghost old_px = self.buff.pixels();
        let r = r as i32;
        let ghost rr = r as int;
        let mut cx = r;
        let mut cy: i32 = 0;
        let mut p = 1 - r;
        let x0 = x.wrapping_sub(r as usize);
        let y0 = y.wrapping_sub(r as usize);
        proof {
            if r >= 0 {
                lemma_wrapping_sub(x, r as usize);
                lemma_wrapping_sub(y, r as usize);
            }
        }
        let ghost mut i: nat = 0;
        while cx >= cy
            invariant
                self.wf(),
                ww == old(self).w,
                hh == old(self).h,
                len == old(self).buff.pixels().len(),
                old_px == old(self).buff.pixels(),
                self.w == old(self).w,
                self.h == old(self).h,
                self.loaded_fonts@ == old(self).loaded_fonts@,
                self.next_font_id == old(self).next_font_id,
                self.buff.pixels().len() == len,
                rr == r,
                stroke_fits(rr),
                r >= 0 ==> x0 == wrap_usize(x - r),
                r >= 0 ==> y0 == wrap_usize(y - r),
                (cx as int, cy as int, p as int) == stroke_state(rr, i),
                forall|k: int|
                    0 <= k < len ==> #[trigger] self.buff.pixels()[k] == if stroke_covers_upto(
                        ww,
                        hh,
                        x as int,
                        y as int,
                        rr,
                        i as int,
                        k,
                    ) {
                        color
                    } else {
                        old_px[k]
                    },
            decreases cx - cy + 2,
        {
            proof {
                lemma_stroke_state_shape(rr, i);
                assert(stroke_runs(rr, i));
                assert(stroke_step_fits(rr, i));
            }
            let ghost p0 = self.buff.pixels();
            self.plot_stroke_pair(x0, y0, r, cx, cy, 1, 1, color, Ghost(x as int), Ghost(y as int));
            let ghost p1 = self.buff.pixels();
            self.plot_stroke_pair(x0, y0, r, cx, cy, 1, -1, color, Ghost(x as int), Ghost(y as int));
            let ghost p2 = self.buff.pixels();
            self.plot_stroke_pair(x0, y0, r, cx, cy, -1, 1, color, Ghost(x as int), Ghost(y as int));
            let ghost p3 = self.buff.pixels();
            self.plot_stroke_pair(x0, y0, r, cx, cy, -1, -1, color, Ghost(x as int), Ghost(y as int));
            proof {
                assert forall|k: int| 0 <= k < len implies #[trigger] self.buff.pixels()[k] == if stroke_covers_upto(
                    ww,
                    hh,
                    x as int,
                    y as int,
                    rr,
                    i as int + 1,
                    k,
                ) {
                    color
                } else {
                    old_px[k]
                } by {
                    assert(p1[k] == if stroke_pair_hit(ww, hh, x as int, y as int, cx as int, cy as int, 1, 1, k) { color } else { p0[k] });
                    assert(p2[k] == if stroke_pair_hit(ww, hh, x as int, y as int, cx as int, cy as int, 1, -1, k) { color } else { p1[k] });
                    assert(p3[k] == if stroke_pair_hit(ww, hh, x as int, y as int, cx as int, cy as int, -1, 1, k) { color } else { p2[k] });
                    if stroke_hit(ww, hh, x as int, y as int, rr, i as int, k) {
                        assert(stroke_covers_upto(ww, hh, x as int, y as int, rr, i as int + 1, k));
                    } else {
                        if stroke_covers_upto(ww, hh, x as int, y as int, rr, i as int + 1, k) {
                            let j = choose|j: int|
                                0 <= j < i as int + 1 && #[trigger] stroke_hit(ww, hh, x as int, y as int, rr, j, k);
                            assert(stroke_covers_upto(ww, hh, x as int, y as int, rr, i as int, k));
                        }
                        if stroke_covers_upto(ww, hh, x as int, y as int, rr, i as int, k) {
                            let j = choose|j: int|
                                0 <= j < i && #[trigger] stroke_hit(ww, hh, x as int, y as int, rr, j, k);
                            assert(stroke_covers_upto(ww, hh, x as int, y as int, rr, i as int + 1, k));
                        }
                    }
                }
            }
            let was_positive = p > 0;
            cx = cx - if was_positive {
                1
            } else {
                0
            };
            cy = cy + 1;
            p = p + if was_positive {
                1 - 2 * cx + 2 * cy
            } else {
                1 + 2 * cy
            };
            proof {
                i = i + 1;
            }
        }
        proof {
            assert forall|k: int| 0 <= k < len implies stroke_covers_upto(
                ww,
                hh,
                x as int,
                y as int,
                rr,
                i as int,
                k,
            ) == stroke_covers(ww, hh, x as int, y as int, rr, k) by {
                if stroke_covers(ww, hh, x as int, y as int, rr, k) {
                    let j = choose|j: int| #[trigger] stroke_hit(ww, hh, x as int, y as int, rr, j, k);
                    if j >= i {
                        lemma_stroke_stops(rr, i, j as nat);
                    }
                }
            }
        }
    }
}

/// Loading a font and then unloading the id it was given returns that very font and leaves the
/// loaded fonts as they were before the load.
pub proof fn lemma_load_then_unload(fonts: Map<u64, FontManager>, next: u64, font: FontManager)
    requires
        ids_below(fonts, next),
    ensures
        fonts.insert(next, font).contains_key(next),
        fonts.insert(next, font)[next] == font,
        fonts.insert(next, font).remove(next) == fonts,
{
    assert(!fonts.contains_key(next));
    assert(fonts.insert(next, font).remove(next) =~= fonts);
}

/// Loading keeps every font loaded before under its id, and the new id was free.
pub proof fn lemma_load_keeps_others(fonts: Map<u64, FontManager>, next: u64, font: FontManager, k: u64)
    requires
        ids_below(fonts, next),
        fonts.contains_key(k),
    ensures
        k != next,
        fonts.insert(next, font).contains_key(k),
        fonts.insert(next, font)[k] == fonts[k],
{
}

} // verus!
