use vstd::prelude::*;

use crate::error::BufferError;

verus! {

/// Flat index of the cell `(x, y)` in a row-major matrix of width `w`.
pub open spec fn flat_index(x: int, y: int, w: int) -> int {
    y * w + x
}

/// Two in-row cells of a row-major matrix share a flat index only if they are the same cell.
pub proof fn lemma_flat_index_injective(w: int, x1: int, y1: int, x2: int, y2: int)
    requires
        0 <= x1 < w,
        0 <= x2 < w,
        flat_index(x1, y1, w) == flat_index(x2, y2, w),
    ensures
        x1 == x2,
        y1 == y2,
{
    if y1 < y2 {
        assert(y1 * w + w <= y2 * w) by (nonlinear_arith)
            requires
                y1 < y2,
                w > 0,
        ;
    } else if y2 < y1 {
        assert(y2 * w + w <= y1 * w) by (nonlinear_arith)
            requires
                y2 < y1,
                w > 0,
        ;
    }
}

/// A cell inside a `w` x `h` matrix has a flat index below `w * h`.
pub proof fn lemma_flat_index_in_bounds(x: int, y: int, w: int, h: int)
    requires
        0 <= x < w,
        0 <= y < h,
    ensures
        0 <= flat_index(x, y, w) < w * h,
        flat_index(x, y, w) + (w - x) <= w * h,
{
    assert(y * w + w <= w * h) by (nonlinear_arith)
        requires
            0 <= y < h,
            w > 0,
    ;
    assert(0 <= y * w) by (nonlinear_arith)
        requires
            0 <= y,
            w > 0,
    ;
}

/// Every cell of row `y` of a `w` x `h` matrix has a flat index inside `[0, w * h]`.
pub proof fn lemma_row_in_bounds(y: int, w: int, h: int)
    requires
        0 <= y < h,
        0 <= w,
    ensures
        0 <= flat_index(0, y, w),
        flat_index(w, y, w) <= w * h,
{
    assert(y * w + w <= w * h) by (nonlinear_arith)
        requires
            0 <= y < h,
            w >= 0,
    ;
    assert(0 <= y * w) by (nonlinear_arith)
        requires
            0 <= y,
            w >= 0,
    ;
}

/// A fixed-size 2D matrix of `T`, stored row by row in one flat vector.
///
/// The buffer is well formed when `w * h == buff.len()`; every operation that writes or
/// reads by coordinates relies on it.
#[derive(Clone, Debug)]
pub struct Buffer<T> {
    pub w: usize,
    pub h: usize,
    pub buff: Vec<T>,
}

/// Iterator-like reader that hands out the rows of a buffer, one `w`-long line at a time.
pub struct BufferIterator<T> {
    pub w: usize,
    pub position: usize,
    pub data: Vec<T>,
}

impl<T: Default> Default for Buffer<T> {
    fn default() -> (b: Self)
        ensures
            b.w == 0,
            b.h == 0,
            b.buff@.len() == 0,
    {
        Buffer { w: 0, h: 0, buff: Vec::new() }
    }
}

impl<T> Buffer<T> {
    /// The dimensions agree with the storage.
    pub open spec fn wf(&self) -> bool {
        self.buff@.len() == self.w * self.h
    }

    /// The element at `(x, y)`.
    pub open spec fn at(&self, x: int, y: int) -> T {
        self.buff@[flat_index(x, y, self.w as int)]
    }
}

/// Reading a cell after writing it gives back the written value, and every other cell of the
/// buffer keeps its value: the effect of `set` on a well-formed buffer, seen through `at`.
pub proof fn lemma_read_after_write<T>(b: Buffer<T>, x: int, y: int, v: T, nb: Buffer<T>)
    requires
        b.wf(),
        0 <= x < b.w,
        0 <= y < b.h,
        nb.w == b.w,
        nb.h == b.h,
        nb.buff@ == b.buff@.update(flat_index(x, y, b.w as int), v),
    ensures
        nb.wf(),
        nb.at(x, y) == v,
        forall|x2: int, y2: int|
            0 <= x2 < b.w && 0 <= y2 < b.h && (x2 != x || y2 != y) ==> #[trigger] nb.at(x2, y2)
                == b.at(x2, y2),
{
    lemma_flat_index_in_bounds(x, y, b.w as int, b.h as int);
    assert forall|x2: int, y2: int|
        0 <= x2 < b.w && 0 <= y2 < b.h && (x2 != x || y2 != y) implies #[trigger] nb.at(x2, y2)
        == b.at(x2, y2) by {
        lemma_flat_index_in_bounds(x2, y2, b.w as int, b.h as int);
        if flat_index(x2, y2, b.w as int) == flat_index(x, y, b.w as int) {
            lemma_flat_index_injective(b.w as int, x2, y2, x, y);
        }
    }
}

impl<T: Default + Clone> Buffer<T> {
    /// A `w` x `h` buffer whose every element is a clone of `T::default()`.
    pub fn new(w: usize, h: usize) -> (b: Self)
        requires
            w * h <= usize::MAX,
        ensures
            b.w == w,
            b.h == h,
            b.wf(),
            exists|d: T|
                call_ensures(T::default, (), d) && forall|i: int|
                    0 <= i < b.buff@.len() ==> cloned(d, #[trigger] b.buff@[i]),
    {
        let d = T::default();
        let buff = vec![d; w * h];
        Buffer { buff, w, h }
    }
}

impl<T: Clone> Buffer<T> {
    /// A `w` x `h` buffer whose every element is a clone of `default_element`.
    pub fn from_element(w: usize, h: usize, default_element: T) -> (b: Self)
        requires
            w * h <= usize::MAX,
        ensures
            b.w == w,
            b.h == h,
            b.wf(),
            forall|i: int| 0 <= i < b.buff@.len() ==> cloned(default_element, #[trigger] b.buff@[i]),
    {
        let buff = vec![default_element; w * h];
        Buffer { buff, w, h }
    }
}

impl<T: Clone> Buffer<T> {
    /// The element at `(x, y)`, cloned; `None` when `x >= w` or `y >= h`.
    pub fn get_cloned(&self, x: usize, y: usize) -> (r: Option<T>)
        ensures
            ({
                let i = flat_index(x as int, y as int, self.w as int);
                if x < self.w && y < self.h && i < self.buff@.len() {
                    r is Some && cloned(self.buff@[i], r->0)
                } else {
                    r is None
                }
            }),
            self.wf() ==> (r is Some <==> x < self.w && y < self.h),
    {
        self.get(x, y).cloned()
    }

    /// The element at `(x, y)`, cloned, for coordinates inside a well-formed buffer.
    pub fn get_unchecked_cloned(&self, x: usize, y: usize) -> (r: T)
        requires
            self.wf(),
            x < self.w,
            y < self.h,
        ensures
            cloned(self.at(x as int, y as int), r),
    {
        self.get_unchecked(x, y).clone()
    }

    /// Consumes the buffer and returns a reader over its rows.
    pub fn lines(self) -> (it: BufferIterator<T>)
        ensures
            it.w == self.w,
            it.position == 0,
            it.data@ == self.buff@,
    {
        BufferIterator { w: self.w, data: self.buff, position: 0 }
    }
}

impl<T> Buffer<T> {
    /// The element at `(x, y)` of a well-formed buffer, without a bounds check at run time.
    pub fn get_unchecked(&self, x: usize, y: usize) -> (r: &T)
        requires
            self.wf(),
            x < self.w,
            y < self.h,
        ensures
            *r == self.at(x as int, y as int),
    {
        proof {
            lemma_flat_index_in_bounds(x as int, y as int, self.w as int, self.h as int);
            assert(self.buff.len() == self.buff@.len());
        }
        &self.buff[Self::idx(x, y, self.w)]
    }

    /// The element at `(x, y)`, or `None` when `x >= w` or `y >= h`.
    ///
    /// On a buffer whose storage is shorter than its dimensions say, a cell whose flat index
    /// lies past the end of the storage gives `None` as well.
    pub fn get(&self, x: usize, y: usize) -> (r: Option<&T>)
        ensures
            ({
                let i = flat_index(x as int, y as int, self.w as int);
                if x < self.w && y < self.h && i < self.buff@.len() {
                    r == Some(&self.buff@[i])
                } else {
                    r is None
                }
            }),
            self.wf() ==> (r is Some <==> x < self.w && y < self.h),
    {
        if x >= self.w || y >= self.h {
            return None;
        }
        proof {
            if self.wf() {
                lemma_flat_index_in_bounds(x as int, y as int, self.w as int, self.h as int);
            }
            assert(self.buff@.len() == self.buff.len());
        }
        let row = match y.checked_mul(self.w) {
            Some(row) => row,
            None => return None,
        };
        let i = match row.checked_add(x) {
            Some(i) => i,
            None => return None,
        };
        if i < self.buff.len() {
            Some(&self.buff[i])
        } else {
            None
        }
    }

    /// Builds a buffer of width `w` from the given elements; the height is the number of
    /// elements divided by `w`.
    ///
    /// Fails with `EmptyIteratorOnInit` when there are no elements, and with `InvalidSize`
    /// when their number is not a multiple of `w` (a zero `w` never divides a non-zero count).
    pub fn try_from_iterator(w: usize, items: Vec<T>) -> (r: Result<Self, BufferError>)
        ensures
            items@.len() == 0 ==> r == Err::<Self, BufferError>(BufferError::EmptyIteratorOnInit {  }),
            items@.len() != 0 && (w == 0 || items@.len() % (w as nat) != 0) ==> r == Err::<
                Self,
                BufferError,
            >(BufferError::InvalidSize { w, iterator_size: items@.len() as usize }),
            items@.len() != 0 && w != 0 && items@.len() % (w as nat) == 0 ==> (r matches Ok(b) && b.w
                == w && b.h == items@.len() / (w as nat) && b.buff@ == items@ && b.wf()),
    {
        let buff = items;
        if buff.is_empty() {
            return Err(BufferError::EmptyIteratorOnInit {  });
        }
        if !buff.len().is_multiple_of(w) {
            return Err(BufferError::InvalidSize { w, iterator_size: buff.len() });
        }
        let h = buff.len() / w;
        proof {
            let n = buff@.len() as int;
            assert(n == (w as int) * (n / (w as int))) by (nonlinear_arith)
                requires
                    w > 0,
                    n % (w as int) == 0,
            ;
        }
        Ok(Buffer { w, h, buff })
    }

    /// The flat index `y * w + x` of the cell `(x, y)` in a matrix of width `w`.
    pub fn idx(x: usize, y: usize, w: usize) -> (i: usize)
        requires
            flat_index(x as int, y as int, w as int) <= usize::MAX,
        ensures
            i == flat_index(x as int, y as int, w as int),
    {
        proof {
            assert(0 <= y * w) by (nonlinear_arith)
                requires
                    y >= 0,
                    w >= 0,
            ;
        }
        y * w + x
    }

    /// Writes `value` at `(x, y)` of a well-formed buffer, without a bounds check at run time.
    pub fn set_unchecked(&mut self, x: usize, y: usize, value: T)
        requires
            old(self).wf(),
            x < old(self).w,
            y < old(self).h,
        ensures
            final(self).w == old(self).w,
            final(self).h == old(self).h,
            final(self).buff@ == old(self).buff@.update(
                flat_index(x as int, y as int, old(self).w as int),
                value,
            ),
    {
        proof {
            lemma_flat_index_in_bounds(x as int, y as int, self.w as int, self.h as int);
            assert(self.buff.len() == self.buff@.len());
        }
        let i = Self::idx(x, y, self.w);
        self.buff.set(i, value);
    }

    /// Writes `value` at `(x, y)` when the coordinates lie inside the buffer and reports
    /// whether it did; the buffer is left unchanged otherwise.
    pub fn set(&mut self, x: usize, y: usize, value: T) -> (written: bool)
        requires
            old(self).wf(),
        ensures
            final(self).wf(),
            written == (x < old(self).w && y < old(self).h),
            final(self).w == old(self).w,
            final(self).h == old(self).h,
            written ==> final(self).buff@ == old(self).buff@.update(
                flat_index(x as int, y as int, old(self).w as int),
                value,
            ),
            !written ==> final(self).buff@ == old(self).buff@,
    {
        if x >= self.w || y >= self.h {
            return false;
        }
        proof {
            lemma_flat_index_in_bounds(x as int, y as int, self.w as int, self.h as int);
        }
        self.set_unchecked(x, y, value);
        true
    }
}

impl<T: Clone> BufferIterator<T> {
    /// The next `w`-long line, cloned from the data, or `None` once fewer than `w` elements
    /// remain (the position then moves to the end of the data). A zero-width reader hands out
    /// an empty line on every call.
    pub fn next(&mut self) -> (line: Option<Vec<T>>)
        ensures
            final(self).w == old(self).w,
            final(self).data@ == old(self).data@,
            ({
                let p = old(self).position as int;
                let w = old(self).w as int;
                let n = old(self).data@.len() as int;
                if w == 0 || p + w <= n {
                    &&& line matches Some(l) && l@.len() == w && forall|i: int|
                        0 <= i < w ==> cloned(old(self).data@[p + i], #[trigger] l@[i])
                    &&& final(self).position == p + w
                } else {
                    &&& line is None
                    &&& final(self).position == if p < n {
                        n
                    } else {
                        p
                    }
                }
            }),
    {
        let mut line: Vec<T> = Vec::new();
        let mut i: usize = 0;
        let ghost p0 = self.position as int;
        while i < self.w
            invariant
                self.w == old(self).w,
                self.data@ == old(self).data@,
                0 <= i <= self.w,
                self.position == p0 + i,
                p0 == old(self).position,
                p0 + i <= self.data@.len() || i == 0,
                line@.len() == i,
                forall|j: int| 0 <= j < i ==> cloned(self.data@[p0 + j], #[trigger] line@[j]),
            decreases self.w - i,
        {
            if self.position >= self.data.len() {
                return None;
            }
            line.push(self.data[self.position].clone());
            self.position = self.position + 1;
            i = i + 1;
        }
        Some(line)
    }
}

} // verus!
