//! A dense two-dimensional grid stored row by row in one flat vector.

use vstd::prelude::*;

verus! {

/// The flat index of cell `(x, y)` in a row-major grid of width `w`.
pub open spec fn flat_index(x: int, y: int, w: int) -> int {
    x + y * w
}

/// A cell of a `w` by `h` grid lies inside the flat vector of `w * h` cells.
pub proof fn lemma_flat_index_in_bounds(x: int, y: int, w: int, h: int)
    requires
        0 <= x < w,
        0 <= y < h,
    ensures
        0 <= flat_index(x, y, w) < w * h,
        flat_index(x, y, w) < flat_index(0, y + 1, w),
{
    assert(y * w + w <= h * w) by (nonlinear_arith)
        requires 0 <= y < h, 0 < w;
    assert(0 <= y * w) by (nonlinear_arith)
        requires 0 <= y, 0 < w;
    assert((y + 1) * w == y * w + w) by (nonlinear_arith);
    assert(h * w == w * h) by (nonlinear_arith);
}

/// Distinct cells of a grid have distinct flat indices.
pub proof fn lemma_flat_index_injective(x1: int, y1: int, x2: int, y2: int, w: int)
    requires
        0 <= x1 < w,
        0 <= x2 < w,
        0 <= y1,
        0 <= y2,
        flat_index(x1, y1, w) == flat_index(x2, y2, w),
    ensures
        x1 == x2,
        y1 == y2,
{
    if y1 < y2 {
        assert(y1 * w + w <= y2 * w) by (nonlinear_arith)
            requires y1 < y2, w > 0;
    } else if y2 < y1 {
        assert(y2 * w + w <= y1 * w) by (nonlinear_arith)
            requires y2 < y1, w > 0;
    }
}

/// Splitting a flat index into column and row inverts `flat_index`.
pub proof fn lemma_flat_index_split(i: int, w: int)
    requires
        0 <= i,
        0 < w,
    ensures
        0 <= i % w < w,
        0 <= i / w,
        flat_index(i % w, i / w, w) == i,
{
    vstd::arithmetic::div_mod::lemma_fundamental_div_mod(i, w);
    assert(w * (i / w) == (i / w) * w) by (nonlinear_arith);
}

/// A grid of `w` columns and `h` rows; cell `(x, y)` is `data[x + y * w]`.
#[derive(Debug, Clone)]
pub struct MultiVec<T> {
    pub w: usize,
    pub h: usize,
    pub data: Vec<T>,
}

impl<T> MultiVec<T> {
    /// The grid holds exactly one value per cell.
    pub open spec fn wf(&self) -> bool {
        self.data.len() == self.w * self.h
    }

    /// `(x, y)` is a cell of the grid.
    pub open spec fn in_bounds(&self, x: int, y: int) -> bool {
        0 <= x < self.w && 0 <= y < self.h
    }

    /// The value of cell `(x, y)`.
    pub open spec fn at(&self, x: int, y: int) -> T {
        self.data@[flat_index(x, y, self.w as int)]
    }

    /// A grid of the given size built from a flat row-major vector.
    pub fn from_data(data: Vec<T>, w: usize, h: usize) -> (r: Self)
        requires
            data.len() == w * h,
        ensures
            r.wf(),
            r.w == w,
            r.h == h,
            r.data@ == data@,
    {
        MultiVec { w, h, data }
    }
}

impl<T: Clone> MultiVec<T> {
    /// A `w` by `h` grid with every cell a clone of `val`.
    pub fn new(val: T, w: usize, h: usize) -> (r: Self)
        requires
            w * h <= usize::MAX,
        ensures
            r.wf(),
            r.w == w,
            r.h == h,
            forall|i: int| 0 <= i < w * h ==> cloned(val, #[trigger] r.data@[i]),
    {
        MultiVec { w, h, data: vec![val; w * h] }
    }

    /// A grid of the same size as `other` with every cell a clone of `val`.
    pub fn new_like<U>(val: T, other: &MultiVec<U>) -> (r: Self)
        requires
            other.w * other.h <= usize::MAX,
        ensures
            r.wf(),
            r.w == other.w,
            r.h == other.h,
            forall|i: int| 0 <= i < other.w * other.h ==> cloned(val, #[trigger] r.data@[i]),
    {
        MultiVec { w: other.w, h: other.h, data: vec![val; other.w * other.h] }
    }

    /// The flat index of `(x, y)` in a `w` by `h` grid, if the cell exists.
    pub fn checked_xy_to_index(x: usize, y: usize, w: usize, h: usize) -> (r: Option<usize>)
        requires
            w * h <= usize::MAX,
        ensures
            r == (if x < w && y < h {
                Some(flat_index(x as int, y as int, w as int) as usize)
            } else {
                None::<usize>
            }),
    {
        if x >= w || y >= h {
            None
        } else {
            proof {
                lemma_flat_index_in_bounds(x as int, y as int, w as int, h as int);
            }
            Some(x + y * w)
        }
    }

    /// The cell `(x, y)` at flat index `index` of a `w` by `h` grid, if it exists.
    pub fn checked_index_to_xy(index: usize, w: usize, h: usize) -> (r: Option<(usize, usize)>)
        requires
            w * h <= usize::MAX,
        ensures
            index >= w * h ==> r.is_none(),
            index < w * h ==> r.is_some() && r.unwrap().0 < w && r.unwrap().1 < h
                && flat_index(r.unwrap().0 as int, r.unwrap().1 as int, w as int) == index,
    {
        if index >= w * h {
            None
        } else {
            proof {
                assert(w > 0) by (nonlinear_arith)
                    requires index < w * h;
                lemma_flat_index_split(index as int, w as int);
                let y = index as int / w as int;
                if y >= h {
                    assert(y * w >= h * w) by (nonlinear_arith)
                        requires y >= h, w > 0;
                    assert(h * w == w * h) by (nonlinear_arith);
                }
            }
            Some((index % w, index / w))
        }
    }

    /// The flat index of `(x, y)` in this grid, if the cell exists.
    pub fn xy_to_index(&self, x: usize, y: usize) -> (r: Option<usize>)
        requires
            self.wf(),
        ensures
            r == (if self.in_bounds(x as int, y as int) {
                Some(flat_index(x as int, y as int, self.w as int) as usize)
            } else {
                None::<usize>
            }),
    {
        Self::checked_xy_to_index(x, y, self.w, self.h)
    }

    /// The cell at flat index `index` of this grid, if it exists.
    pub fn index_to_xy(&self, index: usize) -> (r: Option<(usize, usize)>)
        requires
            self.wf(),
        ensures
            index >= self.data.len() ==> r.is_none(),
            index < self.data.len() ==> r.is_some() && self.in_bounds(
                r.unwrap().0 as int,
                r.unwrap().1 as int,
            ) && flat_index(r.unwrap().0 as int, r.unwrap().1 as int, self.w as int) == index,
    {
        Self::checked_index_to_xy(index, self.w, self.h)
    }

    /// The value of cell `(x, y)`, if the cell exists.
    pub fn get(&self, x: usize, y: usize) -> (r: Option<&T>)
        requires
            self.wf(),
        ensures
            r == (if self.in_bounds(x as int, y as int) {
                Some(&self.at(x as int, y as int))
            } else {
                None::<&T>
            }),
    {
        match self.xy_to_index(x, y) {
            Some(i) => {
                proof {
                    lemma_flat_index_in_bounds(x as int, y as int, self.w as int, self.h as int);
                }
                Some(&self.data[i])
            },
            None => None,
        }
    }

    /// A mutable reference to cell `(x, y)`, if the cell exists.
    pub fn get_mut(&mut self, x: usize, y: usize) -> (r: Option<&mut T>)
        requires
            old(self).wf(),
        ensures
            final(self).w == old(self).w,
            final(self).h == old(self).h,
            !old(self).in_bounds(x as int, y as int) ==> r.is_none() && *final(self) == *old(self),
            old(self).in_bounds(x as int, y as int) ==> r.is_some() && *r.unwrap() == old(self).at(
                x as int,
                y as int,
            ) && final(self).data@ == old(self).data@.update(
                flat_index(x as int, y as int, old(self).w as int),
                *final(r.unwrap()),
            ),
    {
        match self.xy_to_index(x, y) {
            Some(i) => {
                proof {
                    lemma_flat_index_in_bounds(x as int, y as int, self.w as int, self.h as int);
                }
                Some(&mut self.data[i])
            },
            None => None,
        }
    }

    /// The cells in row-major order.
    pub fn iter(&self) -> (r: &[T])
        ensures
            r@ == self.data@,
    {
        self.data.as_slice()
    }

    /// The cells in row-major order, for changing in place.
    pub fn iter_mut(&mut self) -> (r: &mut [T])
        ensures
            r@ == old(self).data@,
            final(self).w == old(self).w,
            final(self).h == old(self).h,
            final(self).data@ == final(r)@,
    {
        self.data.as_mut_slice()
    }
}

impl<T: Clone> MultiVec<T> {
    /// Each cell with its column and row, in row-major order.
    pub fn enum_iter(&self) -> (r: Vec<(usize, usize, &T)>)
        requires
            self.wf(),
        ensures
            r@.len() == self.data@.len(),
            forall|i: int|
                0 <= i < r@.len() ==> {
                    let (x, y, t) = #[trigger] r@[i];
                    &&& self.in_bounds(x as int, y as int)
                    &&& flat_index(x as int, y as int, self.w as int) == i
                    &&& *t == self.data@[i]
                },
    {
        let mut r: Vec<(usize, usize, &T)> = Vec::new();
        let mut i: usize = 0;
        while i < self.data.len()
            invariant
                self.wf(),
                i <= self.data@.len(),
                r@.len() == i,
                forall|j: int|
                    0 <= j < i ==> {
                        let (x, y, t) = #[trigger] r@[j];
                        &&& self.in_bounds(x as int, y as int)
                        &&& flat_index(x as int, y as int, self.w as int) == j
                        &&& *t == self.data@[j]
                    },
            decreases self.data@.len() - i,
        {
            let (x, y) = match Self::checked_index_to_xy(i, self.w, self.h) {
                Some(p) => p,
                None => (0, 0),
            };
            r.push((x, y, &self.data[i]));
            i += 1;
        }
        r
    }

    /// Each cell's column and row, in row-major order, beside the cells
    /// themselves for changing in place.
    pub fn enum_iter_mut(&mut self) -> (r: (Vec<(usize, usize)>, &mut [T]))
        requires
            old(self).wf(),
        ensures
            r.0@.len() == old(self).data@.len(),
            r.1@ == old(self).data@,
            forall|i: int|
                0 <= i < r.0@.len() ==> {
                    let (x, y) = #[trigger] r.0@[i];
                    &&& old(self).in_bounds(x as int, y as int)
                    &&& flat_index(x as int, y as int, old(self).w as int) == i
                },
            final(self).w == old(self).w,
            final(self).h == old(self).h,
            final(self).data@ == final(r.1)@,
    {
        let mut xy: Vec<(usize, usize)> = Vec::new();
        let mut i: usize = 0;
        while i < self.data.len()
            invariant
                self.wf(),
                i <= self.data@.len(),
                xy@.len() == i,
                forall|j: int|
                    0 <= j < i ==> {
                        let (x, y) = #[trigger] xy@[j];
                        &&& self.in_bounds(x as int, y as int)
                        &&& flat_index(x as int, y as int, self.w as int) == j
                    },
            decreases self.data@.len() - i,
        {
            let p = match Self::checked_index_to_xy(i, self.w, self.h) {
                Some(p) => p,
                None => (0, 0),
            };
            xy.push(p);
            i += 1;
        }
        (xy, self.data.as_mut_slice())
    }

    /// Cell `(x, y)` for changing in place, beside a view of every other cell.
    pub fn isolate<'a>(&'a mut self, x: usize, y: usize) -> (r: Option<(&'a mut T, RestVec<'a, T>)>)
        requires
            old(self).wf(),
        ensures
            !old(self).in_bounds(x as int, y as int) ==> r.is_none() && *final(self) == *old(self),
            old(self).in_bounds(x as int, y as int) ==> r.is_some() && {
                let i = flat_index(x as int, y as int, old(self).w as int);
                let (me, rest) = r.unwrap();
                &&& *me == old(self).data@[i]
                &&& rest.wf()
                &&& rest.w == old(self).w
                &&& rest.h == old(self).h
                &&& rest.before() == old(self).data@.subrange(0, i)
                &&& rest.after() == old(self).data@.subrange(i + 1, old(self).data@.len() as int)
                &&& final(self).w == old(self).w
                &&& final(self).h == old(self).h
                &&& final(self).data@ == final(rest.start)@ + seq![*final(me)] + final(rest.end)@
            },
    {
        if self.get(x, y).is_none() {
            return None;
        }
        proof {
            lemma_flat_index_in_bounds(x as int, y as int, self.w as int, self.h as int);
        }
        let w = self.w;
        let h = self.h;
        let (start, rest) = self.data.as_mut_slice().split_at_mut(x + y * w);
        let (me, end) = rest.split_at_mut(1);
        let me0 = me.first_mut();
        match me0 {
            Some(m) => Some((m, RestVec { start, end, w, h })),
            None => None,
        }
    }
}

/// Every cell of a grid but one, which `MultiVec::isolate` handed out apart.
pub struct RestVec<'a, T> {
    pub start: &'a mut [T],
    pub end: &'a mut [T],
    pub w: usize,
    pub h: usize,
}

impl<'a, T> RestVec<'a, T> {
    /// The cells before the isolated one, in row-major order.
    pub open spec fn before(&self) -> Seq<T> {
        self.start@
    }

    /// The cells after the isolated one, in row-major order.
    pub open spec fn after(&self) -> Seq<T> {
        self.end@
    }

    /// The cells before and after the isolated one fill the grid but for it.
    pub open spec fn wf(&self) -> bool {
        &&& self.before().len() + 1 + self.after().len() == self.w * self.h
        &&& self.w * self.h <= usize::MAX
    }

    /// The value of cell `(x, y)`, if it exists and is not the isolated cell.
    pub fn get(&self, x: usize, y: usize) -> (r: Option<&T>)
        requires
            self.wf(),
        ensures
            r == (if !(x < self.w && y < self.h) || flat_index(x as int, y as int, self.w as int)
                == self.before().len() {
                None::<&T>
            } else if flat_index(x as int, y as int, self.w as int) < self.before().len() {
                Some(&self.before()[flat_index(x as int, y as int, self.w as int)])
            } else {
                Some(&self.after()[flat_index(x as int, y as int, self.w as int) - self.before().len() - 1])
            }),
    {
        if x >= self.w || y >= self.h {
            None
        } else {
            proof {
                lemma_flat_index_in_bounds(x as int, y as int, self.w as int, self.h as int);
            }
            let index = x + y * self.w;
            if index == self.start.len() {
                return None;
            }
            if index < self.start.len() {
                Some(&self.start[index])
            } else {
                Some(&self.end[index - self.start.len() - 1])
            }
        }
    }

    /// A mutable reference to cell `(x, y)`, if it exists and is not the isolated cell.
    pub fn get_mut(&mut self, x: usize, y: usize) -> (r: Option<&mut T>)
        requires
            old(self).wf(),
        ensures
            final(self).w == old(self).w,
            final(self).h == old(self).h,
            final(self).before().len() == old(self).before().len(),
            final(self).after().len() == old(self).after().len(),
            ({
                let i = flat_index(x as int, y as int, old(self).w as int);
                let n = old(self).before().len() as int;
                if !(x < old(self).w && y < old(self).h) || i == n {
                    r.is_none() && final(self).before() == old(self).before() && final(self).after()
                        == old(self).after()
                } else if i < n {
                    r.is_some() && *r.unwrap() == old(self).before()[i] && final(self).before()
                        == old(self).before().update(i, *final(r.unwrap())) && final(self).after()
                        == old(self).after()
                } else {
                    r.is_some() && *r.unwrap() == old(self).after()[i - n - 1] && final(self).after()
                        == old(self).after().update(i - n - 1, *final(r.unwrap()))
                        && final(self).before() == old(self).before()
                }
            }),
    {
        if x >= self.w || y >= self.h {
            None
        } else {
            proof {
                lemma_flat_index_in_bounds(x as int, y as int, self.w as int, self.h as int);
            }
            let index = x + y * self.w;
            let len_start = self.start.len();
            if index == len_start {
                return None;
            }
            if index < len_start {
                Some(&mut self.start[index])
            } else {
                Some(&mut self.end[index - len_start - 1])
            }
        }
    }
}

impl<T> Default for MultiVec<T> {
    fn default() -> (r: Self)
        ensures
            r.wf(),
            r.w == 0,
            r.h == 0,
            r.data@.len() == 0,
    {
        MultiVec { w: 0, h: 0, data: Vec::new() }
    }
}

} // verus!
