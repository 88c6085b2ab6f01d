//! A two-dimensional array stored in row-major order.

use vstd::prelude::*;
use vstd::arithmetic::div_mod::lemma_fundamental_div_mod_converse;

verus! {

/// A grid of `width` columns and `height` rows whose elements lie row after
/// row in `linear_array`. Elements contained must implement `Clone`.
#[derive(Debug, Clone, Eq, PartialEq)]
pub struct Array2<T: Clone> {
    pub width: usize,
    pub height: usize,
    pub linear_array: Vec<T>,
}

impl<T: Clone> Array2<T> {
    /// The array holds exactly one element for each of its coordinates.
    pub open spec fn wf(&self) -> bool {
        self.linear_array@.len() == self.width * self.height
    }

    /// Column `c` and row `r` name an element of the array.
    pub open spec fn in_bounds(&self, c: int, r: int) -> bool {
        0 <= c < self.width && 0 <= r < self.height
    }

    /// The place in `linear_array` of the element at column `c` and row `r`.
    pub open spec fn index_of(&self, c: int, r: int) -> int {
        r * self.width + c
    }

    /// The element at column `c` and row `r`.
    pub open spec fn at(&self, c: int, r: int) -> T {
        self.linear_array@[self.index_of(c, r)]
    }

    /// Creates an `Array2` of the given dimensions from elements in row-major
    /// order. The array is well formed iff `linear_array` holds
    /// `width * height` elements.
    pub fn from_row_major(linear_array: Vec<T>, width: usize, height: usize) -> (array: Self)
        ensures
            array.width == width,
            array.height == height,
            array.linear_array == linear_array,
            array.wf() <==> linear_array@.len() == width * height,
    {
        Array2 { linear_array, width, height }
    }

    /// Creates an `Array2` of the given dimensions in which every element is
    /// a clone of `val`.
    pub fn new(val: T, width: usize, height: usize) -> (array: Self)
        requires
            width * height <= usize::MAX,
        ensures
            array.width == width,
            array.height == height,
            array.wf(),
            forall|i: int|
                0 <= i < width * height ==> cloned(val, #[trigger] array.linear_array@[i]),
    {
        let linear_array = vec![val; width * height];
        Array2 { linear_array, width, height }
    }

    /// The place in `linear_array` of the element at column `c` and row `r`,
    /// if that coordinate is in bounds.
    fn get_index(&self, c: usize, r: usize) -> (index: Option<usize>)
        requires
            self.wf(),
        ensures
            index.is_some() <==> self.in_bounds(c as int, r as int),
            index matches Some(i) ==> i == self.index_of(c as int, r as int) && i
                < self.linear_array@.len(),
    {
        if c < self.width && r < self.height {
            proof {
                self.lemma_index_in_range(c as int, r as int);
                assert(self.linear_array.len() <= usize::MAX);
            }
            Some(r * self.width + c)
        } else {
            None
        }
    }

    /// Walks the array in row-major order: row after row, each from left to
    /// right. Every item is `(column, row, &element)`.
    pub fn iter_row_major(&self) -> (items: Vec<(usize, usize, &T)>)
        requires
            self.wf(),
        ensures
            items@.len() == self.linear_array@.len(),
            forall|i: int|
                0 <= i < items@.len() ==> {
                    &&& (#[trigger] items@[i]).0 == i % (self.width as int)
                    &&& items@[i].1 == i / (self.width as int)
                    &&& *items@[i].2 == self.linear_array@[i]
                },
    {
        let mut items: Vec<(usize, usize, &T)> = Vec::new();
        let mut i: usize = 0;
        while i < self.linear_array.len()
            invariant
                self.wf(),
                i <= self.linear_array@.len(),
                items@.len() == i,
                forall|k: int|
                    0 <= k < i ==> {
                        &&& (#[trigger] items@[k]).0 == k % (self.width as int)
                        &&& items@[k].1 == k / (self.width as int)
                        &&& *items@[k].2 == self.linear_array@[k]
                    },
            decreases self.linear_array@.len() - i,
        {
            assert(self.width != 0) by (nonlinear_arith)
                requires
                    i < self.width * self.height,
            ;
            items.push((i % self.width, i / self.width, &self.linear_array[i]));
            i += 1;
        }
        items
    }

    /// Walks the array in column-major order: column after column, each from
    /// top to bottom. Every item is `(column, row, &element)`.
    pub fn iter_col_major(&self) -> (items: Vec<(usize, usize, &T)>)
        requires
            self.wf(),
        ensures
            items@.len() == self.linear_array@.len(),
            forall|i: int|
                0 <= i < items@.len() ==> {
                    &&& (#[trigger] items@[i]).0 == i / (self.height as int)
                    &&& items@[i].1 == i % (self.height as int)
                    &&& self.in_bounds(items@[i].0 as int, items@[i].1 as int)
                    &&& *items@[i].2 == self.at(items@[i].0 as int, items@[i].1 as int)
                },
    {
        let mut items: Vec<(usize, usize, &T)> = Vec::new();
        let mut c: usize = 0;
        while c < self.width
            invariant
                self.wf(),
                c <= self.width,
                items@.len() == c * self.height,
                forall|i: int|
                    0 <= i < items@.len() ==> {
                        &&& (#[trigger] items@[i]).0 == i / (self.height as int)
                        &&& items@[i].1 == i % (self.height as int)
                        &&& self.in_bounds(items@[i].0 as int, items@[i].1 as int)
                        &&& *items@[i].2 == self.at(items@[i].0 as int, items@[i].1 as int)
                    },
            decreases self.width - c,
        {
            let mut r: usize = 0;
            while r < self.height
                invariant
                    self.wf(),
                    c < self.width,
                    r <= self.height,
                    items@.len() == c * self.height + r,
                    forall|i: int|
                        0 <= i < items@.len() ==> {
                            &&& (#[trigger] items@[i]).0 == i / (self.height as int)
                            &&& items@[i].1 == i % (self.height as int)
                            &&& self.in_bounds(items@[i].0 as int, items@[i].1 as int)
                            &&& *items@[i].2 == self.at(items@[i].0 as int, items@[i].1 as int)
                        },
                decreases self.height - r,
            {
                proof {
                    self.lemma_index_in_range(c as int, r as int);
                    assert(self.linear_array.len() <= usize::MAX);
                    lemma_fundamental_div_mod_converse(
                        c * self.height + r,
                        self.height as int,
                        c as int,
                        r as int,
                    );
                }
                items.push((c, r, &self.linear_array[r * self.width + c]));
                r += 1;
            }
            assert((c + 1) * self.height == c * self.height + self.height) by (nonlinear_arith);
            c += 1;
        }
        items
    }

    /// Gets the element at a 2d coordinate `(column, row)`, counted from the
    /// top-left corner, or `None` if the coordinate is out of bounds.
    pub fn get_value(&self, col_row: (usize, usize)) -> (value: Option<&T>)
        requires
            self.wf(),
        ensures
            value.is_some() <==> self.in_bounds(col_row.0 as int, col_row.1 as int),
            value matches Some(element) ==> *element == self.at(
                col_row.0 as int,
                col_row.1 as int,
            ),
    {
        match self.get_index(col_row.0, col_row.1) {
            Some(index) => Some(&self.linear_array[index]),
            None => None,
        }
    }

    /// Returns a mutable reference to the element at column `c` and row `r`,
    /// or `None` if the coordinate is out of bounds. Writing through the
    /// reference changes that element and nothing else.
    pub fn get_mut(&mut self, c: usize, r: usize) -> (value: Option<&mut T>)
        requires
            old(self).wf(),
        ensures
            value.is_some() <==> old(self).in_bounds(c as int, r as int),
            final(self).width == old(self).width,
            final(self).height == old(self).height,
            match value {
                Some(element) => *element == old(self).at(c as int, r as int)
                    && final(self).linear_array@ == old(self).linear_array@.update(
                    old(self).index_of(c as int, r as int),
                    *final(element),
                ),
                None => final(self).linear_array@ == old(self).linear_array@,
            },
    {
        match self.get_index(c, r) {
            Some(index) => Some(&mut self.linear_array[index]),
            None => None,
        }
    }

    /// The number of elements of the array.
    pub fn len(&self) -> (n: usize)
        requires
            self.wf(),
        ensures
            n == self.width * self.height,
            n == self.linear_array@.len(),
    {
        proof {
            assert(self.linear_array.len() <= usize::MAX);
        }
        self.width * self.height
    }

    /// The place of every coordinate in bounds lies inside `linear_array`.
    pub proof fn lemma_index_in_range(&self, c: int, r: int)
        requires
            self.wf(),
            self.in_bounds(c, r),
        ensures
            0 <= r * self.width,
            0 <= self.index_of(c, r) < self.linear_array@.len(),
    {
        let w = self.width as int;
        let h = self.height as int;
        assert(0 <= r * w && r * w + w <= h * w) by (nonlinear_arith)
            requires
                0 <= r < h,
                0 <= w,
        ;
        assert(h * w == w * h) by (nonlinear_arith);
    }
}

} // verus!
