//! A rectangular grid stored row by row in one vector.

use vstd::prelude::*;

verus! {

/// `<[T]>::swap` of std exchanges the elements at `a` and `b` and leaves the
/// rest of the slice alone; it panics when either index is out of bounds.
pub assume_specification<E>[ <[E]>::swap ](s: &mut [E], a: usize, b: usize)
    requires
        a < old(s)@.len(),
        b < old(s)@.len(),
    ensures
        final(s)@ == old(s)@.update(a as int, old(s)@[b as int]).update(b as int, old(s)@[a as int]),
;

/// `core::slice::IterMut`: the iterator that hands out the elements of a
/// slice one by one, each open to change.
#[verifier::external_type_specification]
#[verifier::external_body]
#[verifier::reject_recursive_types(Item)]
pub struct ExIterMut<'a, Item: 'a>(core::slice::IterMut<'a, Item>);

/// `<[T]>::iter_mut` of std hands out every element of the slice once, in
/// order, each open to change. Nothing is claimed of the iterator here.
pub assume_specification<'a, Elem>[ <[Elem]>::iter_mut ](s: &'a mut [Elem]) -> (r:
    core::slice::IterMut<'a, Elem>)
;

/// A `width` x `height` grid. The cell `(x, y)` lives at offset `y * width + x`.
#[derive(Debug)]
pub struct Vec2D<T> {
    width: usize,
    height: usize,
    data: Vec<T>,
}

impl<T> View for Vec2D<T> {
    type V = Seq<T>;

    /// The cells in row-major order.
    closed spec fn view(&self) -> Seq<T> {
        self.data@
    }
}

impl<T: Clone> Clone for Vec2D<T> {
    fn clone(&self) -> (r: Self)
        ensures
            r.spec_width() == self.spec_width(),
            r.spec_height() == self.spec_height(),
            r@.len() == self@.len(),
            forall|i: int| 0 <= i < self@.len() ==> cloned(self@[i], #[trigger] r@[i]),
    {
        Self { width: self.width, height: self.height, data: self.data.clone() }
    }
}

impl<T> Vec2D<T> {
    /// Number of columns.
    pub closed spec fn spec_width(&self) -> nat {
        self.width as nat
    }

    /// Number of rows.
    pub closed spec fn spec_height(&self) -> nat {
        self.height as nat
    }

    /// The width and the height of a grid are machine numbers.
    pub proof fn lemma_dims_fit(&self)
        ensures
            self.spec_width() <= usize::MAX,
            self.spec_height() <= usize::MAX,
    {
    }

    /// The backing vector holds exactly one element per cell.
    pub open spec fn wf(&self) -> bool {
        self@.len() == self.spec_width() * self.spec_height()
    }

    /// Row-major offset of `(x, y)`.
    pub open spec fn offset(&self, x: int, y: int) -> int {
        y * self.spec_width() + x
    }

    /// `(x, y)` names a cell that is present in the backing vector.
    pub open spec fn has(&self, x: int, y: int) -> bool {
        &&& 0 <= x < self.spec_width()
        &&& 0 <= y < self.spec_height()
        &&& self.offset(x, y) < self@.len()
    }

    /// The cell at `(x, y)`; meaningful when `has(x, y)`.
    pub open spec fn at(&self, x: int, y: int) -> T {
        self@[self.offset(x, y)]
    }

    /// In a well-formed grid every in-range coordinate names a cell.
    pub proof fn lemma_has(&self, x: int, y: int)
        requires
            self.wf(),
            0 <= x < self.spec_width(),
            0 <= y < self.spec_height(),
        ensures
            self.has(x, y),
            0 <= self.offset(x, y) < self@.len(),
    {
        let w = self.spec_width() as int;
        let h = self.spec_height() as int;
        assert(y * w + x < h * w) by (nonlinear_arith)
            requires
                0 <= x < w,
                0 <= y < h,
        ;
        assert(0 <= y * w + x) by (nonlinear_arith)
            requires
                0 <= x,
                0 <= y,
                0 <= w,
        ;
        assert(h * w == w * h) by (nonlinear_arith);
    }

    /// A grid whose every cell holds a clone of `default`.
    pub fn filled(width: usize, height: usize, default: T) -> (r: Self) where T: Clone
        requires
            width * height <= usize::MAX,
        ensures
            r.wf(),
            r.spec_width() == width,
            r.spec_height() == height,
            forall|i: int| 0 <= i < r@.len() ==> cloned(default, #[trigger] r@[i]),
    {
        Self { width, height, data: vec![default; width * height] }
    }

    /// The grid over `data`, which holds the cells row by row.
    pub fn from_data(width: usize, height: usize, data: Vec<T>) -> (r: Self)
        requires
            data@.len() == width * height,
        ensures
            r.wf(),
            r.spec_width() == width,
            r.spec_height() == height,
            r@ == data@,
    {
        Self { width, height, data }
    }

    /// Width and height, in that order.
    pub fn dims(&self) -> (r: (usize, usize))
        ensures
            r.0 == self.spec_width(),
            r.1 == self.spec_height(),
    {
        (self.width, self.height)
    }

    /// Number of stored elements.
    pub fn len(&self) -> (r: usize)
        ensures
            r == self@.len(),
    {
        self.data.len()
    }

    /// The backing vector, row by row.
    pub fn data(&self) -> (r: &Vec<T>)
        ensures
            r@ == self@,
    {
        &self.data
    }

    /// The cell at `(x, y)`, or `None` when the coordinate names no cell.
    pub fn get(&self, x: usize, y: usize) -> (r: Option<&T>)
        ensures
            self.has(x as int, y as int) ==> r == Some(&self.at(x as int, y as int)),
            !self.has(x as int, y as int) ==> r is None,
    {
        if x >= self.width || y >= self.height {
            return None;
        }
        let n = self.data.len();
        match self.checked_offset(x, y) {
            Some(i) => {
                if i < n {
                    Some(&self.data[i])
                } else {
                    None
                }
            },
            None => None,
        }
    }

    /// A grid whose every cell holds the default value of `T`.
    pub fn new(width: usize, height: usize) -> (r: Self) where T: Default + Clone
        requires
            width * height <= usize::MAX,
        ensures
            r.wf(),
            r.spec_width() == width,
            r.spec_height() == height,
            exists|d: T|
                call_ensures(T::default, (), d) && forall|i: int|
                    0 <= i < r@.len() ==> cloned(d, #[trigger] r@[i]),
    {
        Self { width, height, data: vec![T::default(); width * height] }
    }

    /// The backing vector, open to change; the grid follows whatever is done to it.
    pub fn data_mut(&mut self) -> (r: &mut Vec<T>)
        ensures
            r@ == old(self)@,
            final(self)@ == final(r)@,
            final(self).spec_width() == old(self).spec_width(),
            final(self).spec_height() == old(self).spec_height(),
    {
        &mut self.data
    }

    /// The cell at `(x, y)`, open to change, or `None` when the coordinate names no cell.
    pub fn get_mut(&mut self, x: usize, y: usize) -> (r: Option<&mut T>)
        ensures
            final(self).spec_width() == old(self).spec_width(),
            final(self).spec_height() == old(self).spec_height(),
            match r {
                Some(cell) => {
                    &&& old(self).has(x as int, y as int)
                    &&& *cell == old(self).at(x as int, y as int)
                    &&& final(self)@ == old(self)@.update(
                        old(self).offset(x as int, y as int),
                        *final(cell),
                    )
                },
                None => !old(self).has(x as int, y as int) && final(self)@ == old(self)@,
            },
    {
        if x >= self.width || y >= self.height {
            return None;
        }
        let n = self.data.len();
        match self.checked_offset(x, y) {
            Some(i) => {
                if i < n {
                    Some(&mut self.data[i])
                } else {
                    None
                }
            },
            None => None,
        }
    }

    /// All cells in row-major order.
    pub fn iter(&self) -> (r: core::slice::Iter<'_, T>)
        ensures
            vstd::std_specs::slice::into_iter_elts(r) =~= self@,
    {
        self.data.iter()
    }

    /// All cells in row-major order, each open to change. The grid keeps its
    /// width and height whatever is written through the iterator.
    pub fn iter_mut(&mut self) -> (r: core::slice::IterMut<'_, T>)
        ensures
            final(self).spec_width() == old(self).spec_width(),
            final(self).spec_height() == old(self).spec_height(),
    {
        self.data.iter_mut()
    }

    /// Exchanges the cells at `pos1` and `pos2`.
    pub fn swap(&mut self, pos1: (usize, usize), pos2: (usize, usize))
        requires
            old(self).has(pos1.0 as int, pos1.1 as int),
            old(self).has(pos2.0 as int, pos2.1 as int),
        ensures
            final(self).spec_width() == old(self).spec_width(),
            final(self).spec_height() == old(self).spec_height(),
            final(self)@ == old(self)@.update(
                old(self).offset(pos1.0 as int, pos1.1 as int),
                old(self).at(pos2.0 as int, pos2.1 as int),
            ).update(
                old(self).offset(pos2.0 as int, pos2.1 as int),
                old(self).at(pos1.0 as int, pos1.1 as int),
            ),
    {
        let idx1 = self.index_of(pos1.0, pos1.1);
        let idx2 = self.index_of(pos2.0, pos2.1);
        self.data.swap(idx1, idx2);
    }

    /// The cell at `(x, y)` of a coordinate that names one.
    pub fn index(&self, x: usize, y: usize) -> (r: &T)
        requires
            self.has(x as int, y as int),
        ensures
            *r == self.at(x as int, y as int),
    {
        let i = self.index_of(x, y);
        &self.data[i]
    }

    /// Overwrites the cell at `(x, y)` of a coordinate that names one.
    pub fn set(&mut self, x: usize, y: usize, value: T)
        requires
            old(self).has(x as int, y as int),
        ensures
            final(self).spec_width() == old(self).spec_width(),
            final(self).spec_height() == old(self).spec_height(),
            final(self)@ == old(self)@.update(old(self).offset(x as int, y as int), value),
    {
        let i = self.index_of(x, y);
        self.data.set(i, value);
    }

    /// Overwrites every cell with a clone of `value`.
    pub fn fill(&mut self, value: T) where T: Clone
        ensures
            final(self).spec_width() == old(self).spec_width(),
            final(self).spec_height() == old(self).spec_height(),
            final(self)@.len() == old(self)@.len(),
            forall|i: int| 0 <= i < final(self)@.len() ==> cloned(value, #[trigger] final(self)@[i]),
    {
        let n = self.data.len();
        let mut i: usize = 0;
        while i < n
            invariant
                i <= n,
                n == self.data@.len(),
                self.width == old(self).width,
                self.height == old(self).height,
                forall|j: int| 0 <= j < i ==> cloned(value, #[trigger] self.data@[j]),
            decreases n - i,
        {
            self.data.set(i, value.clone());
            i += 1;
        }
    }

    /// Row-major offset of a coordinate that names a cell.
    fn index_of(&self, x: usize, y: usize) -> (r: usize)
        requires
            self.has(x as int, y as int),
        ensures
            r == self.offset(x as int, y as int),
            r < self@.len(),
    {
        let n = self.data.len();
        assert(0 <= y * self.width <= y * self.width + x) by (nonlinear_arith)
            requires
                0 <= x,
                0 <= y,
                0 <= self.width,
        ;
        y * self.width + x
    }

    /// `y * width + x` where it fits in a `usize`.
    fn checked_offset(&self, x: usize, y: usize) -> (r: Option<usize>)
        ensures
            match r {
                Some(i) => i == self.offset(x as int, y as int),
                None => self.offset(x as int, y as int) > usize::MAX,
            },
    {
        match y.checked_mul(self.width) {
            Some(row) => row.checked_add(x),
            None => {
                assert(y * self.width + x >= y * self.width);
                None
            },
        }
    }
}

} // verus!
