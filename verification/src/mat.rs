//! The matrix: storage, shape and bounds-checked access.

use vstd::prelude::*;
use crate::grid::{
    Grid, cell_of, is_image, is_partial, is_product, is_sum, lemma_offset_in_bounds,
    lemma_partial_grows, lemma_partial_starts,
};

verus! {

/// A dense matrix that owns its elements in one row-major buffer.
pub struct Mat<T> {
    rows: usize,
    cols: usize,
    mat: Vec<T>,
}

impl<T> View for Mat<T> {
    type V = Grid<T>;

    closed spec fn view(&self) -> Grid<T> {
        Grid { rows: self.rows as nat, cols: self.cols as nat, cells: self.mat@ }
    }
}

impl<T> Mat<T> {
    #[verifier::type_invariant]
    spec fn filled(self) -> bool {
        self.mat@.len() == self.rows * self.cols
    }

    /// A matrix of the given shape over `data`, read in row-major order.
    pub fn new(rows: usize, cols: usize, data: Vec<T>) -> (m: Mat<T>)
        requires
            data@.len() == rows * cols,
        ensures
            m@ == (Grid { rows: rows as nat, cols: cols as nat, cells: data@ }),
    {
        Mat { rows, cols, mat: data }
    }

    /// The number of rows. Every matrix fills its shape, and its elements are
    /// no more than the machine can count.
    pub fn rows(&self) -> (n: usize)
        ensures
            n == self@.rows,
            self@.wf(),
            self@.rows * self@.cols <= usize::MAX,
    {
        proof {
            use_type_invariant(self);
            assert(self.mat@.len() == self.mat.len());
        }
        self.rows
    }

    /// The number of columns. Every matrix fills its shape, and its elements are
    /// no more than the machine can count.
    pub fn cols(&self) -> (n: usize)
        ensures
            n == self@.cols,
            self@.wf(),
            self@.rows * self@.cols <= usize::MAX,
    {
        proof {
            use_type_invariant(self);
            assert(self.mat@.len() == self.mat.len());
        }
        self.cols
    }

    /// The element at `(row, col)`, or nothing where the place lies outside the shape.
    pub fn get(&self, row: usize, col: usize) -> (out: Option<&T>)
        ensures
            self@.wf(),
            out == if self@.in_range(row as int, col as int) {
                Some(&self@.at(row as int, col as int))
            } else {
                None
            },
    {
        proof {
            use_type_invariant(self);
        }
        if row < self.rows && col < self.cols {
            proof {
                lemma_offset_in_bounds(self.rows as nat, self.cols as nat, row as int, col as int);
                assert(self.mat@.len() == self.mat.len());
            }
            let index: usize = row * self.cols + col;
            Some(&self.mat[index])
        } else {
            None
        }
    }

    /// Writes `value` at `(row, col)` and says whether it did; a place outside the
    /// shape leaves the matrix as it was.
    pub fn set(&mut self, row: usize, col: usize, value: T) -> (done: bool)
        ensures
            final(self)@.wf(),
            done == old(self)@.in_range(row as int, col as int),
            final(self)@ == if done {
                old(self)@.with_cell(row as int, col as int, value)
            } else {
                old(self)@
            },
    {
        proof {
            use_type_invariant(&*self);
        }
        if row < self.rows && col < self.cols {
            proof {
                lemma_offset_in_bounds(self.rows as nat, self.cols as nat, row as int, col as int);
                assert(self.mat@.len() == self.mat.len());
            }
            let index: usize = row * self.cols + col;
            self.mat[index] = value;
            true
        } else {
            false
        }
    }
}

impl<T: Copy> Mat<T> {
    /// The elementwise sum of two matrices of one shape, each element made by
    /// `plus`; nothing where the shapes differ.
    pub fn add<P: Fn(T, T) -> T>(&self, other: &Mat<T>, plus: P) -> (out: Option<Mat<T>>)
        requires
            forall|x: T, y: T| call_requires(plus, (x, y)),
        ensures
            out.is_some() == self@.same_shape(other@),
            out matches Some(m) ==> is_sum(self@, other@, m@, plus),
    {
        proof {
            use_type_invariant(self);
            use_type_invariant(other);
            assert(self.mat@.len() == self.mat.len());
        }
        if self.rows != other.rows || self.cols != other.cols {
            return None;
        }
        let ghost cols = self.cols as nat;
        let mut result_data: Vec<T> = Vec::with_capacity(self.rows * self.cols);
        let mut row: usize = 0;
        while row < self.rows
            invariant
                row <= self.rows,
                cols == self.cols,
                self@.wf(),
                other@.wf(),
                self@.same_shape(other@),
                forall|x: T, y: T| call_requires(plus, (x, y)),
                result_data@.len() == row * cols,
                forall|r: int, c: int|
                    0 <= r < row && 0 <= c < cols ==> call_ensures(
                        plus,
                        (self@.at(r, c), other@.at(r, c)),
                        #[trigger] cell_of(result_data@, cols, r, c),
                    ),
            decreases self.rows - row,
        {
            let mut col: usize = 0;
            while col < self.cols
                invariant
                    row < self.rows,
                    col <= self.cols,
                    cols == self.cols,
                    self@.wf(),
                    other@.wf(),
                    self@.same_shape(other@),
                    forall|x: T, y: T| call_requires(plus, (x, y)),
                    result_data@.len() == row * cols + col,
                    forall|r: int, c: int|
                        (0 <= r < row && 0 <= c < cols) || (r == row && 0 <= c < col)
                            ==> call_ensures(
                            plus,
                            (self@.at(r, c), other@.at(r, c)),
                            #[trigger] cell_of(result_data@, cols, r, c),
                        ),
                decreases self.cols - col,
            {
                match (self.get(row, col), other.get(row, col)) {
                    (Some(element1), Some(element2)) => {
                        let sum = plus(*element1, *element2);
                        let ghost before = result_data@;
                        result_data.push(sum);
                        proof {
                            assert forall|r: int, c: int|
                                (0 <= r < row && 0 <= c < cols) || (r == row && 0 <= c < col + 1)
                                implies call_ensures(
                                plus,
                                (self@.at(r, c), other@.at(r, c)),
                                #[trigger] cell_of(result_data@, cols, r, c),
                            ) by {
                                if r == row && c == col {
                                } else {
                                    if r < row {
                                        lemma_offset_in_bounds(row as nat, cols, r, c);
                                    }
                                    assert(cell_of(result_data@, cols, r, c) == cell_of(before, cols, r, c));
                                }
                            }
                        }
                    },
                    _ => {
                        return None;
                    },
                }
                col += 1;
            }
            proof {
                assert((row + 1) * cols == row * cols + cols) by (nonlinear_arith);
            }
            row += 1;
        }
        let m = Mat::new(self.rows, self.cols, result_data);
        proof {
            assert forall|r: int, c: int| m@.in_range(r, c) implies call_ensures(
                plus,
                (self@.at(r, c), other@.at(r, c)),
                #[trigger] m@.at(r, c),
            ) by {
                assert(m@.at(r, c) == cell_of(result_data@, cols, r, c));
            }
        }
        Some(m)
    }

    /// The matrix product of `self` (m by n) and `other` (n by p), m by p; nothing
    /// where the columns of `self` are not as many as the rows of `other`. Each
    /// element starts at `zero` and takes up the products made by `times`, added
    /// by `plus` in increasing order of the inner index.
    pub fn dot<M: Fn(T, T) -> T, P: Fn(T, T) -> T>(
        &self,
        other: &Mat<T>,
        zero: T,
        times: M,
        plus: P,
    ) -> (out: Option<Mat<T>>)
        requires
            forall|x: T, y: T| call_requires(times, (x, y)),
            forall|x: T, y: T| call_requires(plus, (x, y)),
            self@.cols == other@.rows ==> self@.rows * other@.cols <= usize::MAX,
        ensures
            out.is_some() == (self@.cols == other@.rows),
            out matches Some(m) ==> is_product(self@, other@, m@, zero, times, plus),
    {
        proof {
            use_type_invariant(self);
            use_type_invariant(other);
        }
        if self.cols != other.rows {
            return None;
        }
        let ghost cols = other.cols as nat;
        let mut result_data: Vec<T> = Vec::with_capacity(self.rows * other.cols);
        let mut i: usize = 0;
        while i < self.rows
            invariant
                i <= self.rows,
                cols == other.cols,
                self@.wf(),
                other@.wf(),
                self@.cols == other@.rows,
                self@.rows == self.rows,
                self@.cols == self.cols,
                other@.cols == other.cols,
                forall|x: T, y: T| call_requires(times, (x, y)),
                forall|x: T, y: T| call_requires(plus, (x, y)),
                result_data@.len() == i * cols,
                forall|r: int, c: int|
                    0 <= r < i && 0 <= c < cols ==> is_partial(
                        self@,
                        other@,
                        r,
                        c,
                        self@.cols,
                        #[trigger] cell_of(result_data@, cols, r, c),
                        zero,
                        times,
                        plus,
                    ),
            decreases self.rows - i,
        {
            let mut j: usize = 0;
            while j < other.cols
                invariant
                    i < self.rows,
                    j <= other.cols,
                    cols == other.cols,
                    self@.wf(),
                    other@.wf(),
                    self@.cols == other@.rows,
                    self@.rows == self.rows,
                    self@.cols == self.cols,
                    other@.cols == other.cols,
                    forall|x: T, y: T| call_requires(times, (x, y)),
                    forall|x: T, y: T| call_requires(plus, (x, y)),
                    result_data@.len() == i * cols + j,
                    forall|r: int, c: int|
                        (0 <= r < i && 0 <= c < cols) || (r == i && 0 <= c < j) ==> is_partial(
                            self@,
                            other@,
                            r,
                            c,
                            self@.cols,
                            #[trigger] cell_of(result_data@, cols, r, c),
                            zero,
                            times,
                            plus,
                        ),
                decreases other.cols - j,
            {
                let mut sum = zero;
                let mut k: usize = 0;
                proof {
                    lemma_partial_starts(self@, other@, i as int, j as int, zero, times, plus);
                }
                while k < self.cols
                    invariant
                        i < self.rows,
                        j < other.cols,
                        k <= self.cols,
                        self@.wf(),
                        other@.wf(),
                        self@.cols == other@.rows,
                        self@.rows == self.rows,
                        self@.cols == self.cols,
                        other@.cols == other.cols,
                        forall|x: T, y: T| call_requires(times, (x, y)),
                        forall|x: T, y: T| call_requires(plus, (x, y)),
                        is_partial(self@, other@, i as int, j as int, k as nat, sum, zero, times, plus),
                    decreases self.cols - k,
                {
                    match (self.get(i, k), other.get(k, j)) {
                        (Some(element1), Some(element2)) => {
                            let term = times(*element1, *element2);
                            let next = plus(sum, term);
                            proof {
                                lemma_partial_grows(
                                    self@,
                                    other@,
                                    i as int,
                                    j as int,
                                    k as nat,
                                    sum,
                                    term,
                                    next,
                                    zero,
                                    times,
                                    plus,
                                );
                            }
                            sum = next;
                        },
                        _ => {
                            return None;
                        },
                    }
                    k += 1;
                }
                let ghost before = result_data@;
                result_data.push(sum);
                proof {
                    assert forall|r: int, c: int|
                        (0 <= r < i && 0 <= c < cols) || (r == i && 0 <= c < j + 1) implies is_partial(
                        self@,
                        other@,
                        r,
                        c,
                        self@.cols,
                        #[trigger] cell_of(result_data@, cols, r, c),
                        zero,
                        times,
                        plus,
                    ) by {
                        if r == i && c == j {
                        } else {
                            if r < i {
                                lemma_offset_in_bounds(i as nat, cols, r, c);
                            }
                            assert(cell_of(result_data@, cols, r, c) == cell_of(before, cols, r, c));
                        }
                    }
                }
                j += 1;
            }
            proof {
                assert((i + 1) * cols == i * cols + cols) by (nonlinear_arith);
            }
            i += 1;
        }
        let m = Mat::new(self.rows, other.cols, result_data);
        proof {
            assert forall|r: int, c: int| m@.in_range(r, c) implies is_partial(
                self@,
                other@,
                r,
                c,
                self@.cols,
                #[trigger] m@.at(r, c),
                zero,
                times,
                plus,
            ) by {
                assert(m@.at(r, c) == cell_of(result_data@, cols, r, c));
            }
        }
        Some(m)
    }

    /// A new matrix of the same shape in which each element is what `squash`
    /// makes of the element at the same place. The matrix itself stays as it is.
    pub fn sigmoid<S: Fn(T) -> T>(&mut self, squash: S) -> (out: Option<Mat<T>>)
        requires
            forall|x: T| call_requires(squash, (x,)),
        ensures
            final(self)@ == old(self)@,
            out matches Some(m) && is_image(old(self)@, m@, squash),
    {
        proof {
            use_type_invariant(&*self);
            assert(self.mat@.len() == self.mat.len());
        }
        let ghost cols = self.cols as nat;
        let mut result_data: Vec<T> = Vec::with_capacity(self.rows * self.cols);
        let mut i: usize = 0;
        while i < self.rows
            invariant
                i <= self.rows,
                cols == self.cols,
                self@.wf(),
                self@ == old(self)@,
                self@.rows == self.rows,
                forall|x: T| call_requires(squash, (x,)),
                result_data@.len() == i * cols,
                forall|r: int, c: int|
                    0 <= r < i && 0 <= c < cols ==> call_ensures(
                        squash,
                        (self@.at(r, c),),
                        #[trigger] cell_of(result_data@, cols, r, c),
                    ),
            decreases self.rows - i,
        {
            let mut j: usize = 0;
            while j < self.cols
                invariant
                    i < self.rows,
                    j <= self.cols,
                    cols == self.cols,
                    self@.wf(),
                    self@ == old(self)@,
                    self@.rows == self.rows,
                    forall|x: T| call_requires(squash, (x,)),
                    result_data@.len() == i * cols + j,
                    forall|r: int, c: int|
                        (0 <= r < i && 0 <= c < cols) || (r == i && 0 <= c < j) ==> call_ensures(
                            squash,
                            (self@.at(r, c),),
                            #[trigger] cell_of(result_data@, cols, r, c),
                        ),
                decreases self.cols - j,
            {
                let value = squash(*self.get(i, j).unwrap());
                let ghost before = result_data@;
                result_data.push(value);
                proof {
                    assert forall|r: int, c: int|
                        (0 <= r < i && 0 <= c < cols) || (r == i && 0 <= c < j + 1) implies call_ensures(
                        squash,
                        (self@.at(r, c),),
                        #[trigger] cell_of(result_data@, cols, r, c),
                    ) by {
                        if r == i && c == j {
                        } else {
                            if r < i {
                                lemma_offset_in_bounds(i as nat, cols, r, c);
                            }
                            assert(cell_of(result_data@, cols, r, c) == cell_of(before, cols, r, c));
                        }
                    }
                }
                j += 1;
            }
            proof {
                assert((i + 1) * cols == i * cols + cols) by (nonlinear_arith);
            }
            i += 1;
        }
        let m = Mat::new(self.rows, self.cols, result_data);
        proof {
            assert forall|r: int, c: int| m@.in_range(r, c) implies call_ensures(
                squash,
                (self@.at(r, c),),
                #[trigger] m@.at(r, c),
            ) by {
                assert(m@.at(r, c) == cell_of(result_data@, cols, r, c));
            }
        }
        Some(m)
    }
}

} // verus!
