//! The mathematical model of a matrix.

use vstd::prelude::*;
use vstd::arithmetic::div_mod::{lemma_fundamental_div_mod, lemma_mod_bound};

verus! {

/// What a matrix is: a shape and its cells in row-major order.
pub struct Grid<T> {
    pub rows: nat,
    pub cols: nat,
    pub cells: Seq<T>,
}

impl<T> Grid<T> {
    /// The cells fill the shape exactly.
    pub open spec fn wf(self) -> bool {
        self.cells.len() == self.rows * self.cols
    }

    /// `(r, c)` names a cell of this grid.
    pub open spec fn in_range(self, r: int, c: int) -> bool {
        0 <= r < self.rows && 0 <= c < self.cols
    }

    /// The place of cell `(r, c)` in the row-major sequence.
    pub open spec fn offset(self, r: int, c: int) -> int {
        r * self.cols + c
    }

    /// The cell at `(r, c)`.
    pub open spec fn at(self, r: int, c: int) -> T {
        cell_of(self.cells, self.cols, r, c)
    }

    /// This grid with cell `(r, c)` replaced by `value`.
    pub open spec fn with_cell(self, r: int, c: int, value: T) -> Grid<T> {
        Grid { rows: self.rows, cols: self.cols, cells: self.cells.update(self.offset(r, c), value) }
    }

    /// Both grids have the same number of rows and of columns.
    pub open spec fn same_shape(self, other: Grid<T>) -> bool {
        self.rows == other.rows && self.cols == other.cols
    }
}

/// The cell `(r, c)` of a row-major sequence with `cols` columns.
pub open spec fn cell_of<T>(cells: Seq<T>, cols: nat, r: int, c: int) -> T {
    cells[r * cols + c]
}

/// `f` gives no more than one result for each argument.
pub open spec fn gives_one<A, R, F: Fn(A) -> R>(f: F) -> bool {
    forall|x: A, r1: R, r2: R|
        #![trigger call_ensures(f, (x,), r1), call_ensures(f, (x,), r2)]
        call_ensures(f, (x,), r1) && call_ensures(f, (x,), r2) ==> r1 == r2
}

/// `f` gives no more than one result for each pair of arguments.
pub open spec fn gives_one_of_two<A, R, F: Fn(A, A) -> R>(f: F) -> bool {
    forall|x: A, y: A, r1: R, r2: R|
        #![trigger call_ensures(f, (x, y), r1), call_ensures(f, (x, y), r2)]
        call_ensures(f, (x, y), r1) && call_ensures(f, (x, y), r2) ==> r1 == r2
}

/// `out` has the shape of `a` and `b`, and each of its cells is what `plus` may
/// give for the two cells at the same place.
pub open spec fn is_sum<T, P: Fn(T, T) -> T>(a: Grid<T>, b: Grid<T>, out: Grid<T>, plus: P) -> bool {
    &&& a.same_shape(b)
    &&& out.same_shape(a)
    &&& out.wf()
    &&& forall|r: int, c: int|
        out.in_range(r, c) ==> call_ensures(plus, (a.at(r, c), b.at(r, c)), #[trigger] out.at(r, c))
}

/// `out` has the shape of `a`, and each of its cells is what `f` may give for
/// the cell of `a` at the same place.
pub open spec fn is_image<T, F: Fn(T) -> T>(a: Grid<T>, out: Grid<T>, f: F) -> bool {
    &&& out.same_shape(a)
    &&& out.wf()
    &&& forall|r: int, c: int|
        out.in_range(r, c) ==> call_ensures(f, (a.at(r, c),), #[trigger] out.at(r, c))
}

/// `acc` is what the first `k` terms of the inner product of row `i` of `a` with
/// column `j` of `b` may add up to, where `product(x, y, t)` says that `t` may be
/// the product of `x` and `y`, and `sum(s, t, u)` that `u` may be the sum of `s`
/// and `t`: the sum starts at `zero`, and term `k - 1`, the product of
/// `a[i, k - 1]` and `b[k - 1, j]`, is added to the sum of the terms before it.
pub open spec fn accumulates<T>(
    a: Grid<T>,
    b: Grid<T>,
    i: int,
    j: int,
    k: nat,
    acc: T,
    zero: T,
    product: spec_fn(T, T, T) -> bool,
    sum: spec_fn(T, T, T) -> bool,
) -> bool
    decreases k,
{
    if k == 0 {
        acc == zero
    } else {
        exists|prev: T, term: T|
            {
                &&& accumulates(a, b, i, j, (k - 1) as nat, prev, zero, product, sum)
                &&& product(a.at(i, k - 1), b.at(k - 1, j), term)
                &&& #[trigger] sum(prev, term, acc)
            }
    }
}

/// What `f` may give, as a relation between two arguments and a result.
pub open spec fn relation_of<T, F: Fn(T, T) -> T>(f: F) -> spec_fn(T, T, T) -> bool {
    |x: T, y: T, r: T| call_ensures(f, (x, y), r)
}

/// `acc` is what the first `k` terms of the inner product of row `i` of `a` with
/// column `j` of `b` may add up to, with products made by `times` and added by
/// `plus` in increasing order of the inner index, from `zero` on.
pub open spec fn is_partial<T, M: Fn(T, T) -> T, P: Fn(T, T) -> T>(
    a: Grid<T>,
    b: Grid<T>,
    i: int,
    j: int,
    k: nat,
    acc: T,
    zero: T,
    times: M,
    plus: P,
) -> bool {
    accumulates(a, b, i, j, k, acc, zero, relation_of(times), relation_of(plus))
}

/// `out` is a matrix product of `a` and `b`: it has the rows of `a` and the
/// columns of `b`, and its cell `(i, j)` is the inner product of row `i` of `a`
/// with column `j` of `b`, accumulated in increasing order of the inner index.
pub open spec fn is_product<T, M: Fn(T, T) -> T, P: Fn(T, T) -> T>(
    a: Grid<T>,
    b: Grid<T>,
    out: Grid<T>,
    zero: T,
    times: M,
    plus: P,
) -> bool {
    &&& a.cols == b.rows
    &&& out.rows == a.rows
    &&& out.cols == b.cols
    &&& out.wf()
    &&& forall|i: int, j: int|
        out.in_range(i, j) ==> is_partial(a, b, i, j, a.cols, #[trigger] out.at(i, j), zero, times, plus)
}

/// Nothing adds up to the first no terms but `zero`.
pub proof fn lemma_partial_starts<T, M: Fn(T, T) -> T, P: Fn(T, T) -> T>(
    a: Grid<T>,
    b: Grid<T>,
    i: int,
    j: int,
    zero: T,
    times: M,
    plus: P,
)
    ensures
        is_partial(a, b, i, j, 0, zero, zero, times, plus),
{
}

/// One more term: where `prev` is a sum of the first `k` terms, `term` a
/// product of `a[i, k]` and `b[k, j]`, and `acc` a sum of the two, `acc` is a sum
/// of the first `k + 1` terms.
pub proof fn lemma_partial_grows<T, M: Fn(T, T) -> T, P: Fn(T, T) -> T>(
    a: Grid<T>,
    b: Grid<T>,
    i: int,
    j: int,
    k: nat,
    prev: T,
    term: T,
    acc: T,
    zero: T,
    times: M,
    plus: P,
)
    requires
        is_partial(a, b, i, j, k, prev, zero, times, plus),
        call_ensures(times, (a.at(i, k as int), b.at(k as int, j)), term),
        call_ensures(plus, (prev, term), acc),
    ensures
        is_partial(a, b, i, j, k + 1, acc, zero, times, plus),
{
    let product = relation_of(times);
    let sum = relation_of(plus);
    assert(accumulates(a, b, i, j, ((k + 1) - 1) as nat, prev, zero, product, sum));
    assert(product(a.at(i, (k + 1) - 1), b.at((k + 1) - 1, j), term));
    assert(sum(prev, term, acc));
}

/// An inner product made by borrowed operations is one made by the operations
/// themselves.
pub proof fn lemma_partial_of_borrowed<T, M: Fn(T, T) -> T, P: Fn(T, T) -> T>(
    a: Grid<T>,
    b: Grid<T>,
    i: int,
    j: int,
    k: nat,
    acc: T,
    zero: T,
    times: M,
    plus: P,
)
    ensures
        is_partial(a, b, i, j, k, acc, zero, &times, &plus) == is_partial(
            a,
            b,
            i,
            j,
            k,
            acc,
            zero,
            times,
            plus,
        ),
{
    assert(relation_of(&times) =~= relation_of(times));
    assert(relation_of(&plus) =~= relation_of(plus));
}

/// A product made by borrowed operations is one made by the operations
/// themselves.
pub proof fn lemma_product_of_borrowed<T, M: Fn(T, T) -> T, P: Fn(T, T) -> T>(
    a: Grid<T>,
    b: Grid<T>,
    out: Grid<T>,
    zero: T,
    times: M,
    plus: P,
)
    requires
        is_product(a, b, out, zero, &times, &plus),
    ensures
        is_product(a, b, out, zero, times, plus),
{
    assert forall|i: int, j: int| out.in_range(i, j) implies is_partial(
        a,
        b,
        i,
        j,
        a.cols,
        #[trigger] out.at(i, j),
        zero,
        times,
        plus,
    ) by {
        lemma_partial_of_borrowed(a, b, i, j, a.cols, out.at(i, j), zero, times, plus);
    }
}

/// A cell that lies inside the shape lies inside the row-major sequence.
pub proof fn lemma_offset_in_bounds(rows: nat, cols: nat, r: int, c: int)
    requires
        0 <= r < rows,
        0 <= c < cols,
    ensures
        0 <= r * cols <= r * cols + c < rows * cols,
{
    assert(r * cols + c < rows * cols) by (nonlinear_arith)
        requires
            0 <= r < rows,
            0 <= c < cols,
    ;
    assert(0 <= r * cols) by (nonlinear_arith)
        requires
            0 <= r,
    ;
}

/// Two cells of a grid share a place in the sequence only if they are the same cell.
pub proof fn lemma_offset_injective(cols: nat, r1: int, c1: int, r2: int, c2: int)
    requires
        0 <= c1 < cols,
        0 <= c2 < cols,
        0 <= r1,
        0 <= r2,
        r1 * cols + c1 == r2 * cols + c2,
    ensures
        r1 == r2,
        c1 == c2,
{
    if r1 < r2 {
        assert((r1 + 1) * cols <= r2 * cols) by (nonlinear_arith)
            requires
                r1 + 1 <= r2,
        ;
        assert((r1 + 1) * cols == r1 * cols + cols) by (nonlinear_arith);
    } else if r2 < r1 {
        assert((r2 + 1) * cols <= r1 * cols) by (nonlinear_arith)
            requires
                r2 + 1 <= r1,
        ;
        assert((r2 + 1) * cols == r2 * cols + cols) by (nonlinear_arith);
    }
}

/// A grid made of `data` in row-major order holds, at each place inside its
/// shape, the element of `data` at offset `r * cols + c`.
pub proof fn law_cells_are_row_major<T>(rows: nat, cols: nat, data: Seq<T>, r: int, c: int)
    requires
        data.len() == rows * cols,
        0 <= r < rows,
        0 <= c < cols,
    ensures
        (Grid { rows, cols, cells: data }).wf(),
        (Grid { rows, cols, cells: data }).in_range(r, c),
        0 <= r * cols + c < data.len(),
        (Grid { rows, cols, cells: data }).at(r, c) == data[r * cols + c],
{
    lemma_offset_in_bounds(rows, cols, r, c);
}

/// After a write at a place inside the shape, that place holds the value
/// written, every other place holds what it held, and the shape is the same.
pub proof fn law_write_then_read<T>(g: Grid<T>, r: int, c: int, value: T, r2: int, c2: int)
    requires
        g.wf(),
        g.in_range(r, c),
        g.in_range(r2, c2),
    ensures
        g.with_cell(r, c, value).wf(),
        g.with_cell(r, c, value).same_shape(g),
        g.with_cell(r, c, value).at(r2, c2) == if r2 == r && c2 == c {
            value
        } else {
            g.at(r2, c2)
        },
{
    lemma_offset_in_bounds(g.rows, g.cols, r, c);
    lemma_offset_in_bounds(g.rows, g.cols, r2, c2);
    if !(r2 == r && c2 == c) {
        if r * g.cols + c == r2 * g.cols + c2 {
            lemma_offset_injective(g.cols, r, c, r2, c2);
        }
    }
}

/// Two full grids of one shape that agree at every place are the same grid.
pub proof fn lemma_same_cells_same_grid<T>(g1: Grid<T>, g2: Grid<T>)
    requires
        g1.wf(),
        g2.wf(),
        g1.same_shape(g2),
        forall|r: int, c: int| g1.in_range(r, c) ==> #[trigger] g1.at(r, c) == g2.at(r, c),
    ensures
        g1 == g2,
{
    let cols = g1.cols as int;
    assert forall|i: int| 0 <= i < g1.cells.len() implies g1.cells[i] == g2.cells[i] by {
        assert(cols > 0) by (nonlinear_arith)
            requires
                0 <= i < g1.rows * cols,
                cols >= 0,
        ;
        let r = i / cols;
        let c = i % cols;
        lemma_fundamental_div_mod(i, cols);
        lemma_mod_bound(i, cols);
        assert(cols * r == r * cols) by (nonlinear_arith);
        assert(0 <= r < g1.rows) by (nonlinear_arith)
            requires
                0 <= i < g1.rows * cols,
                i == r * cols + c,
                0 <= c < cols,
        ;
        assert(g1.at(r, c) == g2.at(r, c));
    }
    assert(g1.cells =~= g2.cells);
}

/// Where the operations give one result each, the first `k` terms of an inner
/// product add up to one value only.
pub proof fn lemma_partial_is_determined<T, M: Fn(T, T) -> T, P: Fn(T, T) -> T>(
    a: Grid<T>,
    b: Grid<T>,
    i: int,
    j: int,
    k: nat,
    acc1: T,
    acc2: T,
    zero: T,
    times: M,
    plus: P,
)
    requires
        is_partial(a, b, i, j, k, acc1, zero, times, plus),
        is_partial(a, b, i, j, k, acc2, zero, times, plus),
        gives_one_of_two(times),
        gives_one_of_two(plus),
    ensures
        acc1 == acc2,
    decreases k,
{
    if k > 0 {
        let before = (k - 1) as nat;
        let product = relation_of(times);
        let sum = relation_of(plus);
        let (prev1, term1) = choose|prev: T, term: T|
            {
                &&& accumulates(a, b, i, j, before, prev, zero, product, sum)
                &&& product(a.at(i, k - 1), b.at(k - 1, j), term)
                &&& #[trigger] sum(prev, term, acc1)
            };
        let (prev2, term2) = choose|prev: T, term: T|
            {
                &&& accumulates(a, b, i, j, before, prev, zero, product, sum)
                &&& product(a.at(i, k - 1), b.at(k - 1, j), term)
                &&& #[trigger] sum(prev, term, acc2)
            };
        lemma_partial_is_determined(a, b, i, j, before, prev1, prev2, zero, times, plus);
        assert(call_ensures(times, (a.at(i, k - 1), b.at(k - 1, j)), term1));
        assert(call_ensures(times, (a.at(i, k - 1), b.at(k - 1, j)), term2));
        assert(term1 == term2);
        assert(call_ensures(plus, (prev1, term1), acc1));
        assert(call_ensures(plus, (prev2, term2), acc2));
    }
}

/// Where `plus` gives one result for each pair, two matrices have one sum only.
pub proof fn law_sum_is_determined<T, P: Fn(T, T) -> T>(
    a: Grid<T>,
    b: Grid<T>,
    out1: Grid<T>,
    out2: Grid<T>,
    plus: P,
)
    requires
        is_sum(a, b, out1, plus),
        is_sum(a, b, out2, plus),
        gives_one_of_two(plus),
    ensures
        out1 == out2,
{
    assert forall|r: int, c: int| out1.in_range(r, c) implies #[trigger] out1.at(r, c) == out2.at(
        r,
        c,
    ) by {
        assert(call_ensures(plus, (a.at(r, c), b.at(r, c)), out1.at(r, c)));
        assert(call_ensures(plus, (a.at(r, c), b.at(r, c)), out2.at(r, c)));
    }
    lemma_same_cells_same_grid(out1, out2);
}

/// Where the operations give one result each, two matrices have one product
/// only.
pub proof fn law_product_is_determined<T, M: Fn(T, T) -> T, P: Fn(T, T) -> T>(
    a: Grid<T>,
    b: Grid<T>,
    out1: Grid<T>,
    out2: Grid<T>,
    zero: T,
    times: M,
    plus: P,
)
    requires
        is_product(a, b, out1, zero, times, plus),
        is_product(a, b, out2, zero, times, plus),
        gives_one_of_two(times),
        gives_one_of_two(plus),
    ensures
        out1 == out2,
{
    assert forall|r: int, c: int| out1.in_range(r, c) implies #[trigger] out1.at(r, c) == out2.at(
        r,
        c,
    ) by {
        lemma_partial_is_determined(
            a,
            b,
            r,
            c,
            a.cols,
            out1.at(r, c),
            out2.at(r, c),
            zero,
            times,
            plus,
        );
    }
    lemma_same_cells_same_grid(out1, out2);
}

/// Where `f` gives one result for each element, a matrix has one image only.
pub proof fn law_image_is_determined<T, F: Fn(T) -> T>(a: Grid<T>, out1: Grid<T>, out2: Grid<T>, f: F)
    requires
        is_image(a, out1, f),
        is_image(a, out2, f),
        gives_one(f),
    ensures
        out1 == out2,
{
    assert forall|r: int, c: int| out1.in_range(r, c) implies #[trigger] out1.at(r, c) == out2.at(
        r,
        c,
    ) by {
        assert(call_ensures(f, (a.at(r, c),), out1.at(r, c)));
        assert(call_ensures(f, (a.at(r, c),), out2.at(r, c)));
    }
    lemma_same_cells_same_grid(out1, out2);
}

} // verus!
