//! The text form of a matrix: one bracketed, tab-separated line for each row.

use vstd::prelude::*;
use crate::grid::{Grid, cell_of, lemma_offset_in_bounds};
use crate::mat::Mat;

verus! {

/// The characters of each text.
pub open spec fn texts_of(shown: Seq<String>) -> Seq<Seq<char>> {
    Seq::new(shown.len(), |i: int| shown[i]@)
}

/// The first `upto` texts of row `r`, with a tab between neighbours.
pub open spec fn joined(texts: Seq<Seq<char>>, cols: nat, r: int, upto: nat) -> Seq<char>
    decreases upto,
{
    if upto == 0 {
        Seq::empty()
    } else if upto == 1 {
        cell_of(texts, cols, r, 0)
    } else {
        joined(texts, cols, r, (upto - 1) as nat) + seq!['\t'] + cell_of(texts, cols, r, upto - 1)
    }
}

/// Row `r` as a line: an opening bracket, the texts of the row with a tab
/// between neighbours, a closing bracket and a line feed.
pub open spec fn line(texts: Seq<Seq<char>>, cols: nat, r: int) -> Seq<char> {
    seq!['['] + joined(texts, cols, r, cols) + seq![']', '\n']
}

/// The lines of the first `rows` rows, one after the other.
pub open spec fn lines(texts: Seq<Seq<char>>, rows: nat, cols: nat) -> Seq<char>
    decreases rows,
{
    if rows == 0 {
        Seq::empty()
    } else {
        lines(texts, (rows - 1) as nat, cols) + line(texts, cols, rows - 1)
    }
}

/// `out` is the text of `g` for some texts that `show` may give for its cells.
pub open spec fn is_rendering<T, S: Fn(T) -> String>(g: Grid<T>, out: Seq<char>, show: S) -> bool {
    exists|shown: Seq<String>|
        {
            &&& shown.len() == g.rows * g.cols
            &&& forall|r: int, c: int|
                g.in_range(r, c) ==> call_ensures(
                    show,
                    (g.at(r, c),),
                    #[trigger] cell_of(shown, g.cols, r, c),
                )
            &&& out == lines(#[trigger] texts_of(shown), g.rows, g.cols)
        }
}

/// The text of a matrix of the given shape whose cells, in row-major order,
/// read as `texts`.
pub fn layout(rows: usize, cols: usize, texts: &Vec<String>) -> (out: String)
    requires
        texts@.len() == rows * cols,
    ensures
        out@ == lines(texts_of(texts@), rows as nat, cols as nat),
{
    let ghost all = texts_of(texts@);
    let mut out = String::new();
    let mut row: usize = 0;
    while row < rows
        invariant
            row <= rows,
            texts@.len() == rows * cols,
            all == texts_of(texts@),
            out@ == lines(all, row as nat, cols as nat),
        decreases rows - row,
    {
        let ghost done = out@;
        out.append("[");
        let mut col: usize = 0;
        while col < cols
            invariant
                row < rows,
                col <= cols,
                texts@.len() == rows * cols,
                all == texts_of(texts@),
                out@ == done + "["@ + joined(all, cols as nat, row as int, col as nat) + (if 0 < col
                    < cols {
                    seq!['\t']
                } else {
                    Seq::empty()
                }),
            decreases cols - col,
        {
            proof {
                lemma_offset_in_bounds(rows as nat, cols as nat, row as int, col as int);
                assert(texts@.len() == texts.len());
                reveal_strlit("\t");
            }
            let index: usize = row * cols + col;
            let ghost before = out@;
            out.append(texts[index].as_str());
            if col < cols - 1 {
                out.append("\t");
            }
            proof {
                assert(texts@[index as int]@ == cell_of(all, cols as nat, row as int, col as int));
                assert("\t"@ =~= seq!['\t']);
                assert(out@ =~= done + "["@ + joined(
                    all,
                    cols as nat,
                    row as int,
                    (col + 1) as nat,
                ) + (if 0 < col + 1 < cols {
                    seq!['\t']
                } else {
                    Seq::empty()
                }));
            }
            col += 1;
        }
        out.append("]\n");
        proof {
            reveal_strlit("[");
            reveal_strlit("]\n");
            assert("["@ =~= seq!['[']);
            assert("]\n"@ =~= seq![']', '\n']);
            assert(out@ =~= done + line(all, cols as nat, row as int));
        }
        row += 1;
    }
    out
}

impl<T: Copy> Mat<T> {
    /// The text of the matrix: each row as one line, in brackets, with a tab
    /// between its elements, each element written as `show` writes it.
    pub fn render<S: Fn(T) -> String>(&self, show: S) -> (out: String)
        requires
            forall|x: T| call_requires(show, (x,)),
        ensures
            is_rendering(self@, out@, show),
    {
        let rows = self.rows();
        let cols = self.cols();
        let ghost width = cols as nat;
        let mut texts: Vec<String> = Vec::new();
        let mut row: usize = 0;
        while row < rows
            invariant
                row <= rows,
                rows == self@.rows,
                cols == self@.cols,
                width == cols,
                self@.wf(),
                forall|x: T| call_requires(show, (x,)),
                texts@.len() == row * width,
                forall|r: int, c: int|
                    0 <= r < row && 0 <= c < width ==> call_ensures(
                        show,
                        (self@.at(r, c),),
                        #[trigger] cell_of(texts@, width, r, c),
                    ),
            decreases rows - row,
        {
            let mut col: usize = 0;
            while col < cols
                invariant
                    row < rows,
                    col <= cols,
                    rows == self@.rows,
                    cols == self@.cols,
                    width == cols,
                    self@.wf(),
                    forall|x: T| call_requires(show, (x,)),
                    texts@.len() == row * width + col,
                    forall|r: int, c: int|
                        (0 <= r < row && 0 <= c < width) || (r == row && 0 <= c < col)
                            ==> call_ensures(
                            show,
                            (self@.at(r, c),),
                            #[trigger] cell_of(texts@, width, r, c),
                        ),
                decreases cols - col,
            {
                if let Some(element) = self.get(row, col) {
                    let text = show(*element);
                    let ghost before = texts@;
                    texts.push(text);
                    proof {
                        assert forall|r: int, c: int|
                            (0 <= r < row && 0 <= c < width) || (r == row && 0 <= c < col + 1)
                            implies call_ensures(
                            show,
                            (self@.at(r, c),),
                            #[trigger] cell_of(texts@, width, r, c),
                        ) by {
                            if r == row && c == col {
                            } else {
                                if r < row {
                                    lemma_offset_in_bounds(row as nat, width, r, c);
                                }
                                assert(cell_of(texts@, width, r, c) == cell_of(before, width, r, c));
                            }
                        }
                    }
                }
                col += 1;
            }
            proof {
                assert((row + 1) * width == row * width + width) by (nonlinear_arith);
            }
            row += 1;
        }
        let out = layout(rows, cols, &texts);
        proof {
            assert(out@ == lines(texts_of(texts@), self@.rows, self@.cols));
        }
        out
    }
}

} // verus!
