//! A rectangular grid of fixed size, stored row by row.

use vstd::prelude::*;
use vstd::slice::slice_subrange;

verus! {

/// The place of cell `(x, y)` in the row-major storage of a grid that is
/// `width` cells wide.
pub open spec fn cell_index(width: int, x: int, y: int) -> int {
    y * width + x
}

/// A cell inside a `width` by `height` grid has its place inside the
/// storage of `width * height` cells.
pub proof fn lemma_cell_index_bounds(width: int, height: int, x: int, y: int)
    requires
        0 <= x < width,
        0 <= y < height,
    ensures
        0 <= cell_index(width, x, y) < width * height,
        y * width + width <= width * height,
        0 <= y * width,
{
    assert(y * width + width <= width * height) by (nonlinear_arith)
        requires
            0 <= y < height,
            0 < width,
    ;
    assert(0 <= y * width) by (nonlinear_arith)
        requires
            0 <= y,
            0 < width,
    ;
}

/// Cells in row-major order have rising places: an earlier row, or the
/// same row and an earlier column, means a smaller place.
pub proof fn lemma_cell_index_order(width: int, x1: int, y1: int, x2: int, y2: int)
    requires
        0 <= x1 < width,
        0 <= x2 < width,
        0 <= y1,
        0 <= y2,
    ensures
        (y1 < y2 || (y1 == y2 && x1 < x2)) ==> cell_index(width, x1, y1) < cell_index(width, x2, y2),
        cell_index(width, x1, y1) == cell_index(width, x2, y2) ==> x1 == x2 && y1 == y2,
{
    if y1 < y2 {
        assert(y1 * width + width <= y2 * width) by (nonlinear_arith)
            requires
                y1 < y2,
                0 < width,
        ;
    }
    if y2 < y1 {
        assert(y2 * width + width <= y1 * width) by (nonlinear_arith)
            requires
                y2 < y1,
                0 < width,
        ;
    }
}

/// A grid of `width` by `height` cells. Cell `(x, y)` lies in column `x`
/// of row `y`; the origin is the top left corner.
#[derive(Debug)]
pub struct Matrix<T> {
    width: usize,
    height: usize,
    cells: Vec<T>,
}

/// A grid of pixel coordinates `(x, y)`.
pub type ImgGrid = Matrix<(usize, usize)>;

impl<T> Matrix<T> {
    /// The storage holds exactly one value for each cell.
    pub closed spec fn wf(&self) -> bool {
        &&& self.cells@.len() == self.width * self.height
        &&& self.cells@.len() <= usize::MAX
    }

    /// The number of columns.
    pub closed spec fn spec_width(&self) -> usize {
        self.width
    }

    /// The number of rows.
    pub closed spec fn spec_height(&self) -> usize {
        self.height
    }

    /// The value of cell `(x, y)`.
    pub closed spec fn at(&self, x: int, y: int) -> T {
        self.cells@[cell_index(self.width as int, x, y)]
    }

    /// Row `y`, from left to right.
    pub open spec fn row_seq(&self, y: int) -> Seq<T> {
        Seq::new(self.spec_width() as nat, |x: int| self.at(x, y))
    }

    /// Column `x`, from top to bottom.
    pub open spec fn column_seq(&self, x: int) -> Seq<T> {
        Seq::new(self.spec_height() as nat, |y: int| self.at(x, y))
    }

    /// `(x, y)` names a cell of this grid.
    pub open spec fn has_cell(&self, x: int, y: int) -> bool {
        0 <= x < self.spec_width() && 0 <= y < self.spec_height()
    }

    /// The number of columns.
    #[verifier::when_used_as_spec(spec_width)]
    pub fn width(&self) -> (w: usize)
        ensures
            w == self.spec_width(),
    {
        self.width
    }

    /// The number of rows.
    #[verifier::when_used_as_spec(spec_height)]
    pub fn height(&self) -> (h: usize)
        ensures
            h == self.spec_height(),
    {
        self.height
    }

    /// A grid whose cell `(x, y)` holds `f(x, y)`. The cells are filled row
    /// by row, each row from left to right.
    pub fn generate<F: Fn(usize, usize) -> T>(width: usize, height: usize, f: F) -> (m: Self)
        requires
            width * height <= usize::MAX,
            forall|x: usize, y: usize| x < width && y < height ==> call_requires(f, (x, y)),
        ensures
            m.wf(),
            m.spec_width() == width,
            m.spec_height() == height,
            forall|x: usize, y: usize|
                x < width && y < height ==> call_ensures(f, (x, y), #[trigger] m.at(x as int, y as int)),
    {
        let mut cells: Vec<T> = Vec::new();
        let mut y: usize = 0;
        while y < height
            invariant
                y <= height,
                width * height <= usize::MAX,
                cells@.len() == y * width,
                forall|x: usize, y: usize| x < width && y < height ==> call_requires(f, (x, y)),
                forall|xx: usize, yy: usize|
                    xx < width && yy < y ==> call_ensures(
                        f,
                        (xx, yy),
                        #[trigger] cells@[cell_index(width as int, xx as int, yy as int)],
                    ),
            decreases height - y,
        {
            let mut x: usize = 0;
            while x < width
                invariant
                    y < height,
                    x <= width,
                    width * height <= usize::MAX,
                    cells@.len() == y * width + x,
                    forall|x: usize, y: usize| x < width && y < height ==> call_requires(f, (x, y)),
                    forall|xx: usize, yy: usize|
                        xx < width && (yy < y || (yy == y && xx < x)) ==> call_ensures(
                            f,
                            (xx, yy),
                            #[trigger] cells@[cell_index(width as int, xx as int, yy as int)],
                        ),
                decreases width - x,
            {
                let v = f(x, y);
                let ghost earlier = cells@;
                cells.push(v);
                proof {
                    assert forall|xx: usize, yy: usize|
                        xx < width && (yy < y || (yy == y && xx < x + 1)) implies call_ensures(
                        f,
                        (xx, yy),
                        #[trigger] cells@[cell_index(width as int, xx as int, yy as int)],
                    ) by {
                        lemma_cell_index_order(width as int, xx as int, yy as int, x as int, y as int);
                        if yy == y && xx == x {
                        } else {
                            assert(cells@[cell_index(width as int, xx as int, yy as int)]
                                == earlier[cell_index(width as int, xx as int, yy as int)]);
                        }
                    }
                }
                x = x + 1;
            }
            proof {
                assert((y + 1) * width == y * width + width) by (nonlinear_arith);
            }
            y = y + 1;
        }
        proof {
            assert(height * width == width * height) by (nonlinear_arith);
        }
        Matrix { width, height, cells }
    }

    /// The value of cell `(x, y)`.
    pub fn get(&self, x: usize, y: usize) -> (v: &T)
        requires
            self.wf(),
            self.has_cell(x as int, y as int),
        ensures
            *v == self.at(x as int, y as int),
    {
        proof {
            lemma_cell_index_bounds(self.width as int, self.height as int, x as int, y as int);
        }
        &self.cells[y * self.width + x]
    }

    /// Puts `v` into cell `(x, y)` and leaves every other cell as it was.
    pub fn set(&mut self, x: usize, y: usize, v: T)
        requires
            old(self).wf(),
            old(self).has_cell(x as int, y as int),
        ensures
            final(self).wf(),
            final(self).spec_width() == old(self).spec_width(),
            final(self).spec_height() == old(self).spec_height(),
            final(self).at(x as int, y as int) == v,
            forall|x2: int, y2: int|
                old(self).has_cell(x2, y2) && (x2 != x || y2 != y) ==> #[trigger] final(self).at(x2, y2)
                    == old(self).at(x2, y2),
    {
        proof {
            lemma_cell_index_bounds(self.width as int, self.height as int, x as int, y as int);
            assert forall|x2: int, y2: int|
                self.has_cell(x2, y2) && (x2 != x || y2 != y) implies cell_index(
                self.width as int,
                x2,
                y2,
            ) != cell_index(self.width as int, x as int, y as int) && 0 <= cell_index(
                self.width as int,
                x2,
                y2,
            ) < self.cells@.len() by {
                lemma_cell_index_order(self.width as int, x2, y2, x as int, y as int);
                lemma_cell_index_bounds(self.width as int, self.height as int, x2, y2);
            }
        }
        let i: usize = y * self.width + x;
        self.cells.set(i, v);
    }

    /// Row `y` as a slice of the storage.
    pub fn row(&self, y: usize) -> (r: &[T])
        requires
            self.wf(),
            y < self.spec_height(),
        ensures
            r@ == self.row_seq(y as int),
    {
        if self.width == 0 {
            let r = slice_subrange(self.cells.as_slice(), 0, 0);
            assert(r@ =~= self.row_seq(y as int));
            return r;
        }
        proof {
            lemma_cell_index_bounds(self.width as int, self.height as int, 0, y as int);
        }
        let start: usize = y * self.width;
        let r = slice_subrange(self.cells.as_slice(), start, start + self.width);
        assert(r@ =~= self.row_seq(y as int));
        r
    }
}

impl<T: Copy> Matrix<T> {
    /// Column `x`, gathered from top to bottom.
    pub fn get_column(&self, x: usize) -> (col: Vec<T>)
        requires
            self.wf(),
            x < self.spec_width(),
        ensures
            col@ == self.column_seq(x as int),
    {
        let mut col: Vec<T> = Vec::with_capacity(self.height);
        let mut y: usize = 0;
        while y < self.height
            invariant
                self.wf(),
                x < self.spec_width(),
                y <= self.height,
                col@.len() == y,
                forall|k: int| 0 <= k < y ==> #[trigger] col@[k] == self.at(x as int, k),
            decreases self.height - y,
        {
            col.push(*self.get(x, y));
            y = y + 1;
        }
        assert(col@ =~= self.column_seq(x as int));
        col
    }
}

/// The identity grid: every cell holds its own coordinate.
pub fn identity_grid(width: usize, height: usize) -> (m: ImgGrid)
    requires
        width * height <= usize::MAX,
    ensures
        m.wf(),
        m.spec_width() == width,
        m.spec_height() == height,
        forall|x: int, y: int| m.has_cell(x, y) ==> #[trigger] m.at(x, y) == (x as usize, y as usize),
{
    let f = |x: usize, y: usize| -> (c: (usize, usize))
        ensures
            c == (x, y),
        { (x, y) };
    let m = Matrix::generate(width, height, f);
    proof {
        assert forall|x: int, y: int| m.has_cell(x, y) implies #[trigger] m.at(x, y) == (
            x as usize,
            y as usize,
        ) by {
            let xu = x as usize;
            let yu = y as usize;
            assert(call_ensures(f, (xu, yu), m.at(xu as int, yu as int)));
        }
    }
    m
}

} // verus!
