//! A fixed-size two-dimensional array stored in row-major order.
//!
//! Cells are addressed by `(col, row)`; the cell at `(col, row)` sits at
//! position `row * width + col` of the row-major sequence.

use vstd::prelude::*;

verus! {

/// Why an `Array2` could not be built.
#[derive(Debug, PartialEq, Eq, Structural)]
pub enum Array2Error {
    /// The number of values given is not `width * height`.
    WrongLength,
}

/// A `width` by `height` array of `T`.
pub struct Array2<T> {
    width: usize,
    height: usize,
    data: Vec<T>,
}

/// Position of the cell `(col, row)` in the row-major sequence.
pub open spec fn row_major_index(width: int, col: int, row: int) -> int {
    row * width + col
}

impl<T> Array2<T> {
    #[verifier::type_invariant]
    spec fn holds_every_cell(&self) -> bool {
        self.data@.len() == self.width * self.height
    }

    /// Number of columns.
    pub closed spec fn spec_width(&self) -> nat {
        self.width as nat
    }

    /// Number of rows.
    pub closed spec fn spec_height(&self) -> nat {
        self.height as nat
    }

    /// The cells in row-major order.
    pub closed spec fn cells(&self) -> Seq<T> {
        self.data@
    }

    /// The cell at column `col` and row `row`.
    pub open spec fn cell(&self, col: int, row: int) -> T {
        self.cells()[row_major_index(self.spec_width() as int, col, row)]
    }

    /// Builds a `width` by `height` array from its cells in row-major order.
    pub fn from_row_major(width: usize, height: usize, values: Vec<T>) -> (result: Result<
        Array2<T>,
        Array2Error,
    >)
        ensures
            result is Ok <==> values@.len() == width * height,
            result matches Ok(a) ==> {
                &&& a.spec_width() == width
                &&& a.spec_height() == height
                &&& a.cells() == values@
            },
            result matches Err(e) ==> e == Array2Error::WrongLength,
    {
        let len = values.len();
        match width.checked_mul(height) {
            Some(n) => {
                if len == n {
                    Ok(Array2 { width, height, data: values })
                } else {
                    Err(Array2Error::WrongLength)
                }
            },
            None => {
                Err(Array2Error::WrongLength)
            },
        }
    }

    /// Number of columns.
    pub fn width(&self) -> (w: usize)
        ensures
            w == self.spec_width(),
            self.cells().len() == self.spec_width() * self.spec_height(),
    {
        proof {
            use_type_invariant(self);
        }
        self.width
    }

    /// Number of rows.
    pub fn height(&self) -> (h: usize)
        ensures
            h == self.spec_height(),
            self.cells().len() == self.spec_width() * self.spec_height(),
    {
        proof {
            use_type_invariant(self);
        }
        self.height
    }

    /// The cell at column `col` and row `row`, or `None` when that cell is
    /// outside the array.
    pub fn get(&self, col: usize, row: usize) -> (result: Option<&T>)
        ensures
            result is Some <==> col < self.spec_width() && row < self.spec_height(),
            result matches Some(v) ==> *v == self.cell(col as int, row as int),
    {
        proof {
            use_type_invariant(self);
        }
        let len = self.data.len();
        if col < self.width && row < self.height {
            proof {
                lemma_index_in_range(self.width as int, self.height as int, col as int, row as int);
            }
            Some(&self.data[row * self.width + col])
        } else {
            None
        }
    }

    /// Every cell with its column and row, in row-major order: row 0 from
    /// left to right, then row 1, and so on.
    pub fn iter_row_major(&self) -> (cells: Vec<(usize, usize, &T)>)
        ensures
            cells@.len() == self.spec_width() * self.spec_height(),
            forall|k: int|
                0 <= k < cells@.len() ==> {
                    &&& #[trigger] cells@[k].0 == k % self.spec_width() as int
                    &&& cells@[k].1 == k / self.spec_width() as int
                    &&& *cells@[k].2 == self.cells()[k]
                },
    {
        proof {
            use_type_invariant(self);
        }
        let n = self.data.len();
        let w = self.width;
        let mut cells: Vec<(usize, usize, &T)> = Vec::new();
        let mut k: usize = 0;
        let mut col: usize = 0;
        let mut row: usize = 0;
        proof {
            if 0 < n {
                assert(0 < w) by (nonlinear_arith)
                    requires
                        n == w * self.height,
                        0 < n,
                ;
            }
        }
        while k < n
            invariant
                n == self.data@.len(),
                n == w * self.height,
                0 < n ==> 0 < w,
                w == self.width,
                k <= n,
                k < n ==> col < w,
                k == row * w + col,
                cells@.len() == k,
                forall|j: int|
                    0 <= j < k ==> {
                        &&& #[trigger] cells@[j].0 == j % w as int
                        &&& cells@[j].1 == j / w as int
                        &&& *cells@[j].2 == self.data@[j]
                    },
            decreases n - k,
        {
            proof {
                vstd::arithmetic::div_mod::lemma_fundamental_div_mod_converse(
                    k as int,
                    w as int,
                    row as int,
                    col as int,
                );
            }
            cells.push((col, row, &self.data[k]));
            let ghost old_row = row;
            k = k + 1;
            if col + 1 == w {
                col = 0;
                row = row + 1;
                assert(row * w == old_row * w + w) by (nonlinear_arith)
                    requires
                        row == old_row + 1,
                ;
            } else {
                col = col + 1;
            }
            proof {
                if k < n && col == 0 {
                    assert(0 < w);
                }
            }
        }
        cells
    }

    /// Every cell with its column and row, in column-major order: column 0
    /// from top to bottom, then column 1, and so on.
    pub fn iter_col_major(&self) -> (cells: Vec<(usize, usize, &T)>)
        ensures
            cells@.len() == self.spec_width() * self.spec_height(),
            forall|k: int|
                0 <= k < cells@.len() ==> {
                    &&& #[trigger] cells@[k].0 == k / self.spec_height() as int
                    &&& cells@[k].1 == k % self.spec_height() as int
                    &&& *cells@[k].2 == self.cell(cells@[k].0 as int, cells@[k].1 as int)
                },
    {
        proof {
            use_type_invariant(self);
        }
        let n = self.data.len();
        let w = self.width;
        let h = self.height;
        let mut cells: Vec<(usize, usize, &T)> = Vec::new();
        let mut k: usize = 0;
        let mut col: usize = 0;
        let mut row: usize = 0;
        proof {
            if 0 < n {
                assert(0 < w && 0 < h) by (nonlinear_arith)
                    requires
                        n == w * h,
                        0 < n,
                ;
            }
        }
        while k < n
            invariant
                n == self.data@.len(),
                n == w * h,
                0 < n ==> 0 < h,
                w == self.width,
                h == self.height,
                k <= n,
                k < n ==> row < h && col < w,
                k == col * h + row,
                cells@.len() == k,
                forall|j: int|
                    0 <= j < k ==> {
                        &&& #[trigger] cells@[j].0 == j / h as int
                        &&& cells@[j].1 == j % h as int
                        &&& *cells@[j].2 == self.data@[row_major_index(
                            w as int,
                            cells@[j].0 as int,
                            cells@[j].1 as int,
                        )]
                    },
            decreases n - k,
        {
            proof {
                vstd::arithmetic::div_mod::lemma_fundamental_div_mod_converse(
                    k as int,
                    h as int,
                    col as int,
                    row as int,
                );
                lemma_index_in_range(w as int, h as int, col as int, row as int);
            }
            cells.push((col, row, &self.data[row * w + col]));
            let ghost old_col = col;
            k = k + 1;
            if row + 1 == h {
                row = 0;
                col = col + 1;
                assert(col * h == old_col * h + h) by (nonlinear_arith)
                    requires
                        col == old_col + 1,
                ;
            } else {
                row = row + 1;
            }
            proof {
                if k < n {
                    assert(col < w) by (nonlinear_arith)
                        requires
                            k == col * h + row,
                            k < n,
                            n == w * h,
                            0 <= row,
                    ;
                }
            }
        }
        cells
    }

    /// A mutable reference to the cell at column `col` and row `row`, or
    /// `None` when that cell is outside the array.
    pub fn get_mut(&mut self, col: usize, row: usize) -> (result: Option<&mut T>)
        ensures
            result is Some <==> col < old(self).spec_width() && row < old(self).spec_height(),
            final(self).spec_width() == old(self).spec_width(),
            final(self).spec_height() == old(self).spec_height(),
            match result {
                Some(v) => {
                    &&& *v == old(self).cell(col as int, row as int)
                    &&& final(self).cells() == old(self).cells().update(
                        row_major_index(old(self).spec_width() as int, col as int, row as int),
                        *final(v),
                    )
                },
                None => final(self).cells() == old(self).cells(),
            },
    {
        proof {
            use_type_invariant(&*self);
        }
        let len = self.data.len();
        if col < self.width && row < self.height {
            proof {
                lemma_index_in_range(self.width as int, self.height as int, col as int, row as int);
            }
            let i = row * self.width + col;
            Some(&mut self.data[i])
        } else {
            None
        }
    }
}

/// A cell inside a `width` by `height` array has a row-major position below
/// `width * height`.
pub proof fn lemma_index_in_range(width: int, height: int, col: int, row: int)
    requires
        0 <= col < width,
        0 <= row < height,
    ensures
        0 <= row_major_index(width, col, row) < width * height,
{
    assert(0 <= row * width + col < width * height) by (nonlinear_arith)
        requires
            0 <= col < width,
            0 <= row < height,
    ;
}

/// Distinct cells of an array have distinct row-major positions, and the
/// position gives the cell back: its column is the remainder and its row the
/// quotient by the width.
pub proof fn lemma_index_unique(width: int, col: int, row: int)
    requires
        0 <= col < width,
        0 <= row,
    ensures
        row_major_index(width, col, row) % width == col,
        row_major_index(width, col, row) / width == row,
{
    vstd::arithmetic::div_mod::lemma_fundamental_div_mod_converse(
        row * width + col,
        width,
        row,
        col,
    );
}

/// What is written through `get_mut` is what `get` reads back at that
/// cell, and every other cell keeps its value.
pub proof fn law_write_then_read<T>(
    before: Array2<T>,
    after: Array2<T>,
    col: int,
    row: int,
    x: T,
    col2: int,
    row2: int,
)
    requires
        before.cells().len() == before.spec_width() * before.spec_height(),
        after.spec_width() == before.spec_width(),
        after.spec_height() == before.spec_height(),
        0 <= col < before.spec_width(),
        0 <= row < before.spec_height(),
        0 <= col2 < before.spec_width(),
        0 <= row2 < before.spec_height(),
        after.cells() == before.cells().update(
            row_major_index(before.spec_width() as int, col, row),
            x,
        ),
    ensures
        after.cell(col, row) == x,
        col2 != col || row2 != row ==> after.cell(col2, row2) == before.cell(col2, row2),
{
    let w = before.spec_width() as int;
    let h = before.spec_height() as int;
    lemma_index_in_range(w, h, col, row);
    lemma_index_in_range(w, h, col2, row2);
    lemma_index_unique(w, col, row);
    lemma_index_unique(w, col2, row2);
}

/// Both orders visit every cell once: the `k`-th cell in column-major order
/// is the cell at position `(k % height) * width + k / height` of the
/// row-major order, a position inside the array whose column is `k / height`
/// and whose row is `k % height`.
pub proof fn law_orders_transpose(width: int, height: int, k: int)
    requires
        0 <= width,
        0 <= height,
        0 <= k < width * height,
    ensures
        ({
            let i = row_major_index(width, k / height, k % height);
            &&& 0 <= i < width * height
            &&& i % width == k / height
            &&& i / width == k % height
        }),
{
    assert(0 < height && 0 < width) by (nonlinear_arith)
        requires
            0 <= k < width * height,
            0 <= width,
            0 <= height,
    ;
    vstd::arithmetic::div_mod::lemma_fundamental_div_mod(k, height);
    vstd::arithmetic::div_mod::lemma_mod_bound(k, height);
    vstd::arithmetic::div_mod::lemma_div_pos_is_pos(k, height);
    assert(k / height < width) by (nonlinear_arith)
        requires
            k == height * (k / height) + k % height,
            0 <= k % height,
            k < width * height,
            0 < height,
    ;
    lemma_index_in_range(width, height, k / height, k % height);
    lemma_index_unique(width, k / height, k % height);
}

} // verus!
