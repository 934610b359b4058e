//! Row-major matrices, and the GF(2^w) operations on byte matrices that build and apply a
//! Reed-Solomon generator.
use vstd::prelude::*;
use crate::error::Error;
use crate::galois_field::{Gf2p, lemma_add_inverse_identity};

verus! {

/// The rows of a grid laid end to end.
pub open spec fn flatten_rows<T>(g: Seq<Seq<T>>) -> Seq<T>
    decreases g.len(),
{
    if g.len() == 0 {
        Seq::empty()
    } else {
        flatten_rows(g.drop_last()) + g.last()
    }
}

/// The field dot product of the first `k` entries of two rows:
/// `a[0]*b[0] + .. + a[k-1]*b[k-1]`, with table multiplication and xor addition.
pub open spec fn field_dot(gf: Gf2p, a: Seq<u8>, b: Seq<u8>, k: nat) -> u8
    decreases k,
{
    if k == 0 {
        0u8
    } else {
        field_dot(gf, a, b, (k - 1) as nat) ^ gf.table_mul(a[k - 1], b[k - 1])
    }
}

/// The Cauchy point of row `i`: `x_i = 1 + i`.
pub open spec fn cauchy_x(i: int) -> u8 {
    (1 + i) as u8
}

/// The Cauchy point of column `j` in a matrix of `rows` rows: `y_j = 1 + rows + j`.
pub open spec fn cauchy_y(rows: int, j: int) -> u8 {
    (1 + rows + j) as u8
}

proof fn lemma_xor_in_field(top: u8, x: u8, y: u8)
    by (bit_vector)
    requires
        top == 1u8 || top == 2u8 || top == 4u8 || top == 8u8 || top == 16u8 || top == 32u8
            || top == 64u8 || top == 128u8,
        (x as u16) < 2 * (top as u16),
        (y as u16) < 2 * (top as u16),
        x != y,
    ensures
        ((x ^ y) as u16) < 2 * (top as u16),
        x ^ y != 0u8,
{
}

/// Flattening a grid of one-entry rows lists those entries.
pub proof fn lemma_flatten_column<T>(g: Seq<Seq<T>>)
    requires
        forall|i: int| 0 <= i < g.len() ==> #[trigger] g[i].len() == 1,
    ensures
        flatten_rows(g).len() == g.len(),
        forall|i: int| 0 <= i < g.len() ==> #[trigger] flatten_rows(g)[i] == g[i][0],
    decreases g.len(),
{
    if g.len() > 0 {
        let d = g.drop_last();
        assert forall|i: int| 0 <= i < d.len() implies #[trigger] d[i].len() == 1 by {
            assert(d[i] == g[i]);
        }
        lemma_flatten_column(d);
    }
}

/// A matrix with `row_size` rows of `col_size` entries each.
pub struct Matrix<T> {
    row_size: usize,
    col_size: usize,
    data: Vec<Vec<T>>,
}

impl<T> View for Matrix<T> {
    type V = Seq<Seq<T>>;

    closed spec fn view(&self) -> Seq<Seq<T>> {
        self.data@.map_values(|r: Vec<T>| r@)
    }
}

impl<T> Matrix<T> {
    pub closed spec fn spec_rows(&self) -> nat {
        self.row_size as nat
    }

    pub closed spec fn spec_cols(&self) -> nat {
        self.col_size as nat
    }

    /// Every row holds exactly `col_size` entries.
    pub open spec fn wf(&self) -> bool {
        &&& self@.len() == self.spec_rows()
        &&& forall|i: int| 0 <= i < self@.len() ==> #[trigger] self@[i].len() == self.spec_cols()
    }

    pub fn get_row_size(&self) -> (r: usize)
        ensures
            r == self.spec_rows(),
    {
        self.row_size
    }

    pub fn get_col_size(&self) -> (r: usize)
        ensures
            r == self.spec_cols(),
    {
        self.col_size
    }

    /// The rows of the matrix.
    pub fn data(&self) -> (r: &Vec<Vec<T>>)
        ensures
            r@.map_values(|v: Vec<T>| v@) == self@,
    {
        &self.data
    }
}

impl<T: Copy> Matrix<T> {
    /// A `row_size` x `col_size` matrix filled with `val`.
    pub fn new(row_size: usize, col_size: usize, val: T) -> (r: Self)
        ensures
            r.wf(),
            r.spec_rows() == row_size,
            r.spec_cols() == col_size,
            forall|i: int, j: int| 0 <= i < row_size && 0 <= j < col_size ==> #[trigger] r@[i][j] == val,
    {
        let mut data: Vec<Vec<T>> = Vec::new();
        for i in 0..row_size
            invariant
                data@.len() == i,
                forall|k: int| 0 <= k < data@.len() ==> #[trigger] data@[k]@.len() == col_size,
                forall|k: int, j: int|
                    0 <= k < data@.len() && 0 <= j < col_size ==> #[trigger] data@[k]@[j] == val,
        {
            let mut row: Vec<T> = Vec::new();
            for j in 0..col_size
                invariant
                    row@.len() == j,
                    forall|l: int| 0 <= l < row@.len() ==> #[trigger] row@[l] == val,
            {
                row.push(val);
            }
            data.push(row);
        }
        Matrix { row_size, col_size, data }
    }

    /// A column vector: one row per value, each holding that value.
    pub fn new_column_vector(input: Vec<T>) -> (r: Self)
        ensures
            r.wf(),
            r.spec_rows() == input@.len(),
            r.spec_cols() == 1,
            forall|i: int| 0 <= i < input@.len() ==> #[trigger] r@[i] == seq![input@[i]],
    {
        let mut data: Vec<Vec<T>> = Vec::new();
        for i in 0..input.len()
            invariant
                data@.len() == i,
                forall|k: int| 0 <= k < data@.len() ==> #[trigger] data@[k]@ == seq![input@[k]],
        {
            let mut row: Vec<T> = Vec::new();
            row.push(input[i]);
            assert(row@ =~= seq![input@[i as int]]);
            data.push(row);
        }
        Matrix { row_size: input.len(), col_size: 1, data }
    }

    /// A matrix with the given rows, which must be nonempty and of one length.
    pub fn new_from_vec(data: Vec<Vec<T>>) -> (r: Self)
        requires
            data@.len() > 0,
            forall|i: int| 0 <= i < data@.len() ==> #[trigger] data@[i]@.len() == data@[0]@.len(),
        ensures
            r.wf(),
            r@ == data@.map_values(|v: Vec<T>| v@),
            r.spec_rows() == data@.len(),
            r.spec_cols() == data@[0]@.len(),
    {
        let rows = data.len();
        let cols = data[0].len();
        Matrix { row_size: rows, col_size: cols, data }
    }

    /// The entries in row-major order.
    pub fn to_vector(&self) -> (r: Vec<T>)
        requires
            self.wf(),
        ensures
            r@ == flatten_rows(self@),
    {
        let mut vec: Vec<T> = Vec::new();
        for row in 0..self.row_size
            invariant
                self.wf(),
                vec@ == flatten_rows(self@.take(row as int)),
        {
            let ghost before = vec@;
            for col in 0..self.col_size
                invariant
                    self.wf(),
                    0 <= row < self@.len(),
                    vec@ == before + self@[row as int].take(col as int),
            {
                vec.push(self.data[row][col]);
                assert(self@[row as int].take(col + 1) =~= self@[row as int].take(col as int).push(
                    self@[row as int][col as int],
                ));
            }
            assert(self@[row as int].take(self.col_size as int) =~= self@[row as int]);
            assert(self@.take(row + 1).drop_last() =~= self@.take(row as int));
        }
        assert(self@.take(self.row_size as int) =~= self@);
        vec
    }

    /// The transposed matrix: entry `[i][j]` of the result is entry `[j][i]` of this one.
    pub fn transpose(&self) -> (r: Self)
        requires
            self.wf(),
        ensures
            r.wf(),
            r.spec_rows() == self.spec_cols(),
            r.spec_cols() == self.spec_rows(),
            forall|i: int, j: int|
                0 <= i < self.spec_cols() && 0 <= j < self.spec_rows() ==> #[trigger] r@[i][j] == self@[j][i],
    {
        let mut data: Vec<Vec<T>> = Vec::new();
        for col in 0..self.col_size
            invariant
                self.wf(),
                data@.len() == col,
                forall|k: int| 0 <= k < data@.len() ==> #[trigger] data@[k]@.len() == self.spec_rows(),
                forall|k: int, j: int|
                    0 <= k < data@.len() && 0 <= j < self.spec_rows() ==> #[trigger] data@[k]@[j]
                        == self@[j][k],
        {
            let mut new_row: Vec<T> = Vec::new();
            for row in 0..self.row_size
                invariant
                    self.wf(),
                    col < self.spec_cols(),
                    new_row@.len() == row,
                    forall|j: int| 0 <= j < new_row@.len() ==> #[trigger] new_row@[j] == self@[j][col as int],
            {
                assert(self@[row as int].len() == self.spec_cols());
                new_row.push(self.data[row][col]);
            }
            data.push(new_row);
        }
        Matrix { row_size: self.col_size, col_size: self.row_size, data }
    }

    /// A copy of row `i`.
    fn copy_row(&self, i: usize) -> (r: Vec<T>)
        requires
            self.wf(),
            i < self.spec_rows(),
        ensures
            r@ == self@[i as int],
    {
        let mut row: Vec<T> = Vec::new();
        for j in 0..self.col_size
            invariant
                self.wf(),
                i < self.spec_rows(),
                row@ == self@[i as int].take(j as int),
        {
            row.push(self.data[i][j]);
            assert(self@[i as int].take(j + 1) =~= self@[i as int].take(j as int).push(self@[i as int][j as int]));
        }
        assert(self@[i as int].take(self.col_size as int) =~= self@[i as int]);
        row
    }

    /// This matrix with the rows of `to_append` below it; the column counts must agree.
    pub fn append_bottom(&self, to_append: &Matrix<T>) -> (r: Result<Matrix<T>, Error>)
        requires
            self.wf(),
            to_append.wf(),
            self.spec_rows() + to_append.spec_rows() <= usize::MAX,
        ensures
            self.spec_cols() != to_append.spec_cols() ==> r == Err::<Matrix<T>, Error>(Error::DimensionMismatch),
            self.spec_cols() == to_append.spec_cols() ==> r is Ok && {
                let m = r->Ok_0;
                &&& m.wf()
                &&& m.spec_rows() == self.spec_rows() + to_append.spec_rows()
                &&& m.spec_cols() == self.spec_cols()
                &&& m@ == self@ + to_append@
            },
    {
        if self.col_size != to_append.col_size {
            return Err(Error::DimensionMismatch);
        }
        let mut data: Vec<Vec<T>> = Vec::new();
        for i in 0..self.row_size
            invariant
                self.wf(),
                data@.len() == i,
                forall|k: int| 0 <= k < i ==> #[trigger] data@[k]@ == self@[k],
        {
            let row = self.copy_row(i);
            data.push(row);
        }
        let top_rows = self.row_size;
        for j in 0..to_append.row_size
            invariant
                self.wf(),
                to_append.wf(),
                top_rows == self@.len(),
                data@.len() == top_rows + j,
                forall|k: int| 0 <= k < top_rows ==> #[trigger] data@[k]@ == self@[k],
                forall|k: int| 0 <= k < j ==> #[trigger] data@[top_rows + k]@ == to_append@[k],
        {
            let row = to_append.copy_row(j);
            data.push(row);
            assert(data@[top_rows + j]@ == to_append@[j as int]);
        }
        let r = Matrix { row_size: self.row_size + to_append.row_size, col_size: self.col_size, data };
        assert(r@ =~= self@ + to_append@) by {
            assert forall|k: int| 0 <= k < r@.len() implies #[trigger] r@[k] == (self@ + to_append@)[k] by {
                if k >= top_rows {
                    assert(data@[top_rows + (k - top_rows)]@ == to_append@[k - top_rows]);
                }
            }
        }
        Ok(r)
    }
}

/// Byte matrices, whose entries are elements of a field GF(2^w).
pub type MatrixU8 = Matrix<u8>;

impl MatrixU8 {
    /// Every entry is below `n`, i.e. an element of a field with `n` elements.
    pub open spec fn entries_below(&self, n: nat) -> bool {
        forall|i: int, j: int|
            0 <= i < self@.len() && 0 <= j < self@[i].len() ==> #[trigger] self@[i][j] < n
    }

    /// A Cauchy matrix over `gf`: entry `[i][j]` is `1 / (x_i + y_j)` with the distinct nonzero
    /// points `x_i = 1 + i` and `y_j = 1 + row_size + j`. Fails with `TooManyFragments` when a
    /// dimension exceeds one byte, and with `FieldCapacityExceeded` when the field has fewer
    /// than `row_size + col_size` nonzero elements to take the points from.
    pub fn new_cauchy_matrix(gf: &Gf2p, row_size: usize, col_size: usize) -> (r: Result<Self, Error>)
        requires
            gf.wf(),
        ensures
            row_size > 255 || col_size > 255 ==> r == Err::<Self, Error>(Error::TooManyFragments),
            row_size <= 255 && col_size <= 255 && row_size + col_size >= gf.spec_count() ==> r
                == Err::<Self, Error>(Error::FieldCapacityExceeded),
            row_size <= 255 && col_size <= 255 && row_size + col_size < gf.spec_count() ==> r is Ok,
            r is Ok ==> {
                let m = r->Ok_0;
                &&& m.wf()
                &&& m.spec_rows() == row_size
                &&& m.spec_cols() == col_size
                &&& m.entries_below(gf.spec_count())
                &&& forall|i: int, j: int|
                    0 <= i < row_size && 0 <= j < col_size ==> #[trigger] m@[i][j] == gf.table_div(
                        1,
                        cauchy_x(i) ^ cauchy_y(row_size as int, j),
                    )
            },
    {
        if row_size > 0xFF || col_size > 0xFF {
            return Err(Error::TooManyFragments);
        }
        if row_size + col_size >= gf.get_element_count() {
            return Err(Error::FieldCapacityExceeded);
        }
        proof {
            gf.lemma_wf_params();
            gf.lemma_top_count();
        }
        let mut data: Vec<Vec<u8>> = Vec::new();
        for row in 0..row_size
            invariant
                gf.wf(),
                2 <= gf.spec_count() <= 256,
                row_size + col_size < gf.spec_count(),
                data@.len() == row,
                forall|k: int| 0 <= k < data@.len() ==> #[trigger] data@[k]@.len() == col_size,
                forall|k: int, j: int|
                    0 <= k < data@.len() && 0 <= j < col_size ==> #[trigger] data@[k]@[j] < gf.spec_count()
                        && data@[k]@[j] == gf.table_div(1, cauchy_x(k) ^ cauchy_y(row_size as int, j)),
        {
            let x: u8 = (1 + row) as u8;
            let mut new_row: Vec<u8> = Vec::new();
            for col in 0..col_size
                invariant
                    gf.wf(),
                    2 <= gf.spec_count() <= 256,
                    row < row_size,
                    row_size + col_size < gf.spec_count(),
                    x == cauchy_x(row as int),
                    new_row@.len() == col,
                    forall|j: int|
                        0 <= j < new_row@.len() ==> #[trigger] new_row@[j] < gf.spec_count()
                            && new_row@[j] == gf.table_div(1, cauchy_x(row as int) ^ cauchy_y(row_size as int, j)),
            {
                let y: u8 = (1 + row_size + col) as u8;
                proof {
                    gf.lemma_top_count();
                    lemma_xor_in_field(gf.spec_top(), x, y);
                }
                let s = gf.add(x, y);
                let v = gf.div_by_power_log_table(1, s);
                proof {
                    gf.lemma_table_div_in_field(1, s);
                }
                new_row.push(v);
            }
            data.push(new_row);
        }
        Ok(Matrix { row_size, col_size, data })
    }

    /// The `size` x `size` identity matrix; fails with `ZeroSizeMatrix` when `size` is 0.
    pub fn new_identity_matrix(size: usize) -> (r: Result<Self, Error>)
        ensures
            size == 0 ==> r == Err::<Self, Error>(Error::ZeroSizeMatrix),
            size > 0 ==> r is Ok && {
                let m = r->Ok_0;
                &&& m.wf()
                &&& m.spec_rows() == size
                &&& m.spec_cols() == size
                &&& forall|i: int, j: int|
                    0 <= i < size && 0 <= j < size ==> #[trigger] m@[i][j] == (if i == j { 1u8 } else { 0u8 })
            },
    {
        if size == 0 {
            return Err(Error::ZeroSizeMatrix);
        }
        let mut data: Vec<Vec<u8>> = Vec::new();
        for i in 0..size
            invariant
                data@.len() == i,
                forall|k: int| 0 <= k < data@.len() ==> #[trigger] data@[k]@.len() == size,
                forall|k: int, j: int|
                    0 <= k < data@.len() && 0 <= j < size ==> #[trigger] data@[k]@[j] == (if k == j { 1u8 } else { 0u8 }),
        {
            let mut row: Vec<u8> = Vec::new();
            for j in 0..size
                invariant
                    i < size,
                    row@.len() == j,
                    forall|l: int| 0 <= l < row@.len() ==> #[trigger] row@[l] == (if i == l { 1u8 } else { 0u8 }),
            {
                if i == j {
                    row.push(1);
                } else {
                    row.push(0);
                }
            }
            data.push(row);
        }
        Ok(Matrix { row_size: size, col_size: size, data })
    }

    /// The entries in row-major order.
    pub fn to_vector_u8(&self) -> (r: Vec<u8>)
        requires
            self.wf(),
        ensures
            r@ == flatten_rows(self@),
    {
        self.to_vector()
    }

    /// The product over the field of this matrix with `multiplier`, contracting the column
    /// index of both: entry `[m][n]` is the field dot product of row `m` of this matrix with
    /// row `n` of `multiplier`. The column counts must agree; the result is
    /// `row_size x multiplier.row_size`.
    pub fn mul_gf(&self, multiplier: &Matrix<u8>, gf: &Gf2p) -> (r: Result<Matrix<u8>, Error>)
        requires
            self.wf(),
            multiplier.wf(),
            gf.wf(),
            self.entries_below(gf.spec_count()),
            multiplier.entries_below(gf.spec_count()),
        ensures
            self.spec_cols() != multiplier.spec_cols() ==> r == Err::<Matrix<u8>, Error>(Error::DimensionMismatch),
            self.spec_cols() == multiplier.spec_cols() ==> r is Ok && {
                let m = r->Ok_0;
                &&& m.wf()
                &&& m.spec_rows() == self.spec_rows()
                &&& m.spec_cols() == multiplier.spec_rows()
                &&& forall|i: int, j: int|
                    0 <= i < self.spec_rows() && 0 <= j < multiplier.spec_rows() ==> #[trigger] m@[i][j]
                        == field_dot(*gf, self@[i], multiplier@[j], self.spec_cols())
            },
    {
        if self.col_size != multiplier.col_size {
            return Err(Error::DimensionMismatch);
        }
        let m = self.row_size;
        let p = self.col_size;
        let n = multiplier.row_size;
        let mut data: Vec<Vec<u8>> = Vec::new();
        for mkey in 0..m
            invariant
                self.wf(),
                multiplier.wf(),
                gf.wf(),
                self.entries_below(gf.spec_count()),
                multiplier.entries_below(gf.spec_count()),
                m == self.spec_rows(),
                p == self.spec_cols(),
                p == multiplier.spec_cols(),
                n == multiplier.spec_rows(),
                data@.len() == mkey,
                forall|k: int| 0 <= k < data@.len() ==> #[trigger] data@[k]@.len() == n,
                forall|k: int, j: int|
                    0 <= k < data@.len() && 0 <= j < n ==> #[trigger] data@[k]@[j] == field_dot(
                        *gf,
                        self@[k],
                        multiplier@[j],
                        p as nat,
                    ),
        {
            let mut row: Vec<u8> = Vec::new();
            for nkey in 0..n
                invariant
                    self.wf(),
                    multiplier.wf(),
                    gf.wf(),
                    self.entries_below(gf.spec_count()),
                    multiplier.entries_below(gf.spec_count()),
                    mkey < m,
                    m == self.spec_rows(),
                    p == self.spec_cols(),
                    p == multiplier.spec_cols(),
                    n == multiplier.spec_rows(),
                    row@.len() == nkey,
                    forall|j: int|
                        0 <= j < row@.len() ==> #[trigger] row@[j] == field_dot(
                            *gf,
                            self@[mkey as int],
                            multiplier@[j],
                            p as nat,
                        ),
            {
                let mut sum: u8 = 0;
                for pkey in 0..p
                    invariant
                        self.wf(),
                        multiplier.wf(),
                        gf.wf(),
                        self.entries_below(gf.spec_count()),
                        multiplier.entries_below(gf.spec_count()),
                        mkey < m,
                        nkey < n,
                        m == self.spec_rows(),
                        p == self.spec_cols(),
                        p == multiplier.spec_cols(),
                        n == multiplier.spec_rows(),
                        sum == field_dot(*gf, self@[mkey as int], multiplier@[nkey as int], pkey as nat),
                {
                    let a = self.data[mkey][pkey];
                    let b = multiplier.data[nkey][pkey];
                    assert(a == self@[mkey as int][pkey as int]);
                    assert(b == multiplier@[nkey as int][pkey as int]);
                    sum = gf.add(sum, gf.mul_by_power_log_table(a, b));
                }
                row.push(sum);
            }
            data.push(row);
        }
        Ok(Matrix { row_size: m, col_size: n, data })
    }
}

} // verus!
