//! Dense fixed-point matrices.
//!
//! A `Matrix` is a rectangular grid of fixed-point scalars, stored row by
//! row. Its mathematical view is a `Seq<Seq<int>>` of its entries in units.
//! Every operation states the value of every result entry exactly, and says
//! precisely on which inputs it returns each error instead.

use vstd::prelude::*;

use crate::error::NnError;
use crate::fx::{fx_mul_spec, trunc_div, DIM_LIMIT, SCALE, UNIT_BOUND};

verus! {

/// `s` is a grid of `r` rows and `c` columns.
pub open spec fn is_grid(s: Seq<Seq<int>>, r: int, c: int) -> bool {
    &&& s.len() == r
    &&& r >= 1
    &&& c >= 1
    &&& forall|i: int| 0 <= i < r ==> (#[trigger] s[i]).len() == c
}

/// Every entry of `s` is a representable fixed-point scalar.
pub open spec fn in_unit_bounds(s: Seq<Seq<int>>) -> bool {
    forall|i: int, j: int|
        0 <= i < s.len() && 0 <= j < s[i].len() ==> -UNIT_BOUND <= #[trigger] s[i][j] <= UNIT_BOUND
}

/// The two grids have the same dimensions.
pub open spec fn same_shape(a: Seq<Seq<int>>, b: Seq<Seq<int>>) -> bool {
    a.len() == b.len() && a[0].len() == b[0].len()
}

/// Every raw entry of `d` is a representable fixed-point scalar.
pub open spec fn units_ok(d: Seq<i64>) -> bool {
    forall|k: int| 0 <= k < d.len() ==> -UNIT_BOUND <= #[trigger] d[k] <= UNIT_BOUND
}

/// The grid of `r` rows and `c` columns whose rows are consecutive runs of
/// the flat sequence `d`.
pub open spec fn grid(r: int, c: int, d: Seq<i64>) -> Seq<Seq<int>> {
    Seq::new(r as nat, |i: int| Seq::new(c as nat, |j: int| d[i * c + j] as int))
}

/// Entrywise sum.
pub open spec fn mat_add_spec(a: Seq<Seq<int>>, b: Seq<Seq<int>>) -> Seq<Seq<int>> {
    Seq::new(a.len(), |i: int| Seq::new(a[0].len() as nat, |j: int| a[i][j] + b[i][j]))
}

/// Every entrywise sum is representable.
pub open spec fn add_fits(a: Seq<Seq<int>>, b: Seq<Seq<int>>) -> bool {
    forall|i: int, j: int|
        0 <= i < a.len() && 0 <= j < a[0].len()
            ==> -UNIT_BOUND <= #[trigger] (a[i][j] + b[i][j]) <= UNIT_BOUND
}

/// Entrywise difference.
pub open spec fn mat_sub_spec(a: Seq<Seq<int>>, b: Seq<Seq<int>>) -> Seq<Seq<int>> {
    Seq::new(a.len(), |i: int| Seq::new(a[0].len() as nat, |j: int| a[i][j] - b[i][j]))
}

/// Every entrywise difference is representable.
pub open spec fn sub_fits(a: Seq<Seq<int>>, b: Seq<Seq<int>>) -> bool {
    forall|i: int, j: int|
        0 <= i < a.len() && 0 <= j < a[0].len()
            ==> -UNIT_BOUND <= #[trigger] (a[i][j] - b[i][j]) <= UNIT_BOUND
}

/// Entrywise fixed-point product.
pub open spec fn mat_cmul_spec(a: Seq<Seq<int>>, b: Seq<Seq<int>>) -> Seq<Seq<int>> {
    Seq::new(a.len(), |i: int| Seq::new(a[0].len() as nat, |j: int| fx_mul_spec(a[i][j], b[i][j])))
}

/// Every entrywise fixed-point product is representable.
pub open spec fn cmul_fits(a: Seq<Seq<int>>, b: Seq<Seq<int>>) -> bool {
    forall|i: int, j: int|
        0 <= i < a.len() && 0 <= j < a[0].len()
            ==> -UNIT_BOUND <= #[trigger] fx_mul_spec(a[i][j], b[i][j]) <= UNIT_BOUND
}

/// The grid scaled entrywise by the fixed-point scalar `c`.
pub open spec fn mat_scale_spec(c: int, a: Seq<Seq<int>>) -> Seq<Seq<int>> {
    Seq::new(a.len(), |i: int| Seq::new(a[0].len() as nat, |j: int| fx_mul_spec(c, a[i][j])))
}

/// Every scaled entry is representable.
pub open spec fn scale_fits(c: int, a: Seq<Seq<int>>) -> bool {
    forall|i: int, j: int|
        0 <= i < a.len() && 0 <= j < a[0].len()
            ==> -UNIT_BOUND <= #[trigger] fx_mul_spec(c, a[i][j]) <= UNIT_BOUND
}

/// The grid plus a column vector, the vector's entry added to every entry
/// of its row (bias broadcast across the batch).
pub open spec fn mat_add_col_spec(a: Seq<Seq<int>>, v: Seq<Seq<int>>) -> Seq<Seq<int>> {
    Seq::new(a.len(), |i: int| Seq::new(a[0].len() as nat, |j: int| a[i][j] + v[i][0]))
}

/// Every broadcast sum is representable.
pub open spec fn add_col_fits(a: Seq<Seq<int>>, v: Seq<Seq<int>>) -> bool {
    forall|i: int, j: int|
        0 <= i < a.len() && 0 <= j < a[0].len()
            ==> -UNIT_BOUND <= #[trigger] (a[i][j] + v[i][0]) <= UNIT_BOUND
}

/// Sum of the first `k` products of row `i` of `a` with column `j` of `b`,
/// in raw (unscaled) units.
pub open spec fn dot_prefix(a: Seq<Seq<int>>, b: Seq<Seq<int>>, i: int, j: int, k: int) -> int
    decreases k,
{
    if k <= 0 {
        0
    } else {
        dot_prefix(a, b, i, j, k - 1) + a[i][k - 1] * b[k - 1][j]
    }
}

/// Entry `(i, j)` of the fixed-point matrix product: the full raw dot
/// product, scaled back once and truncated toward zero.
pub open spec fn mm_entry(a: Seq<Seq<int>>, b: Seq<Seq<int>>, i: int, j: int) -> int {
    trunc_div(dot_prefix(a, b, i, j, b.len() as int), SCALE as int)
}

/// The fixed-point matrix product.
pub open spec fn mat_mul_spec(a: Seq<Seq<int>>, b: Seq<Seq<int>>) -> Seq<Seq<int>> {
    Seq::new(a.len(), |i: int| Seq::new(b[0].len() as nat, |j: int| mm_entry(a, b, i, j)))
}

/// The inner dimension of `a · b` matches.
pub open spec fn mul_compat(a: Seq<Seq<int>>, b: Seq<Seq<int>>) -> bool {
    a[0].len() == b.len()
}

/// The inner dimension is accepted and every product entry is representable.
pub open spec fn mul_fits(a: Seq<Seq<int>>, b: Seq<Seq<int>>) -> bool {
    &&& b.len() <= DIM_LIMIT
    &&& forall|i: int, j: int|
        0 <= i < a.len() && 0 <= j < b[0].len()
            ==> -UNIT_BOUND <= #[trigger] mm_entry(a, b, i, j) <= UNIT_BOUND
}

/// The transposed grid.
pub open spec fn mat_transpose_spec(a: Seq<Seq<int>>) -> Seq<Seq<int>> {
    Seq::new(a[0].len() as nat, |i: int| Seq::new(a.len(), |j: int| a[j][i]))
}

/// Sum of the first `k` entries of row `i`, in units.
pub open spec fn row_total(a: Seq<Seq<int>>, i: int, k: int) -> int
    decreases k,
{
    if k <= 0 {
        0
    } else {
        row_total(a, i, k - 1) + a[i][k - 1]
    }
}

/// The column vector of full row sums.
pub open spec fn mat_row_sum_spec(a: Seq<Seq<int>>) -> Seq<Seq<int>> {
    Seq::new(a.len(), |i: int| Seq::new(1, |_j: int| row_total(a, i, a[0].len() as int)))
}

/// Every row sum is representable.
pub open spec fn row_sum_fits(a: Seq<Seq<int>>) -> bool {
    forall|i: int|
        0 <= i < a.len()
            ==> -UNIT_BOUND <= #[trigger] row_total(a, i, a[0].len() as int) <= UNIT_BOUND
}

/// A dense fixed-point matrix, stored row by row.
#[derive(Debug)]
pub struct Matrix {
    rows: usize,
    cols: usize,
    data: Vec<i64>,
}

impl View for Matrix {
    type V = Seq<Seq<int>>;

    closed spec fn view(&self) -> Seq<Seq<int>> {
        grid(self.rows as int, self.cols as int, self.data@)
    }
}

/// Row-major position of entry `(i, j)` in a `rows x cols` grid.
pub(crate) proof fn lemma_flat_index(i: int, j: int, rows: int, cols: int)
    requires
        0 <= i < rows,
        0 <= j < cols,
    ensures
        0 <= i * cols + j < rows * cols,
        (i * cols + j) / cols == i,
        (i * cols + j) % cols == j,
{
    assert(0 <= i * cols + j && i * cols + j <= (rows - 1) * cols + j && (rows - 1) * cols + j
        < rows * cols) by (nonlinear_arith)
        requires
            0 <= i < rows,
            0 <= j < cols,
    ;
    vstd::arithmetic::div_mod::lemma_fundamental_div_mod_converse(i * cols + j, cols, i, j);
}

/// Row and column of the entry at row-major position `t`.
pub(crate) proof fn lemma_unflat_index(t: int, rows: int, cols: int)
    requires
        rows >= 1,
        cols >= 1,
        0 <= t < rows * cols,
    ensures
        0 <= t / cols < rows,
        0 <= t % cols < cols,
        t == (t / cols) * cols + t % cols,
{
    vstd::arithmetic::div_mod::lemma_fundamental_div_mod(t, cols);
    vstd::arithmetic::div_mod::lemma_mod_division_less_than_divisor(t, cols);
    vstd::arithmetic::div_mod::lemma_div_pos_is_pos(t, cols);
    assert(t / cols < rows) by (nonlinear_arith)
        requires
            cols >= 1,
            t == cols * (t / cols) + t % cols,
            0 <= t % cols < cols,
            t < rows * cols,
    ;
    assert((t / cols) * cols == cols * (t / cols)) by (nonlinear_arith);
}

impl Matrix {
    /// The representation invariant: a nonempty rectangular grid of
    /// representable entries.
    #[verifier::type_invariant]
    pub closed spec fn wf(self) -> bool {
        &&& self.rows >= 1
        &&& self.cols >= 1
        &&& self.data@.len() == self.rows * self.cols
        &&& units_ok(self.data@)
    }

    /// Every matrix value is a bounded rectangular grid. The premise comes
    /// for free from `use_type_invariant` at any place a matrix exists.
    pub proof fn lemma_shape(&self)
        requires
            self.wf(),
        ensures
            is_grid(self@, self@.len() as int, self@[0].len() as int),
            in_unit_bounds(self@),
    {
        assert forall|i: int, j: int|
            0 <= i < self@.len() && 0 <= j < self@[i].len() implies -UNIT_BOUND
            <= #[trigger] self@[i][j] <= UNIT_BOUND by {
            lemma_flat_index(i, j, self.rows as int, self.cols as int);
        }
    }

    /// The entry count of a grid never exceeds what a vector can hold.
    pub proof fn lemma_data_len(&self)
        requires
            self.wf(),
        ensures
            self@.len() * self@[0].len() <= usize::MAX,
    {
        vstd::std_specs::vec::axiom_spec_len(&self.data);
    }

    /// Number of rows.
    pub fn nrows(&self) -> (r: usize)
        ensures
            r == self@.len(),
    {
        self.rows
    }

    /// Number of columns.
    pub fn ncols(&self) -> (r: usize)
        ensures
            r == self@[0].len(),
    {
        proof {
            use_type_invariant(self);
        }
        self.cols
    }

    /// The entry in row `i`, column `j`, in units.
    pub fn entry(&self, i: usize, j: usize) -> (r: i64)
        requires
            i < self@.len(),
            j < self@[0].len(),
        ensures
            r as int == self@[i as int][j as int],
    {
        proof {
            use_type_invariant(self);
            vstd::std_specs::vec::axiom_spec_len(&self.data);
            lemma_flat_index(i as int, j as int, self.rows as int, self.cols as int);
            assert((i as int) * (self.cols as int) + (j as int) < self.data@.len());
        }
        self.data[i * self.cols + j]
    }

    /// A matrix of the given shape with every entry zero.
    pub fn zeros(rows: usize, cols: usize) -> (r: Matrix)
        requires
            rows >= 1,
            cols >= 1,
            rows * cols <= usize::MAX,
        ensures
            is_grid(r@, rows as int, cols as int),
            forall|i: int, j: int| 0 <= i < rows && 0 <= j < cols ==> #[trigger] r@[i][j] == 0,
    {
        let n: usize = rows * cols;
        let mut data: Vec<i64> = Vec::new();
        let mut k: usize = 0;
        while k < n
            invariant
                k <= n,
                data@.len() == k,
                forall|t: int| 0 <= t < k ==> #[trigger] data@[t] == 0i64,
            decreases n - k,
        {
            data.push(0);
            k += 1;
        }
        let m = Matrix { rows, cols, data };
        proof {
            assert forall|i: int, j: int| 0 <= i < rows && 0 <= j < cols implies #[trigger] m@[i][j]
                == 0 by {
                lemma_flat_index(i, j, rows as int, cols as int);
            }
        }
        m
    }

    /// A matrix of the given shape whose entries, row by row, are the given
    /// units. Rejects a shape that does not match the data, and any entry
    /// outside the representable range.
    pub fn from_units(rows: usize, cols: usize, data: Vec<i64>) -> (r: Result<Matrix, NnError>)
        ensures
            match r {
                Ok(m) => {
                    &&& rows >= 1
                    &&& cols >= 1
                    &&& data@.len() == rows * cols
                    &&& units_ok(data@)
                    &&& m@ == grid(rows as int, cols as int, data@)
                    &&& is_grid(m@, rows as int, cols as int)
                },
                Err(NnError::ShapeMismatch) => !(rows >= 1 && cols >= 1 && data@.len() == rows
                    * cols),
                Err(NnError::Overflow) => rows >= 1 && cols >= 1 && data@.len() == rows * cols
                    && !units_ok(data@),
                Err(_) => false,
            },
    {
        if rows == 0 || cols == 0 {
            return Err(NnError::ShapeMismatch);
        }
        let n: usize = match rows.checked_mul(cols) {
            Some(n) => n,
            None => {
                proof {
                    vstd::std_specs::vec::axiom_spec_len(&data);
                    assert(data@.len() <= usize::MAX < rows * cols);
                }
                return Err(NnError::ShapeMismatch);
            },
        };
        if data.len() != n {
            return Err(NnError::ShapeMismatch);
        }
        let mut k: usize = 0;
        while k < n
            invariant
                k <= n,
                n == rows * cols,
                data@.len() == n,
                forall|t: int|
                    0 <= t < k ==> -UNIT_BOUND <= #[trigger] data@[t] <= UNIT_BOUND,
            decreases n - k,
        {
            let v = data[k];
            if v < -UNIT_BOUND || v > UNIT_BOUND {
                return Err(NnError::Overflow);
            }
            k += 1;
        }
        let m = Matrix { rows, cols, data };
        proof {
            assert(is_grid(m@, rows as int, cols as int));
        }
        Ok(m)
    }

    /// A matrix built from units the caller has already shown to be a
    /// well-formed grid.
    pub(crate) fn from_units_exact(rows: usize, cols: usize, data: Vec<i64>) -> (r: Matrix)
        requires
            rows >= 1,
            cols >= 1,
            data@.len() == rows * cols,
            units_ok(data@),
        ensures
            r@ == grid(rows as int, cols as int, data@),
            is_grid(r@, rows as int, cols as int),
    {
        let m = Matrix { rows, cols, data };
        proof {
            assert(is_grid(m@, rows as int, cols as int));
        }
        m
    }

    /// An exact copy.
    pub fn duplicate(&self) -> (r: Matrix)
        ensures
            r@ == self@,
    {
        proof {
            use_type_invariant(self);
        }
        let n: usize = self.data.len();
        let mut data: Vec<i64> = Vec::new();
        let mut k: usize = 0;
        while k < n
            invariant
                k <= n,
                n == self.data@.len(),
                data@.len() == k,
                forall|t: int| 0 <= t < k ==> #[trigger] data@[t] == self.data@[t],
            decreases n - k,
        {
            data.push(self.data[k]);
            k += 1;
        }
        proof {
            use_type_invariant(self);
            assert(data@ =~= self.data@);
        }
        Matrix { rows: self.rows, cols: self.cols, data }
    }

    /// The transpose.
    pub fn transpose(&self) -> (r: Matrix)
        ensures
            r@ == mat_transpose_spec(self@),
            is_grid(r@, self@[0].len() as int, self@.len() as int),
    {
        proof {
            use_type_invariant(self);
        }
        let rrows: usize = self.cols;
        let rcols: usize = self.rows;
        let mut data: Vec<i64> = Vec::new();
        let mut i: usize = 0;
        while i < rrows
            invariant
                i <= rrows,
                rrows == self.cols,
                rcols == self.rows,
                self.wf(),
                data@.len() == i * rcols,
                forall|t: int|
                    0 <= t < data@.len() ==> #[trigger] data@[t] == self.data@[(t % rcols as int)
                        * rrows as int + t / rcols as int],
            decreases rrows - i,
        {
            let mut j: usize = 0;
            while j < rcols
                invariant
                    i < rrows,
                    j <= rcols,
                    rrows == self.cols,
                    rcols == self.rows,
                    self.wf(),
                    data@.len() == i * rcols + j,
                    forall|t: int|
                        0 <= t < data@.len() ==> #[trigger] data@[t] == self.data@[(t
                            % rcols as int) * rrows as int + t / rcols as int],
                decreases rcols - j,
            {
                proof {
                    vstd::std_specs::vec::axiom_spec_len(&self.data);
                    lemma_flat_index(j as int, i as int, self.rows as int, self.cols as int);
                    lemma_flat_index(i as int, j as int, rrows as int, rcols as int);
                    assert((j as int) * (self.cols as int) + (i as int) < self.data@.len());
                }
                let v = self.data[j * self.cols + i];
                data.push(v);
                j += 1;
            }
            i += 1;
            proof {
                assert(i * rcols == (i - 1) * rcols + rcols) by (nonlinear_arith);
            }
        }
        proof {
            assert(rrows * rcols == self.rows * self.cols) by (nonlinear_arith)
                requires
                    rrows == self.cols,
                    rcols == self.rows,
            ;
            assert forall|t: int| 0 <= t < data@.len() implies -UNIT_BOUND <= #[trigger] data@[t]
                <= UNIT_BOUND by {
                lemma_unflat_index(t, rrows as int, rcols as int);
                lemma_flat_index(
                    t % rcols as int,
                    t / rcols as int,
                    self.rows as int,
                    self.cols as int,
                );
            }
        }
        let m = Matrix { rows: rrows, cols: rcols, data };
        proof {
            assert forall|a: int, b: int| 0 <= a < rrows && 0 <= b < rcols implies #[trigger] m@[a][b]
                == self@[b][a] by {
                lemma_flat_index(a, b, rrows as int, rcols as int);
                lemma_flat_index(b, a, self.rows as int, self.cols as int);
            }
            assert(m@ =~~= mat_transpose_spec(self@));
        }
        m
    }
}

/// One more product term keeps a partial dot product inside its running
/// bound, which never leaves the range an `i128` accumulator can hold.
proof fn lemma_dot_bound_step(acc: int, av: int, bv: int, t: int)
    requires
        -UNIT_BOUND <= av <= UNIT_BOUND,
        -UNIT_BOUND <= bv <= UNIT_BOUND,
        0 <= t < DIM_LIMIT,
        -t * UNIT_BOUND * UNIT_BOUND <= acc <= t * UNIT_BOUND * UNIT_BOUND,
    ensures
        -(t + 1) * UNIT_BOUND * UNIT_BOUND <= acc + av * bv <= (t + 1) * UNIT_BOUND * UNIT_BOUND,
        -(DIM_LIMIT as int) * UNIT_BOUND * UNIT_BOUND <= acc + av * bv <= (DIM_LIMIT as int)
            * UNIT_BOUND * UNIT_BOUND,
        (DIM_LIMIT as int) * UNIT_BOUND * UNIT_BOUND < i128::MAX,
{
    assert((t + 1) * UNIT_BOUND * UNIT_BOUND == t * UNIT_BOUND * UNIT_BOUND + UNIT_BOUND
        * UNIT_BOUND && -UNIT_BOUND * UNIT_BOUND <= av * bv <= UNIT_BOUND * UNIT_BOUND && (t + 1)
        * UNIT_BOUND * UNIT_BOUND <= (DIM_LIMIT as int) * UNIT_BOUND * UNIT_BOUND
        && (DIM_LIMIT as int) * UNIT_BOUND * UNIT_BOUND < i128::MAX) by (nonlinear_arith)
        requires
            -UNIT_BOUND <= av <= UNIT_BOUND,
            -UNIT_BOUND <= bv <= UNIT_BOUND,
            0 <= t < DIM_LIMIT,
    ;
}

impl Matrix {
    /// Entrywise sum. Returns the shape error when the dimensions differ,
    /// and the overflow error when some entry of the sum is not
    /// representable; otherwise every result entry is the exact sum.
    pub fn add(&self, other: &Matrix) -> (r: Result<Matrix, NnError>)
        ensures
            match r {
                Ok(m) => {
                    &&& same_shape(self@, other@)
                    &&& add_fits(self@, other@)
                    &&& m@ == mat_add_spec(self@, other@)
                    &&& is_grid(m@, self@.len() as int, self@[0].len() as int)
                },
                Err(NnError::ShapeMismatch) => !same_shape(self@, other@),
                Err(NnError::Overflow) => same_shape(self@, other@) && !add_fits(self@, other@),
                Err(_) => false,
            },
    {
        proof {
            use_type_invariant(self);
            use_type_invariant(other);
            self.lemma_shape();
            other.lemma_shape();
        }
        if self.rows != other.rows || self.cols != other.cols {
            return Err(NnError::ShapeMismatch);
        }
        let n: usize = self.data.len();
        let mut data: Vec<i64> = Vec::new();
        let mut k: usize = 0;
        while k < n
            invariant
                self.wf(),
                other.wf(),
                self.rows == other.rows,
                self.cols == other.cols,
                n == self.data@.len(),
                k <= n,
                data@.len() == k,
                forall|t: int|
                    0 <= t < k ==> #[trigger] data@[t] == self.data@[t] + other.data@[t]
                        && -UNIT_BOUND <= data@[t] <= UNIT_BOUND,
            decreases n - k,
        {
            let a = self.data[k];
            let b = other.data[k];
            let s = a + b;
            if s < -UNIT_BOUND || s > UNIT_BOUND {
                proof {
                    lemma_unflat_index(k as int, self.rows as int, self.cols as int);
                    let i = (k as int) / (self.cols as int);
                    let j = (k as int) % (self.cols as int);
                    assert(self@[i][j] == self.data@[k as int]);
                    assert(other@[i][j] == other.data@[k as int]);
                    assert(!(-UNIT_BOUND <= self@[i][j] + other@[i][j] <= UNIT_BOUND));
                    assert(!add_fits(self@, other@));
                }
                return Err(NnError::Overflow);
            }
            data.push(s);
            k += 1;
        }
        let m = Matrix { rows: self.rows, cols: self.cols, data };
        proof {
            assert forall|i: int, j: int|
                0 <= i < self@.len() && 0 <= j < self@[0].len() implies #[trigger] m@[i][j]
                == self@[i][j] + other@[i][j] by {
                lemma_flat_index(i, j, self.rows as int, self.cols as int);
            }
            assert(m@ =~~= mat_add_spec(self@, other@));
            assert forall|i: int, j: int|
                0 <= i < self@.len() && 0 <= j < self@[0].len() implies -UNIT_BOUND <= #[trigger] (
            self@[i][j] + other@[i][j]) <= UNIT_BOUND by {
                lemma_flat_index(i, j, self.rows as int, self.cols as int);
                let t = i * (self.cols as int) + j;
                assert(self@[i][j] == self.data@[t] as int);
                assert(other@[i][j] == other.data@[t] as int);
                assert(m.data@[t] == self.data@[t] + other.data@[t]);
                assert(-UNIT_BOUND <= m.data@[t] <= UNIT_BOUND);
            }
            assert(add_fits(self@, other@));
        }
        Ok(m)
    }

    /// Entrywise difference, under the same error contract as `add`.
    pub fn sub(&self, other: &Matrix) -> (r: Result<Matrix, NnError>)
        ensures
            match r {
                Ok(m) => {
                    &&& same_shape(self@, other@)
                    &&& sub_fits(self@, other@)
                    &&& m@ == mat_sub_spec(self@, other@)
                    &&& is_grid(m@, self@.len() as int, self@[0].len() as int)
                },
                Err(NnError::ShapeMismatch) => !same_shape(self@, other@),
                Err(NnError::Overflow) => same_shape(self@, other@) && !sub_fits(self@, other@),
                Err(_) => false,
            },
    {
        proof {
            use_type_invariant(self);
            use_type_invariant(other);
            self.lemma_shape();
            other.lemma_shape();
        }
        if self.rows != other.rows || self.cols != other.cols {
            return Err(NnError::ShapeMismatch);
        }
        let n: usize = self.data.len();
        let mut data: Vec<i64> = Vec::new();
        let mut k: usize = 0;
        while k < n
            invariant
                self.wf(),
                other.wf(),
                self.rows == other.rows,
                self.cols == other.cols,
                n == self.data@.len(),
                k <= n,
                data@.len() == k,
                forall|t: int|
                    0 <= t < k ==> #[trigger] data@[t] == self.data@[t] - other.data@[t]
                        && -UNIT_BOUND <= data@[t] <= UNIT_BOUND,
            decreases n - k,
        {
            let a = self.data[k];
            let b = other.data[k];
            let s = a - b;
            if s < -UNIT_BOUND || s > UNIT_BOUND {
                proof {
                    lemma_unflat_index(k as int, self.rows as int, self.cols as int);
                    let i = (k as int) / (self.cols as int);
                    let j = (k as int) % (self.cols as int);
                    assert(self@[i][j] == self.data@[k as int]);
                    assert(other@[i][j] == other.data@[k as int]);
                    assert(!(-UNIT_BOUND <= self@[i][j] - other@[i][j] <= UNIT_BOUND));
                    assert(!sub_fits(self@, other@));
                }
                return Err(NnError::Overflow);
            }
            data.push(s);
            k += 1;
        }
        let m = Matrix { rows: self.rows, cols: self.cols, data };
        proof {
            assert forall|i: int, j: int|
                0 <= i < self@.len() && 0 <= j < self@[0].len() implies #[trigger] m@[i][j]
                == self@[i][j] - other@[i][j] by {
                lemma_flat_index(i, j, self.rows as int, self.cols as int);
            }
            assert(m@ =~~= mat_sub_spec(self@, other@));
            assert forall|i: int, j: int|
                0 <= i < self@.len() && 0 <= j < self@[0].len() implies -UNIT_BOUND <= #[trigger] (
            self@[i][j] - other@[i][j]) <= UNIT_BOUND by {
                lemma_flat_index(i, j, self.rows as int, self.cols as int);
                let t = i * (self.cols as int) + j;
                assert(self@[i][j] == self.data@[t] as int);
                assert(other@[i][j] == other.data@[t] as int);
                assert(m.data@[t] == self.data@[t] - other.data@[t]);
                assert(-UNIT_BOUND <= m.data@[t] <= UNIT_BOUND);
            }
            assert(sub_fits(self@, other@));
        }
        Ok(m)
    }

    /// Entrywise fixed-point product, under the same error contract as
    /// `add`.
    pub fn component_mul(&self, other: &Matrix) -> (r: Result<Matrix, NnError>)
        ensures
            match r {
                Ok(m) => {
                    &&& same_shape(self@, other@)
                    &&& cmul_fits(self@, other@)
                    &&& m@ == mat_cmul_spec(self@, other@)
                    &&& is_grid(m@, self@.len() as int, self@[0].len() as int)
                },
                Err(NnError::ShapeMismatch) => !same_shape(self@, other@),
                Err(NnError::Overflow) => same_shape(self@, other@) && !cmul_fits(self@, other@),
                Err(_) => false,
            },
    {
        proof {
            use_type_invariant(self);
            use_type_invariant(other);
            self.lemma_shape();
            other.lemma_shape();
        }
        if self.rows != other.rows || self.cols != other.cols {
            return Err(NnError::ShapeMismatch);
        }
        let n: usize = self.data.len();
        let mut data: Vec<i64> = Vec::new();
        let mut k: usize = 0;
        while k < n
            invariant
                self.wf(),
                other.wf(),
                self.rows == other.rows,
                self.cols == other.cols,
                n == self.data@.len(),
                k <= n,
                data@.len() == k,
                forall|t: int|
                    0 <= t < k ==> #[trigger] data@[t] == fx_mul_spec(
                        self.data@[t] as int,
                        other.data@[t] as int,
                    ) && -UNIT_BOUND <= data@[t] <= UNIT_BOUND,
            decreases n - k,
        {
            let a = self.data[k];
            let b = other.data[k];
            match crate::fx::fx_mul_checked(a, b) {
                Some(v) => {
                    data.push(v);
                },
                None => {
                    proof {
                        lemma_unflat_index(k as int, self.rows as int, self.cols as int);
                        let i = (k as int) / (self.cols as int);
                        let j = (k as int) % (self.cols as int);
                        assert(self@[i][j] == self.data@[k as int]);
                        assert(other@[i][j] == other.data@[k as int]);
                        assert(!(-UNIT_BOUND <= fx_mul_spec(self@[i][j], other@[i][j])
                            <= UNIT_BOUND));
                        assert(!cmul_fits(self@, other@));
                    }
                    return Err(NnError::Overflow);
                },
            }
            k += 1;
        }
        let m = Matrix { rows: self.rows, cols: self.cols, data };
        proof {
            assert forall|i: int, j: int|
                0 <= i < self@.len() && 0 <= j < self@[0].len() implies #[trigger] m@[i][j]
                == fx_mul_spec(self@[i][j], other@[i][j]) by {
                lemma_flat_index(i, j, self.rows as int, self.cols as int);
            }
            assert(m@ =~~= mat_cmul_spec(self@, other@));
            assert forall|i: int, j: int|
                0 <= i < self@.len() && 0 <= j < self@[0].len() implies -UNIT_BOUND
                <= #[trigger] fx_mul_spec(self@[i][j], other@[i][j]) <= UNIT_BOUND by {
                lemma_flat_index(i, j, self.rows as int, self.cols as int);
                let t = i * (self.cols as int) + j;
                assert(self@[i][j] == self.data@[t] as int);
                assert(other@[i][j] == other.data@[t] as int);
                assert(m.data@[t] == fx_mul_spec(self.data@[t] as int, other.data@[t] as int));
                assert(-UNIT_BOUND <= m.data@[t] <= UNIT_BOUND);
            }
            assert(cmul_fits(self@, other@));
        }
        Ok(m)
    }

    /// Every entry scaled by the fixed-point scalar `c`. Fails only with
    /// the overflow error, exactly when some scaled entry is not
    /// representable.
    pub fn scale(&self, c: i64) -> (r: Result<Matrix, NnError>)
        requires
            -UNIT_BOUND <= c <= UNIT_BOUND,
        ensures
            match r {
                Ok(m) => {
                    &&& scale_fits(c as int, self@)
                    &&& m@ == mat_scale_spec(c as int, self@)
                    &&& is_grid(m@, self@.len() as int, self@[0].len() as int)
                },
                Err(NnError::Overflow) => !scale_fits(c as int, self@),
                Err(_) => false,
            },
    {
        proof {
            use_type_invariant(self);
            self.lemma_shape();
        }
        let n: usize = self.data.len();
        let mut data: Vec<i64> = Vec::new();
        let mut k: usize = 0;
        while k < n
            invariant
                self.wf(),
                -UNIT_BOUND <= c <= UNIT_BOUND,
                n == self.data@.len(),
                k <= n,
                data@.len() == k,
                forall|t: int|
                    0 <= t < k ==> #[trigger] data@[t] == fx_mul_spec(c as int, self.data@[t] as int)
                        && -UNIT_BOUND <= data@[t] <= UNIT_BOUND,
            decreases n - k,
        {
            let a = self.data[k];
            match crate::fx::fx_mul_checked(c, a) {
                Some(v) => {
                    data.push(v);
                },
                None => {
                    proof {
                        lemma_unflat_index(k as int, self.rows as int, self.cols as int);
                        let i = (k as int) / (self.cols as int);
                        let j = (k as int) % (self.cols as int);
                        assert(self@[i][j] == self.data@[k as int]);
                        assert(!(-UNIT_BOUND <= fx_mul_spec(c as int, self@[i][j]) <= UNIT_BOUND));
                        assert(!scale_fits(c as int, self@));
                    }
                    return Err(NnError::Overflow);
                },
            }
            k += 1;
        }
        let m = Matrix { rows: self.rows, cols: self.cols, data };
        proof {
            assert forall|i: int, j: int|
                0 <= i < self@.len() && 0 <= j < self@[0].len() implies #[trigger] m@[i][j]
                == fx_mul_spec(c as int, self@[i][j]) by {
                lemma_flat_index(i, j, self.rows as int, self.cols as int);
            }
            assert(m@ =~~= mat_scale_spec(c as int, self@));
            assert forall|i: int, j: int|
                0 <= i < self@.len() && 0 <= j < self@[0].len() implies -UNIT_BOUND
                <= #[trigger] fx_mul_spec(c as int, self@[i][j]) <= UNIT_BOUND by {
                lemma_flat_index(i, j, self.rows as int, self.cols as int);
                let t = i * (self.cols as int) + j;
                assert(self@[i][j] == self.data@[t] as int);
                assert(m.data@[t] == fx_mul_spec(c as int, self.data@[t] as int));
                assert(-UNIT_BOUND <= m.data@[t] <= UNIT_BOUND);
            }
            assert(scale_fits(c as int, self@));
        }
        Ok(m)
    }

    /// Sum with a column vector broadcast across the columns: entry `(i, j)`
    /// of the result is `self[i][j] + col[i][0]`.
    pub fn add_col(&self, col: &Matrix) -> (r: Result<Matrix, NnError>)
        ensures
            match r {
                Ok(m) => {
                    &&& col@.len() == self@.len()
                    &&& col@[0].len() == 1
                    &&& add_col_fits(self@, col@)
                    &&& m@ == mat_add_col_spec(self@, col@)
                    &&& is_grid(m@, self@.len() as int, self@[0].len() as int)
                },
                Err(NnError::ShapeMismatch) => !(col@.len() == self@.len() && col@[0].len() == 1),
                Err(NnError::Overflow) => col@.len() == self@.len() && col@[0].len() == 1
                    && !add_col_fits(self@, col@),
                Err(_) => false,
            },
    {
        proof {
            use_type_invariant(self);
            use_type_invariant(col);
            self.lemma_shape();
            col.lemma_shape();
        }
        if col.nrows() != self.rows || col.ncols() != 1 {
            return Err(NnError::ShapeMismatch);
        }
        let n: usize = self.data.len();
        let mut data: Vec<i64> = Vec::new();
        let mut k: usize = 0;
        while k < n
            invariant
                self.wf(),
                col.wf(),
                col@.len() == self@.len(),
                col@[0].len() == 1,
                n == self.data@.len(),
                k <= n,
                data@.len() == k,
                forall|t: int|
                    0 <= t < k ==> #[trigger] data@[t] == self.data@[t]
                        + col@[t / (self.cols as int)][0]
                        && -UNIT_BOUND <= data@[t] <= UNIT_BOUND,
            decreases n - k,
        {
            proof {
                lemma_unflat_index(k as int, self.rows as int, self.cols as int);
            }
            let a = self.data[k];
            let b = col.entry(k / self.cols, 0);
            proof {
                col.lemma_shape();
            }
            let s = a + b;
            if s < -UNIT_BOUND || s > UNIT_BOUND {
                proof {
                    let i = (k as int) / (self.cols as int);
                    let j = (k as int) % (self.cols as int);
                    assert(self@[i][j] == self.data@[k as int]);
                    assert(!(-UNIT_BOUND <= self@[i][j] + col@[i][0] <= UNIT_BOUND));
                    assert(!add_col_fits(self@, col@));
                }
                return Err(NnError::Overflow);
            }
            data.push(s);
            k += 1;
        }
        let m = Matrix { rows: self.rows, cols: self.cols, data };
        proof {
            assert forall|i: int, j: int|
                0 <= i < self@.len() && 0 <= j < self@[0].len() implies #[trigger] m@[i][j]
                == self@[i][j] + col@[i][0] by {
                lemma_flat_index(i, j, self.rows as int, self.cols as int);
            }
            assert(m@ =~~= mat_add_col_spec(self@, col@));
            assert forall|i: int, j: int|
                0 <= i < self@.len() && 0 <= j < self@[0].len() implies -UNIT_BOUND <= #[trigger] (
            self@[i][j] + col@[i][0]) <= UNIT_BOUND by {
                lemma_flat_index(i, j, self.rows as int, self.cols as int);
                let t = i * (self.cols as int) + j;
                assert(self@[i][j] == self.data@[t] as int);
                assert(m.data@[t] == self.data@[t] + col@[t / (self.cols as int)][0]);
                assert(-UNIT_BOUND <= m.data@[t] <= UNIT_BOUND);
            }
            assert(add_col_fits(self@, col@));
        }
        Ok(m)
    }

    /// Fixed-point matrix product. Returns the shape error when the inner
    /// dimensions differ; the overflow error when the inner dimension
    /// exceeds `DIM_LIMIT` or some product entry is not representable;
    /// otherwise every result entry is the truncated scaled dot product.
    pub fn matmul(&self, other: &Matrix) -> (r: Result<Matrix, NnError>)
        ensures
            match r {
                Ok(m) => {
                    &&& mul_compat(self@, other@)
                    &&& mul_fits(self@, other@)
                    &&& m@ == mat_mul_spec(self@, other@)
                    &&& is_grid(m@, self@.len() as int, other@[0].len() as int)
                },
                Err(NnError::ShapeMismatch) => !mul_compat(self@, other@),
                Err(NnError::Overflow) => mul_compat(self@, other@) && !mul_fits(self@, other@),
                Err(_) => false,
            },
    {
        proof {
            use_type_invariant(self);
            use_type_invariant(other);
            self.lemma_shape();
            other.lemma_shape();
        }
        if self.cols != other.rows {
            return Err(NnError::ShapeMismatch);
        }
        if self.cols > DIM_LIMIT {
            return Err(NnError::Overflow);
        }
        let arows: usize = self.rows;
        let inner: usize = self.cols;
        let bcols: usize = other.cols;
        let mut data: Vec<i64> = Vec::new();
        let mut i: usize = 0;
        while i < arows
            invariant
                self.wf(),
                other.wf(),
                arows == self.rows,
                inner == self.cols,
                bcols == other.cols,
                self.cols == other.rows,
                inner <= DIM_LIMIT,
                i <= arows,
                data@.len() == i * bcols,
                forall|t: int|
                    0 <= t < data@.len() ==> #[trigger] data@[t] == mm_entry(
                        self@,
                        other@,
                        t / (bcols as int),
                        t % (bcols as int),
                    ) && -UNIT_BOUND <= data@[t] <= UNIT_BOUND,
            decreases arows - i,
        {
            let mut j: usize = 0;
            while j < bcols
                invariant
                    self.wf(),
                    other.wf(),
                    arows == self.rows,
                    inner == self.cols,
                    bcols == other.cols,
                    self.cols == other.rows,
                    inner <= DIM_LIMIT,
                    i < arows,
                    j <= bcols,
                    data@.len() == i * bcols + j,
                    forall|t: int|
                        0 <= t < data@.len() ==> #[trigger] data@[t] == mm_entry(
                            self@,
                            other@,
                            t / (bcols as int),
                            t % (bcols as int),
                        ) && -UNIT_BOUND <= data@[t] <= UNIT_BOUND,
                decreases bcols - j,
            {
                let mut acc: i128 = 0;
                let mut t: usize = 0;
                while t < inner
                    invariant
                        self.wf(),
                        other.wf(),
                        arows == self.rows,
                        inner == self.cols,
                        bcols == other.cols,
                        self.cols == other.rows,
                        inner <= DIM_LIMIT,
                        i < arows,
                        j < bcols,
                        t <= inner,
                        acc == dot_prefix(self@, other@, i as int, j as int, t as int),
                        -(t as int) * UNIT_BOUND * UNIT_BOUND <= acc <= (t as int) * UNIT_BOUND
                            * UNIT_BOUND,
                    decreases inner - t,
                {
                    proof {
                        self.lemma_shape();
                        other.lemma_shape();
                    }
                    let av = self.entry(i, t);
                    let bv = other.entry(t, j);
                    proof {
                        lemma_dot_bound_step(acc as int, av as int, bv as int, t as int);
                        assert(dot_prefix(self@, other@, i as int, j as int, (t + 1) as int)
                            == dot_prefix(self@, other@, i as int, j as int, t as int)
                            + self@[i as int][t as int] * other@[t as int][j as int]);
                    }
                    acc = acc + (av as i128) * (bv as i128);
                    t += 1;
                }
                let q: i128 = if acc >= 0 {
                    acc / (SCALE as i128)
                } else {
                    -((-acc) / (SCALE as i128))
                };
                proof {
                    assert(q == mm_entry(self@, other@, i as int, j as int));
                }
                if q < -(UNIT_BOUND as i128) || q > UNIT_BOUND as i128 {
                    proof {
                        assert(!(-UNIT_BOUND <= mm_entry(self@, other@, i as int, j as int)
                            <= UNIT_BOUND));
                        assert(!mul_fits(self@, other@));
                    }
                    return Err(NnError::Overflow);
                }
                proof {
                    lemma_flat_index(i as int, j as int, arows as int, bcols as int);
                }
                data.push(q as i64);
                j += 1;
            }
            i += 1;
            proof {
                assert(i * bcols == (i - 1) * bcols + bcols) by (nonlinear_arith);
            }
        }
        proof {
            assert(arows * bcols == data@.len());
        }
        let m = Matrix { rows: arows, cols: bcols, data };
        proof {
            assert forall|a: int, b: int|
                0 <= a < arows && 0 <= b < bcols implies #[trigger] m@[a][b] == mm_entry(
                self@,
                other@,
                a,
                b,
            ) by {
                lemma_flat_index(a, b, arows as int, bcols as int);
            }
            assert(m@ =~~= mat_mul_spec(self@, other@));
            assert forall|a: int, b: int|
                0 <= a < self@.len() && 0 <= b < other@[0].len() implies -UNIT_BOUND
                <= #[trigger] mm_entry(self@, other@, a, b) <= UNIT_BOUND by {
                lemma_flat_index(a, b, arows as int, bcols as int);
                let t = a * (bcols as int) + b;
                assert(m.data@[t] == mm_entry(self@, other@, t / (bcols as int), t % (
                bcols as int)));
                assert(-UNIT_BOUND <= m.data@[t] <= UNIT_BOUND);
            }
            assert(mul_fits(self@, other@));
        }
        Ok(m)
    }

    /// The column vector of row sums (the batch dimension summed away).
    /// Fails only with the overflow error, exactly when some row sum is
    /// not representable.
    pub fn row_sum(&self) -> (r: Result<Matrix, NnError>)
        ensures
            match r {
                Ok(m) => {
                    &&& row_sum_fits(self@)
                    &&& m@ == mat_row_sum_spec(self@)
                    &&& is_grid(m@, self@.len() as int, 1)
                },
                Err(NnError::Overflow) => !row_sum_fits(self@),
                Err(_) => false,
            },
    {
        proof {
            use_type_invariant(self);
            self.lemma_shape();
        }
        let rows: usize = self.rows;
        let cols: usize = self.cols;
        let mut data: Vec<i64> = Vec::new();
        let mut i: usize = 0;
        while i < rows
            invariant
                self.wf(),
                rows == self.rows,
                cols == self.cols,
                i <= rows,
                data@.len() == i,
                forall|t: int|
                    0 <= t < i ==> #[trigger] data@[t] == row_total(self@, t, cols as int)
                        && -UNIT_BOUND <= data@[t] <= UNIT_BOUND,
            decreases rows - i,
        {
            let mut acc: i128 = 0;
            let mut j: usize = 0;
            while j < cols
                invariant
                    self.wf(),
                    rows == self.rows,
                    cols == self.cols,
                    i < rows,
                    j <= cols,
                    acc == row_total(self@, i as int, j as int),
                    -(j as int) * UNIT_BOUND <= acc <= (j as int) * UNIT_BOUND,
                decreases cols - j,
            {
                proof {
                    self.lemma_shape();
                }
                let v = self.entry(i, j);
                proof {
                    assert((j as int) * UNIT_BOUND + UNIT_BOUND == ((j as int) + 1) * UNIT_BOUND
                        && ((j as int) + 1) * UNIT_BOUND <= (cols as int) * UNIT_BOUND && (
                    cols as int) * UNIT_BOUND < i128::MAX) by (nonlinear_arith)
                        requires
                            0 <= j < cols,
                            cols <= usize::MAX,
                    ;
                    assert(row_total(self@, i as int, (j + 1) as int) == row_total(
                        self@,
                        i as int,
                        j as int,
                    ) + self@[i as int][j as int]);
                }
                acc = acc + (v as i128);
                j += 1;
            }
            if acc < -(UNIT_BOUND as i128) || acc > UNIT_BOUND as i128 {
                proof {
                    assert(!(-UNIT_BOUND <= row_total(self@, i as int, self@[0].len() as int)
                        <= UNIT_BOUND));
                    assert(!row_sum_fits(self@));
                }
                return Err(NnError::Overflow);
            }
            data.push(acc as i64);
            i += 1;
        }
        let m = Matrix { rows, cols: 1, data };
        proof {
            assert forall|a: int, b: int| 0 <= a < rows && 0 <= b < 1 implies #[trigger] m@[a][b]
                == row_total(self@, a, self@[0].len() as int) by {
                lemma_flat_index(a, b, rows as int, 1);
            }
            assert(m@ =~~= mat_row_sum_spec(self@));
            assert forall|a: int|
                0 <= a < self@.len() implies -UNIT_BOUND <= #[trigger] row_total(
                self@,
                a,
                self@[0].len() as int,
            ) <= UNIT_BOUND by {
                lemma_flat_index(a, 0, rows as int, 1);
                assert(m.data@[a] == row_total(self@, a, cols as int));
                assert(-UNIT_BOUND <= m.data@[a] <= UNIT_BOUND);
            }
            assert(row_sum_fits(self@));
        }
        Ok(m)
    }
}

} // verus!
