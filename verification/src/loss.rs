//! Mean squared error loss.
//!
//! `forward` reduces the entrywise squared differences between a prediction
//! and a target to one scalar (the mean, in units) and stores the pair;
//! `backward` returns the gradient of that mean with respect to the
//! prediction, `2·(prediction − target) / n`, truncated toward zero.

use vstd::prelude::*;

use crate::error::NnError;
use crate::fx::{trunc_div, DIM_LIMIT, SCALE, UNIT_BOUND};
use crate::matrix::{is_grid, lemma_flat_index, same_shape, Matrix};

verus! {

/// Sum of the squared differences over the first `k` entries of row `i`.
pub open spec fn row_sq_prefix(p: Seq<Seq<int>>, y: Seq<Seq<int>>, i: int, k: int) -> int
    decreases k,
{
    if k <= 0 {
        0
    } else {
        row_sq_prefix(p, y, i, k - 1) + (p[i][k - 1] - y[i][k - 1]) * (p[i][k - 1] - y[i][k - 1])
    }
}

/// Sum of the squared differences over the first `k` full rows.
pub open spec fn sq_prefix(p: Seq<Seq<int>>, y: Seq<Seq<int>>, k: int) -> int
    decreases k,
{
    if k <= 0 {
        0
    } else {
        sq_prefix(p, y, k - 1) + row_sq_prefix(p, y, k - 1, p[0].len() as int)
    }
}

/// The mean squared error in units: the raw squared-difference total over
/// all entries, divided by the entry count and by one scale factor.
pub open spec fn mse_value_spec(p: Seq<Seq<int>>, y: Seq<Seq<int>>) -> int {
    sq_prefix(p, y, p.len() as int) / ((p.len() * p[0].len()) as int * (SCALE as int))
}

/// The loss reduction succeeds: shapes match, the entry count is accepted,
/// and the mean is representable.
pub open spec fn mse_fits(p: Seq<Seq<int>>, y: Seq<Seq<int>>) -> bool {
    &&& p.len() * p[0].len() <= DIM_LIMIT
    &&& mse_value_spec(p, y) <= UNIT_BOUND
}

/// Entry `(i, j)` of the loss gradient: `2·(p − y) / n`, truncated toward
/// zero, where `n` is the number of entries.
pub open spec fn mse_grad_entry(p: Seq<Seq<int>>, y: Seq<Seq<int>>, i: int, j: int) -> int {
    trunc_div(2 * (p[i][j] - y[i][j]), (p.len() * p[0].len()) as int)
}

/// The loss gradient with respect to the prediction.
pub open spec fn mse_grad_spec(p: Seq<Seq<int>>, y: Seq<Seq<int>>) -> Seq<Seq<int>> {
    Seq::new(p.len(), |i: int| Seq::new(p[0].len() as nat, |j: int| mse_grad_entry(p, y, i, j)))
}

/// Every gradient entry is representable.
pub open spec fn mse_grad_fits(p: Seq<Seq<int>>, y: Seq<Seq<int>>) -> bool {
    forall|i: int, j: int|
        0 <= i < p.len() && 0 <= j < p[0].len()
            ==> -UNIT_BOUND <= #[trigger] mse_grad_entry(p, y, i, j) <= UNIT_BOUND
}

/// One more squared difference keeps the running total inside the range an
/// `i128` accumulator can hold.
proof fn lemma_sq_bound_step(acc: int, d: int, t: int)
    requires
        -2 * UNIT_BOUND <= d <= 2 * UNIT_BOUND,
        0 <= t < DIM_LIMIT,
        0 <= acc <= t * (4 * UNIT_BOUND * UNIT_BOUND),
    ensures
        0 <= acc + d * d <= (t + 1) * (4 * UNIT_BOUND * UNIT_BOUND),
        (t + 1) * (4 * UNIT_BOUND * UNIT_BOUND) <= (DIM_LIMIT as int) * (4 * UNIT_BOUND
            * UNIT_BOUND),
        (DIM_LIMIT as int) * (4 * UNIT_BOUND * UNIT_BOUND) < i128::MAX,
{
    assert(0 <= d * d <= 4 * UNIT_BOUND * UNIT_BOUND && (t + 1) * (4 * UNIT_BOUND * UNIT_BOUND)
        == t * (4 * UNIT_BOUND * UNIT_BOUND) + 4 * UNIT_BOUND * UNIT_BOUND && (t + 1) * (4
        * UNIT_BOUND * UNIT_BOUND) <= (DIM_LIMIT as int) * (4 * UNIT_BOUND * UNIT_BOUND) && (
    DIM_LIMIT as int) * (4 * UNIT_BOUND * UNIT_BOUND) < i128::MAX) by (nonlinear_arith)
        requires
            -2 * UNIT_BOUND <= d <= 2 * UNIT_BOUND,
            0 <= t < DIM_LIMIT,
    ;
}

/// The squared-difference total is never negative.
proof fn lemma_sq_prefix_nonneg(p: Seq<Seq<int>>, y: Seq<Seq<int>>, k: int)
    ensures
        sq_prefix(p, y, k) >= 0,
    decreases k,
{
    if k > 0 {
        lemma_sq_prefix_nonneg(p, y, k - 1);
        lemma_row_sq_prefix_nonneg(p, y, k - 1, p[0].len() as int);
    }
}

/// A row's squared-difference total is never negative.
proof fn lemma_row_sq_prefix_nonneg(p: Seq<Seq<int>>, y: Seq<Seq<int>>, i: int, k: int)
    ensures
        row_sq_prefix(p, y, i, k) >= 0,
    decreases k,
{
    if k > 0 {
        lemma_row_sq_prefix_nonneg(p, y, i, k - 1);
        let d = p[i][k - 1] - y[i][k - 1];
        assert(d * d >= 0) by (nonlinear_arith);
    }
}

/// The mean-squared-error loss with its stored prediction/target pair.
pub struct MeanSquaredError {
    /// The prediction and target of the most recent forward pass.
    pub cache: Option<(Matrix, Matrix)>,
}

impl MeanSquaredError {
    /// The views of the stored prediction and target, if any.
    pub open spec fn cache_view(&self) -> Option<(Seq<Seq<int>>, Seq<Seq<int>>)> {
        match self.cache {
            Some((p, y)) => Some((p@, y@)),
            None => None,
        }
    }

    /// The stored prediction and target have equal shapes.
    pub open spec fn wf(&self) -> bool {
        self.cache_view() matches Some((p, y)) ==> same_shape(p, y)
    }

    /// A fresh instance with nothing stored.
    pub fn new() -> (r: MeanSquaredError)
        ensures
            r.cache_view() is None,
            r.wf(),
    {
        MeanSquaredError { cache: None }
    }

    /// Reduces the squared differences to their mean, in units, and stores
    /// the pair for the backward pass. Fails with the shape error when the
    /// shapes differ, and with the overflow error when the entry count or
    /// the mean is not representable; on failure nothing is changed.
    pub fn forward(&mut self, pred: &Matrix, target: &Matrix) -> (r: Result<i64, NnError>)
        ensures
            match r {
                Ok(v) => {
                    &&& same_shape(pred@, target@)
                    &&& mse_fits(pred@, target@)
                    &&& 0 <= v == mse_value_spec(pred@, target@)
                    &&& final(self).cache_view() == Some((pred@, target@))
                    &&& final(self).wf()
                },
                Err(NnError::ShapeMismatch) => !same_shape(pred@, target@) && *final(self) == *old(
                    self,
                ),
                Err(NnError::Overflow) => same_shape(pred@, target@) && !mse_fits(pred@, target@)
                    && *final(self) == *old(self),
                Err(_) => false,
            },
    {
        proof {
            use_type_invariant(pred);
            use_type_invariant(target);
            pred.lemma_shape();
            target.lemma_shape();
        }
        let rows = pred.nrows();
        let cols = pred.ncols();
        if rows != target.nrows() || cols != target.ncols() {
            return Err(NnError::ShapeMismatch);
        }
        proof {
            pred.lemma_data_len();
        }
        let n: usize = rows * cols;
        if n > DIM_LIMIT {
            return Err(NnError::Overflow);
        }
        let mut acc: i128 = 0;
        let mut i: usize = 0;
        while i < rows
            invariant
                pred.wf(),
                target.wf(),
                rows == pred@.len(),
                cols == pred@[0].len(),
                rows == target@.len(),
                cols == target@[0].len(),
                n == rows * cols,
                n <= DIM_LIMIT,
                i <= rows,
                acc == sq_prefix(pred@, target@, i as int),
                0 <= acc <= (i * cols) as int * (4 * UNIT_BOUND * UNIT_BOUND),
            decreases rows - i,
        {
            let mut j: usize = 0;
            while j < cols
                invariant
                    pred.wf(),
                    target.wf(),
                    rows == pred@.len(),
                    cols == pred@[0].len(),
                    rows == target@.len(),
                    cols == target@[0].len(),
                    n == rows * cols,
                    n <= DIM_LIMIT,
                    i < rows,
                    j <= cols,
                    acc == sq_prefix(pred@, target@, i as int) + row_sq_prefix(
                        pred@,
                        target@,
                        i as int,
                        j as int,
                    ),
                    0 <= acc <= ((i * cols) as int + j as int) * (4 * UNIT_BOUND * UNIT_BOUND),
                decreases cols - j,
            {
                proof {
                    pred.lemma_shape();
                    target.lemma_shape();
                    lemma_flat_index(i as int, j as int, rows as int, cols as int);
                }
                let pv = pred.entry(i, j);
                let yv = target.entry(i, j);
                let d: i128 = (pv as i128) - (yv as i128);
                proof {
                    lemma_sq_bound_step(
                        acc as int,
                        d as int,
                        (i * cols) as int + j as int,
                    );
                }
                acc = acc + d * d;
                j += 1;
            }
            i += 1;
            proof {
                assert((i * cols) as int == ((i - 1) * cols) as int + cols as int)
                    by (nonlinear_arith)
                    requires
                        1 <= i,
                        i <= rows,
                        n == rows * cols,
                        n <= DIM_LIMIT,
                ;
            }
        }
        proof {
            assert(1 <= n && (n as int) * (SCALE as int) <= (DIM_LIMIT as int) * (SCALE as int)
                && 0 < (n as int) * (SCALE as int)) by (nonlinear_arith)
                requires
                    rows >= 1,
                    cols >= 1,
                    n == rows * cols,
                    n <= DIM_LIMIT,
            ;
        }
        let divisor: i128 = (n as i128) * (SCALE as i128);
        let v: i128 = acc / divisor;
        proof {
            assert(v == mse_value_spec(pred@, target@));
            lemma_sq_prefix_nonneg(pred@, target@, rows as int);
            vstd::arithmetic::div_mod::lemma_div_pos_is_pos(acc as int, divisor as int);
        }
        if v > UNIT_BOUND as i128 {
            return Err(NnError::Overflow);
        }
        self.cache = Some((pred.duplicate(), target.duplicate()));
        Ok(v as i64)
    }

    /// Returns the gradient of the stored mean with respect to the stored
    /// prediction. Fails with the sequencing error before any forward pass,
    /// and with the overflow error when a gradient entry is not
    /// representable.
    pub fn backward(&self) -> (r: Result<Matrix, NnError>)
        requires
            self.wf(),
        ensures
            match r {
                Ok(m) => {
                    &&& self.cache_view() is Some
                    &&& mse_grad_fits(
                        self.cache_view().unwrap().0,
                        self.cache_view().unwrap().1,
                    )
                    &&& m@ == mse_grad_spec(
                        self.cache_view().unwrap().0,
                        self.cache_view().unwrap().1,
                    )
                    &&& is_grid(
                        m@,
                        self.cache_view().unwrap().0.len() as int,
                        self.cache_view().unwrap().0[0].len() as int,
                    )
                },
                Err(NnError::NotForwarded) => self.cache_view() is None,
                Err(NnError::Overflow) => self.cache_view() is Some && !mse_grad_fits(
                    self.cache_view().unwrap().0,
                    self.cache_view().unwrap().1,
                ),
                Err(_) => false,
            },
    {
        let (pred, target) = match &self.cache {
            Some(c) => (&c.0, &c.1),
            None => {
                return Err(NnError::NotForwarded);
            },
        };
        proof {
            use_type_invariant(pred);
            use_type_invariant(target);
            pred.lemma_shape();
            target.lemma_shape();
        }
        let ghost pv = pred@;
        let ghost yv = target@;
        proof {
            pred.lemma_data_len();
        }
        let rows = pred.nrows();
        let cols = pred.ncols();
        let n: usize = rows * cols;
        let mut data: Vec<i64> = Vec::new();
        let mut i: usize = 0;
        while i < rows
            invariant
                pred.wf(),
                target.wf(),
                self.cache_view() == Some((pv, yv)),
                pv == pred@,
                yv == target@,
                rows == pv.len(),
                cols == pv[0].len(),
                rows == yv.len(),
                cols == yv[0].len(),
                n == rows * cols,
                i <= rows,
                data@.len() == i * cols,
                forall|t: int|
                    0 <= t < data@.len() ==> #[trigger] data@[t] == mse_grad_entry(
                        pv,
                        yv,
                        t / (cols as int),
                        t % (cols as int),
                    ) && -UNIT_BOUND <= data@[t] <= UNIT_BOUND,
            decreases rows - i,
        {
            let mut j: usize = 0;
            while j < cols
                invariant
                    pred.wf(),
                    target.wf(),
                    self.cache_view() == Some((pv, yv)),
                    pv == pred@,
                    yv == target@,
                    rows == pv.len(),
                    cols == pv[0].len(),
                    rows == yv.len(),
                    cols == yv[0].len(),
                    n == rows * cols,
                    i < rows,
                    j <= cols,
                    data@.len() == i * cols + j,
                    forall|t: int|
                        0 <= t < data@.len() ==> #[trigger] data@[t] == mse_grad_entry(
                            pv,
                            yv,
                            t / (cols as int),
                            t % (cols as int),
                        ) && -UNIT_BOUND <= data@[t] <= UNIT_BOUND,
                decreases cols - j,
            {
                proof {
                    pred.lemma_shape();
                    target.lemma_shape();
                    lemma_flat_index(i as int, j as int, rows as int, cols as int);
                }
                let pvij = pred.entry(i, j);
                let yvij = target.entry(i, j);
                let num: i128 = 2 * ((pvij as i128) - (yvij as i128));
                let g: i128 = if num >= 0 {
                    num / (n as i128)
                } else {
                    -((-num) / (n as i128))
                };
                proof {
                    assert(g == mse_grad_entry(pv, yv, i as int, j as int));
                }
                if g < -(UNIT_BOUND as i128) || g > UNIT_BOUND as i128 {
                    proof {
                        assert(!(-UNIT_BOUND <= mse_grad_entry(pv, yv, i as int, j as int)
                            <= UNIT_BOUND));
                        assert(!mse_grad_fits(pv, yv));
                    }
                    return Err(NnError::Overflow);
                }
                data.push(g as i64);
                j += 1;
            }
            i += 1;
            proof {
                assert(i * cols == (i - 1) * cols + cols) by (nonlinear_arith);
            }
        }
        let m = Matrix::from_units_exact(rows, cols, data);
        proof {
            assert forall|a: int, b: int| 0 <= a < rows && 0 <= b < cols implies #[trigger] m@[a][b]
                == mse_grad_entry(pv, yv, a, b) by {
                lemma_flat_index(a, b, rows as int, cols as int);
            }
            assert(m@ =~~= mse_grad_spec(pv, yv));
            use_type_invariant(&m);
            m.lemma_shape();
            assert forall|a: int, b: int|
                0 <= a < pv.len() && 0 <= b < pv[0].len() implies -UNIT_BOUND
                <= #[trigger] mse_grad_entry(pv, yv, a, b) <= UNIT_BOUND by {
                assert(m@[a][b] == mse_grad_entry(pv, yv, a, b));
                assert(-UNIT_BOUND <= m@[a][b] <= UNIT_BOUND);
            }
            assert(mse_grad_fits(pv, yv));
        }
        Ok(m)
    }
}

} // verus!
