//! Activation functions.
//!
//! An activation is a stateful forward/backward unit: `forward` applies a
//! nonlinearity entrywise and stores its output, `backward` multiplies an
//! incoming gradient entrywise with the derivative, which every variant
//! expresses over its own stored output. `backward` before any `forward` is
//! a sequencing error and fails deterministically.

use vstd::prelude::*;

use crate::error::NnError;
use crate::fx::{fx_mul, fx_mul_spec, lemma_fx_mul_one, lemma_fx_mul_zero, SCALE, UNIT_BOUND};
use crate::sig::{lemma_sigmoid_range, sigmoid_exec, sigmoid_spec};
use crate::matrix::{is_grid, lemma_flat_index, same_shape, Matrix};

verus! {

/// A stateful elementwise nonlinearity with a forward and a backward pass.
pub trait ActivationFunction: Sized {
    /// The output stored by the most recent `forward` call, if any.
    spec fn stored(&self) -> Option<Seq<Seq<int>>>;

    /// The activation value of one entry, in units.
    spec fn act(z: int) -> int;

    /// The derivative of one entry, in units, expressed over the stored
    /// output value.
    spec fn dact(a: int) -> int;

    /// Applies the activation entrywise, stores the output, and returns a
    /// copy of it.
    fn forward(&mut self, z: &Matrix) -> (r: Matrix)
        ensures
            is_grid(r@, z@.len() as int, z@[0].len() as int),
            forall|i: int, j: int|
                0 <= i < z@.len() && 0 <= j < z@[0].len() ==> #[trigger] r@[i][j] == Self::act(
                    z@[i][j],
                ),
            final(self).stored() == Some(r@),
    ;

    /// Multiplies the incoming gradient entrywise with the derivative taken
    /// on the stored output. Fails with the sequencing error before any
    /// `forward`, and with the shape error when the gradient does not match
    /// the stored output.
    fn backward(&self, dlda: &Matrix) -> (r: Result<Matrix, NnError>)
        ensures
            match r {
                Ok(m) => {
                    &&& self.stored() is Some
                    &&& same_shape(dlda@, self.stored().unwrap())
                    &&& is_grid(m@, dlda@.len() as int, dlda@[0].len() as int)
                    &&& forall|i: int, j: int|
                        0 <= i < dlda@.len() && 0 <= j < dlda@[0].len() ==> #[trigger] m@[i][j]
                            == fx_mul_spec(dlda@[i][j], Self::dact(self.stored().unwrap()[i][j]))
                },
                Err(NnError::NotForwarded) => self.stored() is None,
                Err(NnError::ShapeMismatch) => self.stored() is Some && !same_shape(
                    dlda@,
                    self.stored().unwrap(),
                ),
                Err(_) => false,
            },
    ;
}

/// The identity activation: `f(x) = x`, derivative one everywhere.
pub struct Identity {
    a: Option<Matrix>,
}

impl Identity {
    /// A fresh instance with nothing stored.
    pub fn new() -> (r: Identity)
        ensures
            r.stored() is None,
    {
        Identity { a: None }
    }
}

impl ActivationFunction for Identity {
    closed spec fn stored(&self) -> Option<Seq<Seq<int>>> {
        match self.a {
            Some(m) => Some(m@),
            None => None,
        }
    }

    open spec fn act(z: int) -> int {
        z
    }

    open spec fn dact(a: int) -> int {
        SCALE as int
    }

    fn forward(&mut self, z: &Matrix) -> (r: Matrix) {
        proof {
            use_type_invariant(z);
            z.lemma_shape();
        }
        let out = z.duplicate();
        self.a = Some(z.duplicate());
        out
    }

    fn backward(&self, dlda: &Matrix) -> (r: Result<Matrix, NnError>) {
        proof {
            use_type_invariant(dlda);
            dlda.lemma_shape();
        }
        let stored = match &self.a {
            Some(m) => m,
            None => {
                return Err(NnError::NotForwarded);
            },
        };
        proof {
            use_type_invariant(stored);
            stored.lemma_shape();
        }
        if dlda.nrows() != stored.nrows() || dlda.ncols() != stored.ncols() {
            return Err(NnError::ShapeMismatch);
        }
        let out = dlda.duplicate();
        proof {
            assert forall|i: int, j: int|
                0 <= i < dlda@.len() && 0 <= j < dlda@[0].len() implies #[trigger] out@[i][j]
                == fx_mul_spec(dlda@[i][j], Identity::dact(self.stored().unwrap()[i][j])) by {
                lemma_fx_mul_one(dlda@[i][j]);
            }
        }
        Ok(out)
    }
}

/// The rectified linear unit: `f(x) = max(0, x)`; the derivative is one
/// where the stored output is positive and zero elsewhere.
pub struct ReLU {
    a: Option<Matrix>,
}

impl ReLU {
    /// A fresh instance with nothing stored.
    pub fn new() -> (r: ReLU)
        ensures
            r.stored() is None,
    {
        ReLU { a: None }
    }
}

impl ActivationFunction for ReLU {
    closed spec fn stored(&self) -> Option<Seq<Seq<int>>> {
        match self.a {
            Some(m) => Some(m@),
            None => None,
        }
    }

    open spec fn act(z: int) -> int {
        if z > 0 {
            z
        } else {
            0
        }
    }

    open spec fn dact(a: int) -> int {
        if a > 0 {
            SCALE as int
        } else {
            0
        }
    }

    fn forward(&mut self, z: &Matrix) -> (r: Matrix) {
        proof {
            use_type_invariant(z);
            z.lemma_shape();
        }
        let rows = z.nrows();
        let cols = z.ncols();
        let mut data: Vec<i64> = Vec::new();
        let mut i: usize = 0;
        while i < rows
            invariant
                z.wf(),
                rows == z@.len(),
                cols == z@[0].len(),
                i <= rows,
                data@.len() == i * cols,
                forall|t: int|
                    0 <= t < data@.len() ==> #[trigger] data@[t] == ReLU::act(
                        z@[t / (cols as int)][t % (cols as int)],
                    ) && 0 <= data@[t] <= UNIT_BOUND,
            decreases rows - i,
        {
            let mut j: usize = 0;
            while j < cols
                invariant
                    z.wf(),
                    rows == z@.len(),
                    cols == z@[0].len(),
                    i < rows,
                    j <= cols,
                    data@.len() == i * cols + j,
                    forall|t: int|
                        0 <= t < data@.len() ==> #[trigger] data@[t] == ReLU::act(
                            z@[t / (cols as int)][t % (cols as int)],
                        ) && 0 <= data@[t] <= UNIT_BOUND,
                decreases cols - j,
            {
                proof {
                    z.lemma_shape();
                    lemma_flat_index(i as int, j as int, rows as int, cols as int);
                }
                let v = z.entry(i, j);
                let w: i64 = if v > 0 {
                    v
                } else {
                    0
                };
                data.push(w);
                j += 1;
            }
            i += 1;
            proof {
                assert(i * cols == (i - 1) * cols + cols) by (nonlinear_arith);
            }
        }
        let out = Matrix::from_units_exact(rows, cols, data);
        let kept = out.duplicate();
        self.a = Some(kept);
        proof {
            assert forall|i2: int, j2: int|
                0 <= i2 < rows && 0 <= j2 < cols implies #[trigger] out@[i2][j2] == ReLU::act(
                z@[i2][j2],
            ) by {
                lemma_flat_index(i2, j2, rows as int, cols as int);
            }
        }
        out
    }

    fn backward(&self, dlda: &Matrix) -> (r: Result<Matrix, NnError>) {
        proof {
            use_type_invariant(dlda);
            dlda.lemma_shape();
        }
        let stored = match &self.a {
            Some(m) => m,
            None => {
                return Err(NnError::NotForwarded);
            },
        };
        proof {
            use_type_invariant(stored);
            stored.lemma_shape();
        }
        let rows = dlda.nrows();
        let cols = dlda.ncols();
        if rows != stored.nrows() || cols != stored.ncols() {
            return Err(NnError::ShapeMismatch);
        }
        let ghost st = self.stored().unwrap();
        let mut data: Vec<i64> = Vec::new();
        let mut i: usize = 0;
        while i < rows
            invariant
                dlda.wf(),
                stored.wf(),
                rows == dlda@.len(),
                cols == dlda@[0].len(),
                rows == stored@.len(),
                cols == stored@[0].len(),
                st == stored@,
                i <= rows,
                data@.len() == i * cols,
                forall|t: int|
                    0 <= t < data@.len() ==> #[trigger] data@[t] == fx_mul_spec(
                        dlda@[t / (cols as int)][t % (cols as int)],
                        ReLU::dact(st[t / (cols as int)][t % (cols as int)]),
                    ) && -UNIT_BOUND <= data@[t] <= UNIT_BOUND,
            decreases rows - i,
        {
            let mut j: usize = 0;
            while j < cols
                invariant
                    dlda.wf(),
                    stored.wf(),
                    rows == dlda@.len(),
                    cols == dlda@[0].len(),
                    rows == stored@.len(),
                    cols == stored@[0].len(),
                    st == stored@,
                    i < rows,
                    j <= cols,
                    data@.len() == i * cols + j,
                    forall|t: int|
                        0 <= t < data@.len() ==> #[trigger] data@[t] == fx_mul_spec(
                            dlda@[t / (cols as int)][t % (cols as int)],
                            ReLU::dact(st[t / (cols as int)][t % (cols as int)]),
                        ) && -UNIT_BOUND <= data@[t] <= UNIT_BOUND,
                decreases cols - j,
            {
                proof {
                    dlda.lemma_shape();
                    stored.lemma_shape();
                    lemma_flat_index(i as int, j as int, rows as int, cols as int);
                }
                let av = stored.entry(i, j);
                let dv = dlda.entry(i, j);
                let w: i64 = if av > 0 {
                    dv
                } else {
                    0
                };
                proof {
                    if av > 0 {
                        lemma_fx_mul_one(dv as int);
                    } else {
                        lemma_fx_mul_zero(dv as int);
                    }
                }
                data.push(w);
                j += 1;
            }
            i += 1;
            proof {
                assert(i * cols == (i - 1) * cols + cols) by (nonlinear_arith);
            }
        }
        let out = Matrix::from_units_exact(rows, cols, data);
        proof {
            assert forall|i2: int, j2: int|
                0 <= i2 < rows && 0 <= j2 < cols implies #[trigger] out@[i2][j2] == fx_mul_spec(
                dlda@[i2][j2],
                ReLU::dact(st[i2][j2]),
            ) by {
                lemma_flat_index(i2, j2, rows as int, cols as int);
            }
        }
        Ok(out)
    }
}

/// The logistic activation: `f(z) = 1 / (1 + e^(-z))`; the derivative is
/// `A · (1 - A)`, expressed over the stored output.
pub struct Sigmoid {
    a: Option<Matrix>,
}

impl Sigmoid {
    /// Every stored output entry lies strictly between zero and one.
    #[verifier::type_invariant]
    closed spec fn inv(self) -> bool {
        match self.a {
            Some(m) => forall|i: int, j: int|
                0 <= i < m@.len() && 0 <= j < m@[i].len() ==> 1 <= #[trigger] m@[i][j] <= SCALE
                    - 1,
            None => true,
        }
    }

    /// A fresh instance with nothing stored.
    pub fn new() -> (r: Sigmoid)
        ensures
            r.stored() is None,
    {
        Sigmoid { a: None }
    }
}

/// The sigmoid derivative in terms of the output stays within one.
proof fn lemma_sig_dact_bound(a: int)
    requires
        1 <= a <= SCALE - 1,
    ensures
        0 <= fx_mul_spec(a, SCALE - a) <= SCALE as int,
{
    let s = SCALE as int;
    assert(0 <= a * (s - a) <= s * s) by (nonlinear_arith)
        requires
            1 <= a <= s - 1,
    ;
    vstd::arithmetic::div_mod::lemma_div_pos_is_pos(a * (s - a), s);
    vstd::arithmetic::div_mod::lemma_div_is_ordered(a * (s - a), s * s, s);
    vstd::arithmetic::div_mod::lemma_div_multiples_vanish(s, s);
}

impl ActivationFunction for Sigmoid {
    closed spec fn stored(&self) -> Option<Seq<Seq<int>>> {
        match self.a {
            Some(m) => Some(m@),
            None => None,
        }
    }

    open spec fn act(z: int) -> int {
        sigmoid_spec(z)
    }

    open spec fn dact(a: int) -> int {
        fx_mul_spec(a, SCALE - a)
    }

    fn forward(&mut self, z: &Matrix) -> (r: Matrix) {
        proof {
            use_type_invariant(z);
            z.lemma_shape();
        }
        let rows = z.nrows();
        let cols = z.ncols();
        let mut data: Vec<i64> = Vec::new();
        let mut i: usize = 0;
        while i < rows
            invariant
                z.wf(),
                rows == z@.len(),
                cols == z@[0].len(),
                i <= rows,
                data@.len() == i * cols,
                forall|t: int|
                    0 <= t < data@.len() ==> #[trigger] data@[t] == Sigmoid::act(
                        z@[t / (cols as int)][t % (cols as int)],
                    ) && 1 <= data@[t] <= SCALE - 1,
            decreases rows - i,
        {
            let mut j: usize = 0;
            while j < cols
                invariant
                    z.wf(),
                    rows == z@.len(),
                    cols == z@[0].len(),
                    i < rows,
                    j <= cols,
                    data@.len() == i * cols + j,
                    forall|t: int|
                        0 <= t < data@.len() ==> #[trigger] data@[t] == Sigmoid::act(
                            z@[t / (cols as int)][t % (cols as int)],
                        ) && 1 <= data@[t] <= SCALE - 1,
                decreases cols - j,
            {
                proof {
                    z.lemma_shape();
                    lemma_flat_index(i as int, j as int, rows as int, cols as int);
                }
                let v = z.entry(i, j);
                let w: i64 = sigmoid_exec(v);
                data.push(w);
                j += 1;
            }
            i += 1;
            proof {
                assert(i * cols == (i - 1) * cols + cols) by (nonlinear_arith);
            }
        }
        let out = Matrix::from_units_exact(rows, cols, data);
        let kept = out.duplicate();
        proof {
            assert forall|i2: int, j2: int|
                0 <= i2 < rows && 0 <= j2 < cols implies #[trigger] out@[i2][j2] == Sigmoid::act(
                z@[i2][j2],
            ) && 1 <= out@[i2][j2] <= SCALE - 1 by {
                lemma_flat_index(i2, j2, rows as int, cols as int);
            }
        }
        self.a = Some(kept);
        out
    }

    fn backward(&self, dlda: &Matrix) -> (r: Result<Matrix, NnError>) {
        proof {
            use_type_invariant(self);
            use_type_invariant(dlda);
            dlda.lemma_shape();
        }
        let stored = match &self.a {
            Some(m) => m,
            None => {
                return Err(NnError::NotForwarded);
            },
        };
        proof {
            use_type_invariant(stored);
            stored.lemma_shape();
        }
        let rows = dlda.nrows();
        let cols = dlda.ncols();
        if rows != stored.nrows() || cols != stored.ncols() {
            return Err(NnError::ShapeMismatch);
        }
        let ghost st = self.stored().unwrap();
        let mut data: Vec<i64> = Vec::new();
        let mut i: usize = 0;
        while i < rows
            invariant
                dlda.wf(),
                stored.wf(),
                rows == dlda@.len(),
                cols == dlda@[0].len(),
                rows == stored@.len(),
                cols == stored@[0].len(),
                st == stored@,
                forall|i2: int, j2: int|
                    0 <= i2 < st.len() && 0 <= j2 < st[i2].len() ==> 1 <= #[trigger] st[i2][j2]
                        <= SCALE - 1,
                i <= rows,
                data@.len() == i * cols,
                forall|t: int|
                    0 <= t < data@.len() ==> #[trigger] data@[t] == fx_mul_spec(
                        dlda@[t / (cols as int)][t % (cols as int)],
                        Sigmoid::dact(st[t / (cols as int)][t % (cols as int)]),
                    ) && -UNIT_BOUND <= data@[t] <= UNIT_BOUND,
            decreases rows - i,
        {
            let mut j: usize = 0;
            while j < cols
                invariant
                    dlda.wf(),
                    stored.wf(),
                    rows == dlda@.len(),
                    cols == dlda@[0].len(),
                    rows == stored@.len(),
                    cols == stored@[0].len(),
                    st == stored@,
                    forall|i2: int, j2: int|
                        0 <= i2 < st.len() && 0 <= j2 < st[i2].len() ==> 1 <= #[trigger] st[i2][j2]
                            <= SCALE - 1,
                    i < rows,
                    j <= cols,
                    data@.len() == i * cols + j,
                    forall|t: int|
                        0 <= t < data@.len() ==> #[trigger] data@[t] == fx_mul_spec(
                            dlda@[t / (cols as int)][t % (cols as int)],
                            Sigmoid::dact(st[t / (cols as int)][t % (cols as int)]),
                        ) && -UNIT_BOUND <= data@[t] <= UNIT_BOUND,
                decreases cols - j,
            {
                proof {
                    dlda.lemma_shape();
                    stored.lemma_shape();
                    lemma_flat_index(i as int, j as int, rows as int, cols as int);
                }
                let av = stored.entry(i, j);
                let dv = dlda.entry(i, j);
                proof {
                    lemma_sig_dact_bound(av as int);
                }
                let dact_v = fx_mul(av, SCALE - av);
                proof {
                    crate::fx::lemma_fx_mul_small(dv as int, dact_v as int, UNIT_BOUND as int);
                }
                let w = fx_mul(dv, dact_v);
                data.push(w);
                j += 1;
            }
            i += 1;
            proof {
                assert(i * cols == (i - 1) * cols + cols) by (nonlinear_arith);
            }
        }
        let out = Matrix::from_units_exact(rows, cols, data);
        proof {
            assert forall|i2: int, j2: int|
                0 <= i2 < rows && 0 <= j2 < cols implies #[trigger] out@[i2][j2] == fx_mul_spec(
                dlda@[i2][j2],
                Sigmoid::dact(st[i2][j2]),
            ) by {
                lemma_flat_index(i2, j2, rows as int, cols as int);
            }
        }
        Ok(out)
    }
}

} // verus!
