//! A dense layer: one affine transform followed by one activation.
//!
//! `forward` computes `Z = W·X + b` (bias broadcast across the batch),
//! delegates to the owned activation, and caches what the backward pass
//! needs. `backward` turns an incoming gradient into the parameter
//! gradients `dLdW`, `dLdb` and the gradient to propagate further back.

use vstd::prelude::*;

use crate::activation::ActivationFunction;
use crate::error::NnError;
use crate::fx::fx_mul_spec;
use crate::matrix::{
    add_col_fits, is_grid, mat_add_col_spec, mat_mul_spec, mat_row_sum_spec, mat_transpose_spec,
    mul_compat, mul_fits, row_sum_fits, same_shape, Matrix,
};

verus! {

/// The grid `z` mapped entrywise through the activation `A`.
pub open spec fn act_map<A: ActivationFunction>(z: Seq<Seq<int>>) -> Seq<Seq<int>> {
    Seq::new(z.len(), |i: int| Seq::new(z[0].len() as nat, |j: int| A::act(z[i][j])))
}

/// The gradient `d` multiplied entrywise with the derivative of `A` taken
/// on the stored output `st`.
pub open spec fn grad_map<A: ActivationFunction>(st: Seq<Seq<int>>, d: Seq<Seq<int>>) -> Seq<
    Seq<int>,
> {
    Seq::new(
        d.len(),
        |i: int| Seq::new(d[0].len() as nat, |j: int| fx_mul_spec(d[i][j], A::dact(st[i][j]))),
    )
}

/// The pre-activation of a layer: `W·X` plus the bias column.
pub open spec fn layer_z_spec(w: Seq<Seq<int>>, b: Seq<Seq<int>>, x: Seq<Seq<int>>) -> Seq<
    Seq<int>,
> {
    mat_add_col_spec(mat_mul_spec(w, x), b)
}

/// The output of a layer with activation `A` on input `x`.
pub open spec fn layer_out_spec<A: ActivationFunction>(
    w: Seq<Seq<int>>,
    b: Seq<Seq<int>>,
    x: Seq<Seq<int>>,
) -> Seq<Seq<int>> {
    act_map::<A>(layer_z_spec(w, b, x))
}

/// The forward pass succeeds: the shapes compose and every intermediate
/// value is representable.
pub open spec fn layer_fwd_ok(w: Seq<Seq<int>>, b: Seq<Seq<int>>, x: Seq<Seq<int>>) -> bool {
    &&& mul_compat(w, x)
    &&& mul_fits(w, x)
    &&& add_col_fits(mat_mul_spec(w, x), b)
}

/// The backward pass succeeds: every gradient product and reduction is
/// representable.
pub open spec fn layer_bwd_ok<A: ActivationFunction>(
    w: Seq<Seq<int>>,
    st: Seq<Seq<int>>,
    x: Seq<Seq<int>>,
    d: Seq<Seq<int>>,
) -> bool {
    let gm = grad_map::<A>(st, d);
    &&& mul_fits(gm, mat_transpose_spec(x))
    &&& row_sum_fits(gm)
    &&& mul_fits(mat_transpose_spec(w), gm)
}

/// One dense layer: weights, bias, an owned activation, and the caches of
/// the current forward/backward step.
pub struct Layer<A: ActivationFunction> {
    /// Weight matrix, output dimension by input dimension.
    pub w: Matrix,
    /// Bias column, output dimension by one.
    pub b: Matrix,
    /// The owned activation instance.
    pub act: A,
    /// The input of the most recent forward pass.
    pub x: Option<Matrix>,
    /// The pre-activation of the most recent forward pass.
    pub z: Option<Matrix>,
    /// Gradient of the loss with respect to `w`, set by `backward`.
    pub dldw: Option<Matrix>,
    /// Gradient of the loss with respect to `b`, set by `backward`.
    pub dldb: Option<Matrix>,
}

impl<A: ActivationFunction> Layer<A> {
    /// The view of the cached input, if any.
    pub open spec fn x_view(&self) -> Option<Seq<Seq<int>>> {
        match self.x {
            Some(m) => Some(m@),
            None => None,
        }
    }

    /// The view of the cached pre-activation, if any.
    pub open spec fn z_view(&self) -> Option<Seq<Seq<int>>> {
        match self.z {
            Some(m) => Some(m@),
            None => None,
        }
    }

    /// The view of the cached weight gradient, if any.
    pub open spec fn dldw_view(&self) -> Option<Seq<Seq<int>>> {
        match self.dldw {
            Some(m) => Some(m@),
            None => None,
        }
    }

    /// The view of the cached bias gradient, if any.
    pub open spec fn dldb_view(&self) -> Option<Seq<Seq<int>>> {
        match self.dldb {
            Some(m) => Some(m@),
            None => None,
        }
    }

    /// Well-formedness: the bias is a column matching the weights, the
    /// caches of one step are present together with matching shapes, and
    /// stored gradients are shaped like the parameters they refer to.
    pub open spec fn wf(&self) -> bool {
        &&& self.b@.len() == self.w@.len()
        &&& self.b@[0].len() == 1
        &&& (self.x_view() is Some <==> self.act.stored() is Some)
        &&& (self.x_view() is Some <==> self.z_view() is Some)
        &&& (self.x_view() matches Some(xv) ==> xv.len() == self.w@[0].len() && xv[0].len() >= 1
            && (self.act.stored() matches Some(st) ==> st.len() == self.w@.len() && st[0].len()
            == xv[0].len()))
        &&& (self.dldw_view() matches Some(g) ==> g.len() == self.w@.len() && g[0].len()
            == self.w@[0].len())
        &&& (self.dldb_view() matches Some(g) ==> g.len() == self.w@.len() && g[0].len() == 1)
    }

    /// A fresh layer around the given parameters and a fresh activation.
    /// Rejects a bias that is not a column of the weights' row count.
    pub fn new(w: Matrix, b: Matrix, act: A) -> (r: Result<Layer<A>, NnError>)
        requires
            act.stored() is None,
        ensures
            match r {
                Ok(l) => {
                    &&& b@.len() == w@.len() && b@[0].len() == 1
                    &&& l.wf()
                    &&& l.w@ == w@
                    &&& l.b@ == b@
                    &&& l.x_view() is None
                    &&& l.z_view() is None
                    &&& l.dldw_view() is None
                    &&& l.dldb_view() is None
                },
                Err(NnError::ShapeMismatch) => !(b@.len() == w@.len() && b@[0].len() == 1),
                Err(_) => false,
            },
    {
        proof {
            use_type_invariant(&w);
            use_type_invariant(&b);
            w.lemma_shape();
            b.lemma_shape();
        }
        if b.nrows() != w.nrows() || b.ncols() != 1 {
            return Err(NnError::ShapeMismatch);
        }
        Ok(Layer { w, b, act, x: None, z: None, dldw: None, dldb: None })
    }

    /// Stores the input, computes the pre-activation `W·X + b`, applies the
    /// activation, stores its output, and returns it. Fails with the shape
    /// error when the input's row count does not match the weights' column
    /// count, and with the overflow error when an intermediate value is not
    /// representable; on failure nothing is changed.
    pub fn forward(&mut self, x: &Matrix) -> (r: Result<Matrix, NnError>)
        requires
            old(self).wf(),
        ensures
            match r {
                Ok(a) => {
                    &&& layer_fwd_ok(old(self).w@, old(self).b@, x@)
                    &&& is_grid(a@, old(self).w@.len() as int, x@[0].len() as int)
                    &&& a@ == layer_out_spec::<A>(old(self).w@, old(self).b@, x@)
                    &&& final(self).wf()
                    &&& final(self).w == old(self).w
                    &&& final(self).b == old(self).b
                    &&& final(self).dldw == old(self).dldw
                    &&& final(self).dldb == old(self).dldb
                    &&& final(self).x_view() == Some(x@)
                    &&& final(self).z_view() == Some(layer_z_spec(old(self).w@, old(self).b@, x@))
                    &&& final(self).act.stored() == Some(a@)
                },
                Err(NnError::ShapeMismatch) => !mul_compat(old(self).w@, x@) && *final(self)
                    == *old(self),
                Err(NnError::Overflow) => mul_compat(old(self).w@, x@) && !(mul_fits(
                    old(self).w@,
                    x@,
                ) && add_col_fits(mat_mul_spec(old(self).w@, x@), old(self).b@)) && *final(self)
                    == *old(self),
                Err(_) => false,
            },
    {
        proof {
            use_type_invariant(x);
            x.lemma_shape();
            use_type_invariant(&self.w);
            self.w.lemma_shape();
            use_type_invariant(&self.b);
            self.b.lemma_shape();
        }
        let z0 = match self.w.matmul(x) {
            Ok(m) => m,
            Err(e) => {
                return Err(e);
            },
        };
        let z = match z0.add_col(&self.b) {
            Ok(m) => m,
            Err(e) => {
                proof {
                    assert(e == NnError::Overflow);
                }
                return Err(e);
            },
        };
        let a = self.act.forward(&z);
        self.x = Some(x.duplicate());
        self.z = Some(z);
        proof {
            assert(a@ =~~= layer_out_spec::<A>(self.w@, self.b@, x@));
        }
        Ok(a)
    }

    /// Delegates to the activation's backward pass to obtain `dLdZ`, then
    /// stores `dLdW = dLdZ·Xᵗ` and `dLdb` (the row sums of `dLdZ`) and
    /// returns `dLdX = Wᵗ·dLdZ`. Fails with the sequencing error before any
    /// forward pass, the shape error when the gradient does not match the
    /// stored output, and the overflow error when an intermediate value is
    /// not representable; on failure nothing is changed.
    pub fn backward(&mut self, dlda: &Matrix) -> (r: Result<Matrix, NnError>)
        requires
            old(self).wf(),
        ensures
            match r {
                Ok(m) => {
                    &&& old(self).x_view() is Some
                    &&& old(self).act.stored() is Some
                    &&& same_shape(dlda@, old(self).act.stored().unwrap())
                    &&& layer_bwd_ok::<A>(
                        old(self).w@,
                        old(self).act.stored().unwrap(),
                        old(self).x_view().unwrap(),
                        dlda@,
                    )
                    &&& final(self).dldw_view() == Some(
                        mat_mul_spec(
                            grad_map::<A>(old(self).act.stored().unwrap(), dlda@),
                            mat_transpose_spec(old(self).x_view().unwrap()),
                        ),
                    )
                    &&& final(self).dldb_view() == Some(
                        mat_row_sum_spec(grad_map::<A>(old(self).act.stored().unwrap(), dlda@)),
                    )
                    &&& m@ == mat_mul_spec(
                        mat_transpose_spec(old(self).w@),
                        grad_map::<A>(old(self).act.stored().unwrap(), dlda@),
                    )
                    &&& is_grid(m@, old(self).w@[0].len() as int, dlda@[0].len() as int)
                    &&& final(self).wf()
                    &&& final(self).w == old(self).w
                    &&& final(self).b == old(self).b
                    &&& final(self).x == old(self).x
                    &&& final(self).z == old(self).z
                    &&& final(self).act == old(self).act
                },
                Err(NnError::NotForwarded) => old(self).x_view() is None && *final(self) == *old(
                    self,
                ),
                Err(NnError::ShapeMismatch) => old(self).x_view() is Some && !same_shape(
                    dlda@,
                    old(self).act.stored().unwrap(),
                ) && *final(self) == *old(self),
                Err(NnError::Overflow) => old(self).x_view() is Some && same_shape(
                    dlda@,
                    old(self).act.stored().unwrap(),
                ) && !layer_bwd_ok::<A>(
                    old(self).w@,
                    old(self).act.stored().unwrap(),
                    old(self).x_view().unwrap(),
                    dlda@,
                ) && *final(self) == *old(self),
            },
    {
        proof {
            use_type_invariant(dlda);
            dlda.lemma_shape();
            use_type_invariant(&self.w);
            self.w.lemma_shape();
        }
        if self.x.is_none() {
            return Err(NnError::NotForwarded);
        }
        let dldz = match self.act.backward(dlda) {
            Ok(m) => m,
            Err(e) => {
                proof {
                    assert(e == NnError::ShapeMismatch);
                }
                return Err(e);
            },
        };
        let ghost st = self.act.stored().unwrap();
        let ghost gm = grad_map::<A>(st, dlda@);
        proof {
            assert(dldz@ =~~= gm);
        }
        let xm = match &self.x {
            Some(m) => m,
            None => {
                proof {
                    assert(false);
                }
                return Err(NnError::NotForwarded);
            },
        };
        proof {
            use_type_invariant(xm);
            xm.lemma_shape();
        }
        let xt = xm.transpose();
        let gw = match dldz.matmul(&xt) {
            Ok(m) => m,
            Err(e) => {
                proof {
                    assert(e == NnError::Overflow);
                }
                return Err(NnError::Overflow);
            },
        };
        let gb = match dldz.row_sum() {
            Ok(m) => m,
            Err(e) => {
                proof {
                    assert(e == NnError::Overflow);
                }
                return Err(NnError::Overflow);
            },
        };
        let wt = self.w.transpose();
        let dldx = match wt.matmul(&dldz) {
            Ok(m) => m,
            Err(e) => {
                proof {
                    assert(e == NnError::Overflow);
                }
                return Err(NnError::Overflow);
            },
        };
        self.dldw = Some(gw);
        self.dldb = Some(gb);
        Ok(dldx)
    }
}

} // verus!
